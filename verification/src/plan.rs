//! Spreading one message over the images of a directory.
//!
//! The images are taken in directory order. Each valid image carries the
//! next piece of the message, as many bytes as a bit per pixel holds less one
//! for the terminating zero byte. When the images run out before the message
//! does, the last valid image is used again and again for the rest; each
//! time it is read onto what was read of it before, so the `t`-th reuse
//! hides its piece in `t` copies of the image, one after the other.
use vstd::prelude::*;
use crate::header::{
    PPMHeader, get_header, header_admissible, header_is_admissible, lemma_header_depends_on_prefix,
    lemma_header_offset_in_bounds, spec_header,
};
use crate::bytes::copy_range;
use crate::stego::{encode, embeds, fits, hidden_message, lemma_hidden_message_of_embedding};

verus! {

/// The images as byte sequences.
pub open spec fn views(images: Seq<Vec<u8>>) -> Seq<Seq<u8>> {
    images.map_values(|v: Vec<u8>| v@)
}

/// `img` has a header that can be read.
pub open spec fn is_image(img: Seq<u8>) -> bool {
    spec_header(img) is Some
}

/// Width times height of an image.
pub open spec fn pixel_count(img: Seq<u8>) -> int {
    match spec_header(img) {
        Some((w, h, _)) => (w * h) as int,
        None => 0,
    }
}

/// How many bytes an image carries, counting the terminating zero byte:
/// one bit per pixel.
pub open spec fn image_capacity(img: Seq<u8>) -> int {
    pixel_count(img) / 8
}

/// Where the pixel data of an image starts.
pub open spec fn image_offset(img: Seq<u8>) -> int {
    match spec_header(img) {
        Some((_, _, o)) => o,
        None => 0,
    }
}

/// Where a piece that starts at `p` in a message of `max` bytes ends, for an
/// image that carries `cap` bytes.
pub open spec fn step_end(p: int, cap: int, max: int) -> int {
    if p + cap - 1 < max {
        p + cap - 1
    } else {
        max
    }
}

/// `s`, `n` times over.
pub open spec fn repeated(s: Seq<u8>, n: int) -> Seq<u8>
    decreases n,
{
    if n <= 0 {
        Seq::empty()
    } else {
        repeated(s, n - 1) + s
    }
}

/// The pieces from `p` on when image `l`, which carries `cap` bytes, is used
/// for all of them, `t` times so far: (image, start, end, copies) each. The
/// image is read again for each piece onto what was read before, so the
/// piece after `t` earlier ones goes into `t + 1` copies of it.
pub open spec fn repeat_chunks(l: int, cap: int, p: int, max: int, t: int) -> Seq<
    (int, int, int, int),
>
    decreases max - p,
{
    if p >= max || cap < 2 {
        Seq::empty()
    } else {
        seq![(l, p, step_end(p, cap, max), t + 1)] + repeat_chunks(
            l,
            cap,
            step_end(p, cap, max),
            max,
            t + 1,
        )
    }
}

/// The pieces of a message of `max` bytes from position `p` on, the images
/// from `j` on still to be taken and `last` the last valid image so far.
pub open spec fn plan_from(imgs: Seq<Seq<u8>>, max: int, j: int, p: int, last: Option<int>) -> Seq<
    (int, int, int, int),
>
    decreases imgs.len() - j,
{
    if p >= max {
        Seq::empty()
    } else if j < imgs.len() {
        if is_image(imgs[j]) {
            let e = step_end(p, image_capacity(imgs[j]), max);
            seq![(j, p, e, 1)] + plan_from(imgs, max, j + 1, e, Some(j))
        } else {
            plan_from(imgs, max, j + 1, p, last)
        }
    } else {
        match last {
            Some(l) => repeat_chunks(l, image_capacity(imgs[l]), p, max, 0),
            None => Seq::empty(),
        }
    }
}

/// The pieces that a message of `max` bytes is cut into: (image, start, end,
/// copies of the image) each, in the order the output images are numbered.
pub open spec fn plan_chunks(imgs: Seq<Seq<u8>>, max: int) -> Seq<(int, int, int, int)> {
    plan_from(imgs, max, 0, 0, None)
}

/// Piece `[p, e)` can go into `copies` copies of `img`: computing its end
/// does not overflow, the copies make a buffer whose length is a `usize`,
/// and they have room for the piece and its terminator after the header.
pub open spec fn chunk_admissible(img: Seq<u8>, p: int, e: int, copies: int) -> bool {
    &&& p + image_capacity(img) <= usize::MAX
    &&& copies * img.len() <= usize::MAX
    &&& fits(copies * img.len(), e - p, image_offset(img))
}

/// Every piece from `p` on can go into `img`, used again and again, `t`
/// times so far.
pub open spec fn repeat_admissible(img: Seq<u8>, p: int, max: int, t: int) -> bool
    decreases max - p,
{
    if p >= max || image_capacity(img) < 2 {
        true
    } else {
        let e = step_end(p, image_capacity(img), max);
        chunk_admissible(img, p, e, t + 1) && repeat_admissible(img, e, max, t + 1)
    }
}

/// Spreading the message from `p` on over the images from `j` on goes
/// through: every image taken has a header that can be read, with a pixel
/// count that fits a `usize` and room for at least its terminator; every
/// piece fits; and when the images run out first, there is a last valid
/// image that carries at least one message byte.
pub open spec fn admissible_from(imgs: Seq<Seq<u8>>, max: int, j: int, p: int, last: Option<int>) -> bool
    decreases imgs.len() - j,
{
    if p >= max {
        true
    } else if j < imgs.len() {
        &&& header_admissible(imgs[j])
        &&& if is_image(imgs[j]) {
            let e = step_end(p, image_capacity(imgs[j]), max);
            &&& pixel_count(imgs[j]) <= usize::MAX
            &&& image_capacity(imgs[j]) >= 1
            &&& chunk_admissible(imgs[j], p, e, 1)
            &&& admissible_from(imgs, max, j + 1, e, Some(j))
        } else {
            admissible_from(imgs, max, j + 1, p, last)
        }
    } else {
        match last {
            Some(l) => 0 <= l < imgs.len() && image_capacity(imgs[l]) >= 2 && repeat_admissible(
                imgs[l],
                p,
                max,
                0,
            ),
            None => false,
        }
    }
}

/// Spreading a message of `max` bytes over `imgs` goes through.
pub open spec fn encode_admissible(imgs: Seq<Seq<u8>>, max: int) -> bool {
    admissible_from(imgs, max, 0, 0, None)
}

/// A piece of the message: the bytes `start..end`, to be hidden in `copies`
/// copies of image `image`, one after the other.
#[derive(Clone, Copy, Debug, PartialEq, Eq, Structural)]
pub struct Chunk {
    pub image: usize,
    pub start: usize,
    pub end: usize,
    pub copies: usize,
}

impl View for Chunk {
    type V = (int, int, int, int);

    open spec fn view(&self) -> (int, int, int, int) {
        (self.image as int, self.start as int, self.end as int, self.copies as int)
    }
}

/// The pieces as (image, start, end, copies).
pub open spec fn chunks_view(v: Seq<Chunk>) -> Seq<(int, int, int, int)> {
    Seq::new(v.len(), |i: int| v[i]@)
}

/// The index that an optional exec index stands for.
pub open spec fn index_of(o: Option<usize>) -> Option<int> {
    match o {
        Some(l) => Some(l as int),
        None => None,
    }
}

/// Whether `n` message bytes and a terminator fit in `len` bytes from `start` on.
pub fn has_room(len: usize, n: usize, start: usize) -> (r: bool)
    ensures
        r == fits(len as int, n as int, start as int),
{
    match n.checked_add(1) {
        None => false,
        Some(n1) => match n1.checked_mul(8) {
            None => false,
            Some(bits) => match start.checked_add(bits) {
                None => false,
                Some(end) => end <= len,
            },
        },
    }
}

/// Cuts a message of `message_len` bytes into pieces over `images`, in the
/// order the output images are numbered; `None` when spreading it does not
/// go through (see `encode_admissible`).
pub fn plan_encoding(message_len: usize, images: &Vec<Vec<u8>>) -> (r: Option<Vec<Chunk>>)
    ensures
        r is Some <==> encode_admissible(views(images@), message_len as int),
        r matches Some(p) ==> chunks_view(p@) == plan_chunks(views(images@), message_len as int),
{
    let ghost imgs = views(images@);
    let max = message_len;
    let n = images.len();
    let mut out: Vec<Chunk> = Vec::new();
    let mut indx: usize = 0;
    let mut last: Option<usize> = None;
    let mut last_cap: usize = 0;
    let mut last_off: usize = 0;
    let mut j: usize = 0;
    assert(chunks_view(out@) + plan_from(imgs, max as int, 0, 0, None) =~= plan_chunks(
        imgs,
        max as int,
    ));
    while j < n && indx < max
        invariant
            imgs == views(images@),
            n == images@.len(),
            max == message_len,
            j <= n,
            indx <= max,
            plan_chunks(imgs, max as int) == chunks_view(out@) + plan_from(
                imgs,
                max as int,
                j as int,
                indx as int,
                index_of(last),
            ),
            encode_admissible(imgs, max as int) == admissible_from(
                imgs,
                max as int,
                j as int,
                indx as int,
                index_of(last),
            ),
            last matches Some(l) ==> {
                &&& l < j
                &&& is_image(imgs[l as int])
                &&& last_cap == image_capacity(imgs[l as int])
                &&& last_off == image_offset(imgs[l as int])
            },
        decreases n - j,
    {
        let img = &images[j];
        assert(img@ == imgs[j as int]);
        if !header_is_admissible(img) {
            return None;
        }
        match get_header(img) {
            Ok(h) => {
                let prod = match h.width.checked_mul(h.height) {
                    Some(v) => v,
                    None => {
                        return None;
                    },
                };
                let cap = prod / 8;
                if cap < 1 {
                    return None;
                }
                if indx > usize::MAX - cap {
                    return None;
                }
                let end = if indx + cap - 1 < max {
                    indx + cap - 1
                } else {
                    max
                };
                if !has_room(img.len(), end - indx, h.offset) {
                    return None;
                }
                let ghost old_out = out@;
                out.push(Chunk { image: j, start: indx, end, copies: 1 });
                assert(chunks_view(out@) =~= chunks_view(old_out).push(
                    (j as int, indx as int, end as int, 1),
                ));
                assert(chunks_view(old_out) + plan_from(
                    imgs,
                    max as int,
                    j as int,
                    indx as int,
                    index_of(last),
                ) =~= chunks_view(out@) + plan_from(
                    imgs,
                    max as int,
                    j + 1,
                    end as int,
                    Some(j as int),
                ));
                indx = end;
                last = Some(j);
                last_cap = cap;
                last_off = h.offset;
            },
            Err(_) => {},
        }
        j = j + 1;
    }
    if indx < max {
        match last {
            None => {
                return None;
            },
            Some(l) => {
                if last_cap < 2 {
                    return None;
                }
                let img = &images[l];
                assert(img@ == imgs[l as int]);
                let mut t: usize = 0;
                while indx < max
                    invariant
                        imgs == views(images@),
                        n == images@.len(),
                        max == message_len,
                        l < n,
                        img@ == imgs[l as int],
                        indx <= max,
                        last_cap >= 2,
                        last_cap == image_capacity(imgs[l as int]),
                        last_off == image_offset(imgs[l as int]),
                        t <= indx,
                        plan_chunks(imgs, max as int) == chunks_view(out@) + repeat_chunks(
                            l as int,
                            last_cap as int,
                            indx as int,
                            max as int,
                            t as int,
                        ),
                        encode_admissible(imgs, max as int) == repeat_admissible(
                            imgs[l as int],
                            indx as int,
                            max as int,
                            t as int,
                        ),
                    decreases max - indx,
                {
                    if indx > usize::MAX - last_cap {
                        return None;
                    }
                    let end = if indx + last_cap - 1 < max {
                        indx + last_cap - 1
                    } else {
                        max
                    };
                    let copies = t + 1;
                    let total = match copies.checked_mul(img.len()) {
                        Some(v) => v,
                        None => {
                            return None;
                        },
                    };
                    if !has_room(total, end - indx, last_off) {
                        return None;
                    }
                    let ghost old_out = out@;
                    out.push(Chunk { image: l, start: indx, end, copies });
                    assert(chunks_view(out@) =~= chunks_view(old_out).push(
                        (l as int, indx as int, end as int, copies as int),
                    ));
                    assert(chunks_view(old_out) + repeat_chunks(
                        l as int,
                        last_cap as int,
                        indx as int,
                        max as int,
                        t as int,
                    ) =~= chunks_view(out@) + repeat_chunks(
                        l as int,
                        last_cap as int,
                        end as int,
                        max as int,
                        copies as int,
                    ));
                    indx = end;
                    t = copies;
                }
            },
        }
    }
    assert(chunks_view(out@) =~= plan_chunks(imgs, max as int));
    Some(out)
}


/// Whether the images from `j` on, taken from position `p`, reach the end of
/// the message before they run out (without reusing the last one).
pub open spec fn first_pass_reaches(imgs: Seq<Seq<u8>>, max: int, j: int, p: int) -> bool
    decreases imgs.len() - j,
{
    if p >= max {
        true
    } else if j < imgs.len() {
        if is_image(imgs[j]) {
            first_pass_reaches(imgs, max, j + 1, step_end(p, image_capacity(imgs[j]), max))
        } else {
            first_pass_reaches(imgs, max, j + 1, p)
        }
    } else {
        false
    }
}

/// The images spread the message, and carry all of it before they run out:
/// images after them are never looked at.
pub open spec fn covers_message(imgs: Seq<Seq<u8>>, max: int) -> bool {
    encode_admissible(imgs, max) && first_pass_reaches(imgs, max, 0, 0)
}

/// Whether `images` spread a message of `message_len` bytes and carry all of
/// it before they run out (see `covers_message`).
pub fn covers(message_len: usize, images: &Vec<Vec<u8>>) -> (r: bool)
    ensures
        r == covers_message(views(images@), message_len as int),
{
    if plan_encoding(message_len, images).is_none() {
        return false;
    }
    let ghost imgs = views(images@);
    let max = message_len;
    let n = images.len();
    let mut indx: usize = 0;
    let mut j: usize = 0;
    let ghost mut last: Option<int> = None;
    while j < n && indx < max
        invariant
            imgs == views(images@),
            n == images@.len(),
            max == message_len,
            j <= n,
            indx <= max,
            admissible_from(imgs, max as int, j as int, indx as int, last),
            first_pass_reaches(imgs, max as int, 0, 0) == first_pass_reaches(
                imgs,
                max as int,
                j as int,
                indx as int,
            ),
        decreases n - j,
    {
        let img = &images[j];
        assert(img@ == imgs[j as int]);
        match get_header(img) {
            Ok(h) => {
                let prod = h.width * h.height;
                let cap = prod / 8;
                let end = if indx + cap - 1 < max {
                    indx + cap - 1
                } else {
                    max
                };
                indx = end;
                proof {
                    last = Some(j as int);
                }
            },
            Err(_) => {},
        }
        j = j + 1;
    }
    indx >= max
}

proof fn lemma_covering_from(
    imgs: Seq<Seq<u8>>,
    rest: Seq<Seq<u8>>,
    max: int,
    j: int,
    p: int,
    last: Option<int>,
)
    requires
        0 <= j,
        first_pass_reaches(imgs, max, j, p),
    ensures
        plan_from(imgs + rest, max, j, p, last) == plan_from(imgs, max, j, p, last),
        admissible_from(imgs + rest, max, j, p, last) == admissible_from(imgs, max, j, p, last),
    decreases imgs.len() - j,
{
    if p < max && j < imgs.len() {
        assert((imgs + rest)[j] == imgs[j]);
        if is_image(imgs[j]) {
            lemma_covering_from(imgs, rest, max, j + 1, step_end(p, image_capacity(imgs[j]), max), Some(j));
        } else {
            lemma_covering_from(imgs, rest, max, j + 1, p, last);
        }
    }
}

/// Once the images read so far carry the whole message, the images after
/// them change nothing: neither the plan nor whether spreading goes through.
pub proof fn lemma_covering_images_decide(imgs: Seq<Seq<u8>>, rest: Seq<Seq<u8>>, max: int)
    requires
        covers_message(imgs, max),
    ensures
        plan_chunks(imgs + rest, max) == plan_chunks(imgs, max),
        encode_admissible(imgs + rest, max),
{
    lemma_covering_from(imgs, rest, max, 0, 0, None);
}

/// Piece `ch` of a message of `max` bytes can be hidden as planned.
pub open spec fn chunk_ok(imgs: Seq<Seq<u8>>, max: int, ch: (int, int, int, int)) -> bool {
    &&& 0 <= ch.0 < imgs.len()
    &&& is_image(imgs[ch.0])
    &&& header_admissible(imgs[ch.0])
    &&& pixel_count(imgs[ch.0]) <= usize::MAX
    &&& ch.3 >= 1
    &&& chunk_admissible(imgs[ch.0], ch.1, ch.2, ch.3)
    &&& 0 <= ch.1 < max
    &&& ch.1 <= ch.2 <= max
}

/// The pieces `s` cut `[a, b)` into consecutive, non-overlapping ranges, in order.
pub open spec fn contiguous(s: Seq<(int, int, int, int)>, a: int, b: int) -> bool {
    &&& s.len() == 0 <==> a == b
    &&& s.len() > 0 ==> s[0].1 == a && s[s.len() - 1].2 == b
    &&& forall|c: int| 0 <= c < s.len() ==> #[trigger] s[c].1 <= s[c].2 && s[c].1 < b
    &&& forall|c: int| 0 <= c < s.len() - 1 ==> #[trigger] s[c].2 == s[c + 1].1
}

/// Image `l` is a valid image that can be used again.
pub open spec fn reusable(imgs: Seq<Seq<u8>>, l: int) -> bool {
    &&& 0 <= l < imgs.len()
    &&& is_image(imgs[l])
    &&& header_admissible(imgs[l])
    &&& pixel_count(imgs[l]) <= usize::MAX
}

proof fn lemma_repeat_chunks(imgs: Seq<Seq<u8>>, l: int, p: int, max: int, t: int)
    requires
        reusable(imgs, l),
        image_capacity(imgs[l]) >= 2,
        repeat_admissible(imgs[l], p, max, t),
        0 <= p <= max,
        0 <= t,
    ensures
        forall|c: int|
            0 <= c < repeat_chunks(l, image_capacity(imgs[l]), p, max, t).len() ==> chunk_ok(
                imgs,
                max,
                #[trigger] repeat_chunks(l, image_capacity(imgs[l]), p, max, t)[c],
            ),
        contiguous(repeat_chunks(l, image_capacity(imgs[l]), p, max, t), p, max),
    decreases max - p,
{
    let cap = image_capacity(imgs[l]);
    if p < max {
        let e = step_end(p, cap, max);
        lemma_repeat_chunks(imgs, l, e, max, t + 1);
        let rest = repeat_chunks(l, cap, e, max, t + 1);
        let all = repeat_chunks(l, cap, p, max, t);
        assert(all =~= seq![(l, p, e, t + 1)] + rest);
        assert forall|c: int| 0 <= c < all.len() implies chunk_ok(imgs, max, #[trigger] all[c]) by {
            if c > 0 {
                assert(all[c] == rest[c - 1]);
            }
        }
        assert forall|c: int| 0 <= c < all.len() - 1 implies #[trigger] all[c].2 == all[c + 1].1 by {
            if c > 0 {
                assert(all[c] == rest[c - 1]);
            }
            assert(all[c + 1] == rest[c]);
        }
        assert forall|c: int| 0 <= c < all.len() implies #[trigger] all[c].1 <= all[c].2 && all[c].1
            < max by {
            if c > 0 {
                assert(all[c] == rest[c - 1]);
            }
        }
    }
}

proof fn lemma_plan_from(imgs: Seq<Seq<u8>>, max: int, j: int, p: int, last: Option<int>)
    requires
        admissible_from(imgs, max, j, p, last),
        0 <= j,
        0 <= p <= max,
        last matches Some(l) ==> reusable(imgs, l),
    ensures
        forall|c: int|
            0 <= c < plan_from(imgs, max, j, p, last).len() ==> chunk_ok(
                imgs,
                max,
                #[trigger] plan_from(imgs, max, j, p, last)[c],
            ),
        contiguous(plan_from(imgs, max, j, p, last), p, max),
    decreases imgs.len() - j,
{
    let all = plan_from(imgs, max, j, p, last);
    if p < max {
        if j < imgs.len() {
            if is_image(imgs[j]) {
                let e = step_end(p, image_capacity(imgs[j]), max);
                lemma_plan_from(imgs, max, j + 1, e, Some(j));
                let rest = plan_from(imgs, max, j + 1, e, Some(j));
                assert(all =~= seq![(j, p, e, 1)] + rest);
                assert forall|c: int| 0 <= c < all.len() implies chunk_ok(imgs, max, #[trigger] all[c]) by {
                    if c > 0 {
                        assert(all[c] == rest[c - 1]);
                    }
                }
                assert forall|c: int| 0 <= c < all.len() - 1 implies #[trigger] all[c].2 == all[c
                    + 1].1 by {
                    if c > 0 {
                        assert(all[c] == rest[c - 1]);
                    }
                    assert(all[c + 1] == rest[c]);
                }
                assert forall|c: int| 0 <= c < all.len() implies #[trigger] all[c].1 <= all[c].2
                    && all[c].1 < max by {
                    if c > 0 {
                        assert(all[c] == rest[c - 1]);
                    }
                }
            } else {
                lemma_plan_from(imgs, max, j + 1, p, last);
            }
        } else {
            let l = last.unwrap();
            lemma_repeat_chunks(imgs, l, p, max, 0);
        }
    }
}

/// The plan cuts the whole message, from its first byte to its last, into
/// consecutive pieces, each of which goes into copies of a valid image with
/// room for it.
pub proof fn lemma_plan_partitions_message(imgs: Seq<Seq<u8>>, max: int)
    requires
        encode_admissible(imgs, max),
        0 <= max,
    ensures
        contiguous(plan_chunks(imgs, max), 0, max),
        forall|c: int|
            0 <= c < plan_chunks(imgs, max).len() ==> chunk_ok(
                imgs,
                max,
                #[trigger] plan_chunks(imgs, max)[c],
            ),
{
    lemma_plan_from(imgs, max, 0, 0, None);
}

pub(crate) proof fn lemma_repeated(s: Seq<u8>, n: int)
    requires
        0 <= n,
    ensures
        repeated(s, n).len() == n * s.len(),
        n >= 1 ==> forall|m: int| 0 <= m < s.len() ==> #[trigger] repeated(s, n)[m] == s[m],
    decreases n,
{
    if n == 0 {
        assert(0 * s.len() == 0) by (nonlinear_arith);
    } else {
        lemma_repeated(s, n - 1);
        assert(n * s.len() == (n - 1) * s.len() + s.len()) by (nonlinear_arith);
        if n > 1 {
            assert forall|m: int| 0 <= m < s.len() implies #[trigger] repeated(s, n)[m] == s[m] by {
                assert(repeated(s, n)[m] == repeated(s, n - 1)[m]);
            }
        }
    }
}

/// `copies` copies of `data`, one after the other.
pub fn repeat_bytes(data: &[u8], copies: usize) -> (r: Vec<u8>)
    requires
        copies * data@.len() <= usize::MAX,
    ensures
        r@ == repeated(data@, copies as int),
{
    let mut r: Vec<u8> = Vec::new();
    let mut i: usize = 0;
    while i < copies
        invariant
            i <= copies,
            r@ == repeated(data@, i as int),
        decreases copies - i,
    {
        let ghost before = r@;
        let mut j: usize = 0;
        while j < data.len()
            invariant
                j <= data@.len(),
                r@ == before + data@.take(j as int),
            decreases data@.len() - j,
        {
            r.push(data[j]);
            j = j + 1;
            assert(r@ =~= before + data@.take(j as int));
        }
        assert(data@.take(data@.len() as int) =~= data@);
        i = i + 1;
    }
    r
}

/// Hides piece `chunk` of `message`, and its terminator, after the header of
/// the copies of its image that the plan names.
pub fn encode_piece(message: &Vec<u8>, images: &Vec<Vec<u8>>, chunk: Chunk) -> (r: Vec<u8>)
    requires
        chunk_ok(views(images@), message@.len() as int, chunk@),
    ensures
        embeds(
            r@,
            repeated(views(images@)[chunk.image as int], chunk.copies as int),
            message@.subrange(chunk.start as int, chunk.end as int),
            image_offset(views(images@)[chunk.image as int]),
        ),
{
    let ghost imgs = views(images@);
    let img = &images[chunk.image];
    assert(img@ == imgs[chunk.image as int]);
    let h: PPMHeader = match get_header(img) {
        Ok(h) => h,
        Err(_) => {
            return Vec::new();
        },
    };
    let piece = copy_range(message.as_slice(), chunk.start, chunk.end);
    let mut data = repeat_bytes(img.as_slice(), chunk.copies);
    proof {
        lemma_repeated(img@, chunk.copies as int);
    }
    encode(piece.as_slice(), &mut data, &h);
    data
}

/// `outputs` are the images that hiding `message` in `imgs` makes, numbered
/// in order: each is its piece of the message hidden after the header of the
/// copies of its source image.
pub open spec fn encodes(outputs: Seq<Seq<u8>>, message: Seq<u8>, imgs: Seq<Seq<u8>>) -> bool {
    let plan = plan_chunks(imgs, message.len() as int);
    &&& outputs.len() == plan.len()
    &&& forall|c: int|
        0 <= c < plan.len() ==> embeds(
            #[trigger] outputs[c],
            repeated(imgs[plan[c].0], plan[c].3),
            message.subrange(plan[c].1, plan[c].2),
            image_offset(imgs[plan[c].0]),
        )
}

/// Hides `message` in copies of `images`: one output image per piece of the
/// plan, in order (the output image `c` is to be numbered `c`).
pub fn encode_directory(message: &Vec<u8>, images: &Vec<Vec<u8>>) -> (r: Vec<Vec<u8>>)
    requires
        encode_admissible(views(images@), message@.len() as int),
    ensures
        encodes(views(r@), message@, views(images@)),
{
    let ghost imgs = views(images@);
    let ghost max = message@.len() as int;
    let plan = match plan_encoding(message.len(), images) {
        Some(p) => p,
        None => {
            return Vec::new();
        },
    };
    proof {
        lemma_plan_partitions_message(imgs, max);
    }
    let ghost spec_plan = plan_chunks(imgs, max);
    let mut outputs: Vec<Vec<u8>> = Vec::new();
    let mut c: usize = 0;
    while c < plan.len()
        invariant
            imgs == views(images@),
            max == message@.len(),
            spec_plan == plan_chunks(imgs, max),
            chunks_view(plan@) == spec_plan,
            forall|c2: int| 0 <= c2 < spec_plan.len() ==> chunk_ok(imgs, max, #[trigger] spec_plan[c2]),
            c <= plan.len(),
            outputs@.len() == c,
            forall|c2: int|
                0 <= c2 < c ==> embeds(
                    #[trigger] outputs@[c2]@,
                    repeated(imgs[spec_plan[c2].0], spec_plan[c2].3),
                    message@.subrange(spec_plan[c2].1, spec_plan[c2].2),
                    image_offset(imgs[spec_plan[c2].0]),
                ),
        decreases plan.len() - c,
    {
        let ch = plan[c];
        assert(spec_plan[c as int] == ch@);
        let data = encode_piece(message, images, ch);
        let ghost old_outputs = outputs@;
        outputs.push(data);
        assert forall|c2: int| 0 <= c2 < c + 1 implies embeds(
            #[trigger] outputs@[c2]@,
            repeated(imgs[spec_plan[c2].0], spec_plan[c2].3),
            message@.subrange(spec_plan[c2].1, spec_plan[c2].2),
            image_offset(imgs[spec_plan[c2].0]),
        ) by {
            if c2 < c {
                assert(outputs@[c2] == old_outputs[c2]);
            }
        }
        c = c + 1;
    }
    outputs
}

/// The message that reading an image back gives: the hidden bytes after its
/// header, up to the first zero one.
pub open spec fn read_back(img: Seq<u8>) -> Option<Seq<u8>> {
    match spec_header(img) {
        Some((_, _, off)) => hidden_message(img.subrange(off, img.len() as int)),
        None => None,
    }
}

/// The pieces of `message` that `plan` names.
pub open spec fn pieces(message: Seq<u8>, plan: Seq<(int, int, int, int)>) -> Seq<Seq<u8>> {
    Seq::new(plan.len(), |c: int| message.subrange(plan[c].1, plan[c].2))
}

proof fn lemma_contiguous_rest(s: Seq<(int, int, int, int)>, b: int)
    requires
        contiguous(s, s[0].1, b),
        s.len() > 0,
    ensures
        contiguous(s.drop_first(), s[0].2, b),
{
    let rest = s.drop_first();
    if s.len() > 1 {
        assert(s[0].2 == s[1].1);
    }
    assert forall|c: int| 0 <= c < rest.len() implies #[trigger] rest[c].1 <= rest[c].2 && rest[c].1
        < b by {
        assert(rest[c] == s[c + 1]);
    }
    assert forall|c: int| 0 <= c < rest.len() - 1 implies #[trigger] rest[c].2 == rest[c + 1].1 by {
        assert(rest[c] == s[c + 1]);
        assert(rest[c + 1] == s[c + 2]);
    }
}

pub(crate) proof fn lemma_flatten_pieces(message: Seq<u8>, plan: Seq<(int, int, int, int)>, a: int, b: int)
    requires
        contiguous(plan, a, b),
        0 <= a <= b <= message.len(),
    ensures
        pieces(message, plan).flatten() == message.subrange(a, b),
    decreases plan.len(),
{
    let ps = pieces(message, plan);
    if plan.len() == 0 {
        assert(message.subrange(a, b) =~= Seq::<u8>::empty());
    } else {
        let rest = plan.drop_first();
        let e = plan[0].2;
        lemma_contiguous_rest(plan, b);
        assert(e <= b) by {
            if plan.len() > 1 {
                assert(rest[0].1 == e && rest[0].1 < b);
            }
        }
        lemma_flatten_pieces(message, rest, e, b);
        assert(ps.drop_first() =~= pieces(message, rest));
        assert(message.subrange(a, b) =~= message.subrange(a, e) + message.subrange(e, b));
    }
}

/// Reading back the images that hiding a message makes, in the order they
/// are numbered, gives the message again, when it holds no zero byte; each
/// of them keeps the header of its source image.
pub proof fn lemma_encode_directory_roundtrip(
    message: Seq<u8>,
    imgs: Seq<Seq<u8>>,
    outputs: Seq<Seq<u8>>,
)
    requires
        encode_admissible(imgs, message.len() as int),
        encodes(outputs, message, imgs),
        forall|i: int| 0 <= i < message.len() ==> #[trigger] message[i] != 0,
    ensures
        forall|c: int|
            0 <= c < outputs.len() ==> spec_header(#[trigger] outputs[c]) == spec_header(
                imgs[plan_chunks(imgs, message.len() as int)[c].0],
            ),
        forall|c: int|
            0 <= c < outputs.len() ==> #[trigger] read_back(outputs[c]) == Some(
                pieces(message, plan_chunks(imgs, message.len() as int))[c],
            ),
        Seq::new(outputs.len(), |c: int| read_back(outputs[c]).unwrap()).flatten() == message,
{
    let max = message.len() as int;
    let plan = plan_chunks(imgs, max);
    lemma_plan_partitions_message(imgs, max);
    assert forall|c: int| 0 <= c < outputs.len() implies spec_header(#[trigger] outputs[c])
        == spec_header(imgs[plan[c].0]) && read_back(outputs[c]) == Some(
        pieces(message, plan)[c],
    ) by {
        let ch = plan[c];
        assert(chunk_ok(imgs, max, ch));
        let src = imgs[ch.0];
        let data = repeated(src, ch.3);
        let piece = message.subrange(ch.1, ch.2);
        let off = image_offset(src);
        lemma_repeated(src, ch.3);
        lemma_header_offset_in_bounds(src);
        assert(embeds(outputs[c], data, piece, off));
        assert forall|m: int| 0 <= m < off implies #[trigger] outputs[c][m] == src[m] by {
            assert(0 <= m < data.len() && !(off <= m < off + 8 * (piece.len() + 1)));
            assert(data[m] == src[m]);
        }
        lemma_header_depends_on_prefix(src, outputs[c]);
        assert forall|i: int| 0 <= i < piece.len() implies #[trigger] piece[i] != 0 by {
            assert(piece[i] == message[ch.1 + i]);
        }
        lemma_hidden_message_of_embedding(outputs[c], data, piece, off);
    }
    lemma_flatten_pieces(message, plan, 0, max);
    assert(Seq::new(outputs.len(), |c: int| read_back(outputs[c]).unwrap()) =~= pieces(message, plan));
    assert(message.subrange(0, max) =~= message);
}

proof fn lemma_plan_skips_unreadable(imgs: Seq<Seq<u8>>, max: int, i: int, j: int)
    requires
        0 <= i <= j < imgs.len(),
        0 < max,
        forall|k: int| 0 <= k < j ==> #[trigger] spec_header(imgs[k]) is None,
    ensures
        plan_from(imgs, max, i, 0, None) == plan_from(imgs, max, j, 0, None),
    decreases j - i,
{
    if i < j {
        assert(spec_header(imgs[i]) is None);
        lemma_plan_skips_unreadable(imgs, max, i + 1, j);
    }
}

/// The first piece of a message goes into the first image whose header can be
/// read, P3 or P6, from the start of the message up to the number of bytes a
/// bit per pixel carries, less one for the terminator: images whose header
/// cannot be read before it are skipped.
pub proof fn lemma_plan_takes_first_readable(imgs: Seq<Seq<u8>>, max: int, j: int)
    requires
        0 <= j < imgs.len(),
        0 < max,
        forall|k: int| 0 <= k < j ==> #[trigger] spec_header(imgs[k]) is None,
        spec_header(imgs[j]) is Some,
    ensures
        plan_chunks(imgs, max).len() >= 1,
        plan_chunks(imgs, max)[0] == ({
            let (w, h, _) = spec_header(imgs[j]).unwrap();
            let cap = (w * h) as int / 8;
            (j, 0int, if cap - 1 < max { cap - 1 } else { max }, 1int)
        }),
{
    lemma_plan_skips_unreadable(imgs, max, 0, j);
}

proof fn lemma_cover_skips_unreadable(imgs: Seq<Seq<u8>>, max: int, i: int, j: int)
    requires
        0 <= i <= j < imgs.len(),
        0 < max,
        forall|k: int|
            0 <= k < j ==> #[trigger] spec_header(imgs[k]) is None && header_admissible(imgs[k]),
    ensures
        admissible_from(imgs, max, i, 0, None) == admissible_from(imgs, max, j, 0, None),
        first_pass_reaches(imgs, max, i, 0) == first_pass_reaches(imgs, max, j, 0),
    decreases j - i,
{
    if i < j {
        assert(spec_header(imgs[i]) is None && header_admissible(imgs[i]));
        lemma_cover_skips_unreadable(imgs, max, i + 1, j);
    }
}

/// When the first image whose header can be read, P3 or P6, has room for the
/// whole message and its terminator, it carries all of it, and the images
/// after it are never looked at.
pub proof fn lemma_first_readable_covers(imgs: Seq<Seq<u8>>, max: int, j: int)
    requires
        0 <= j < imgs.len(),
        0 < max,
        forall|k: int|
            0 <= k < j ==> #[trigger] spec_header(imgs[k]) is None && header_admissible(imgs[k]),
        spec_header(imgs[j]) is Some,
        header_admissible(imgs[j]),
        imgs[j].len() <= usize::MAX,
        ({
            let (w, h, off) = spec_header(imgs[j]).unwrap();
            &&& w * h <= usize::MAX
            &&& (w * h) as int / 8 - 1 >= max
            &&& fits(imgs[j].len() as int, max, off)
        }),
    ensures
        covers_message(imgs, max),
{
    lemma_cover_skips_unreadable(imgs, max, 0, j);
    let img = imgs[j];
    let cap = image_capacity(img);
    assert(pixel_count(img) <= usize::MAX);
    assert(cap <= pixel_count(img));
    assert(step_end(0, cap, max) == max);
    assert(1 * img.len() == img.len());
    assert(chunk_admissible(img, 0, max, 1));
    assert(admissible_from(imgs, max, j + 1, max, Some(j)));
    assert(first_pass_reaches(imgs, max, j + 1, max));
}

proof fn lemma_mul_step(c: int, q: int)
    by (nonlinear_arith)
    ensures
        (c - 1) * q + q == c * q,
        c * q + q == (c + 1) * q,
{
}

proof fn lemma_repeat_chunks_shape(l: int, cap: int, p: int, max: int, t: int)
    requires
        cap >= 2,
    ensures
        forall|c: int|
            0 <= c < repeat_chunks(l, cap, p, max, t).len() ==> #[trigger] repeat_chunks(
                l,
                cap,
                p,
                max,
                t,
            )[c] == (
                l,
                p + c * (cap - 1),
                if p + (c + 1) * (cap - 1) < max {
                    p + (c + 1) * (cap - 1)
                } else {
                    max
                },
                t + c + 1,
            ),
    decreases max - p,
{
    let all = repeat_chunks(l, cap, p, max, t);
    if p < max {
        let e = step_end(p, cap, max);
        lemma_repeat_chunks_shape(l, cap, e, max, t + 1);
        let rest = repeat_chunks(l, cap, e, max, t + 1);
        assert(all =~= seq![(l, p, e, t + 1)] + rest);
        assert forall|c: int| 0 <= c < all.len() implies #[trigger] all[c] == (
            l,
            p + c * (cap - 1),
            if p + (c + 1) * (cap - 1) < max {
                p + (c + 1) * (cap - 1)
            } else {
                max
            },
            t + c + 1,
        ) by {
            lemma_mul_step(c, cap - 1);
            if c > 0 {
                assert(all[c] == rest[c - 1]);
                assert(e < max);
                assert(e == p + (cap - 1));
                lemma_mul_step(c - 1, cap - 1);
            } else {
                assert(0 * (cap - 1) == 0 && 1 * (cap - 1) == cap - 1) by (nonlinear_arith);
            }
        }
    }
}

/// With a single image that carries at least one message byte, piece `c`
/// starts where `c` images' worth of message bytes end and goes into `c`
/// copies of the image (one for the first two pieces): the image is read
/// again onto what was read before for every piece after the first.
pub proof fn lemma_plan_single_image(img: Seq<u8>, max: int)
    requires
        spec_header(img) is Some,
        image_capacity(img) >= 2,
    ensures
        forall|c: int|
            0 <= c < plan_chunks(seq![img], max).len() ==> #[trigger] plan_chunks(seq![img], max)[c]
                == (
                0int,
                c * (image_capacity(img) - 1),
                if (c + 1) * (image_capacity(img) - 1) < max {
                    (c + 1) * (image_capacity(img) - 1)
                } else {
                    max
                },
                if c == 0 {
                    1int
                } else {
                    c
                },
            ),
{
    let imgs = seq![img];
    let cap = image_capacity(img);
    let q = cap - 1;
    let all = plan_chunks(imgs, max);
    if 0 < max {
        let e = step_end(0, cap, max);
        assert(imgs[0] == img);
        let rest = plan_from(imgs, max, 1, e, Some(0));
        assert(all =~= seq![(0int, 0int, e, 1int)] + rest);
        assert(rest == repeat_chunks(0, cap, e, max, 0));
        lemma_repeat_chunks_shape(0, cap, e, max, 0);
        assert forall|c: int| 0 <= c < all.len() implies #[trigger] all[c] == (
            0int,
            c * q,
            if (c + 1) * q < max {
                (c + 1) * q
            } else {
                max
            },
            if c == 0 {
                1int
            } else {
                c
            },
        ) by {
            lemma_mul_step(c, q);
            if c > 0 {
                assert(all[c] == rest[c - 1]);
                assert(e < max);
                lemma_mul_step(c - 1, q);
                assert((c - 1) * q + q == c * q);
            } else {
                assert(0 * q == 0 && 1 * q == q) by (nonlinear_arith);
            }
        }
    }
}

} // verus!
