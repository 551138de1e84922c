//! The header of a PPM image: `P3` or `P6`, then width, height and the
//! maximal colour value, each a run of decimal digits ended by whitespace.
use vstd::prelude::*;
use crate::names::{decimal, lemma_decimal_value};

verus! {

/// Why an image was refused.
#[derive(Debug, PartialEq, Eq, Structural)]
pub enum PPMerr {
    InvalidHeader,
}

/// What the header says: the image's size, and where its pixel data starts.
#[derive(Debug, PartialEq, Eq, Structural)]
pub struct PPMHeader {
    pub width: usize,
    pub height: usize,
    /// Index of the first byte after the header.
    pub offset: usize,
}

/// The bytes that `u8::is_ascii_whitespace` accepts: space, tab, line feed,
/// form feed and carriage return.
pub open spec fn is_ws(b: u8) -> bool {
    b == 0x20 || b == 0x09 || b == 0x0A || b == 0x0C || b == 0x0D
}

/// An ASCII decimal digit.
pub open spec fn is_digit(b: u8) -> bool {
    0x30 <= b <= 0x39
}

/// Reading a field from `i`: the index of the whitespace byte that ends it,
/// if every byte before it is a digit; `None` if a byte that is neither comes
/// first or the input ends.
pub open spec fn field_end(s: Seq<u8>, i: int) -> Option<int>
    decreases s.len() - i,
{
    if i < 0 || i >= s.len() {
        None
    } else if is_ws(s[i]) {
        Some(i)
    } else if !is_digit(s[i]) {
        None
    } else {
        field_end(s, i + 1)
    }
}

/// The decimal value of the digits `s[i..j]`.
pub open spec fn digits_value(s: Seq<u8>, i: int, j: int) -> nat
    decreases j - i,
{
    if j <= i {
        0
    } else {
        (digits_value(s, i, j - 1) * 10 + (s[j - 1] - 0x30)) as nat
    }
}

/// The end of the run of digits that starts at `i`.
pub open spec fn digit_run_end(s: Seq<u8>, i: int) -> int
    decreases s.len() - i,
{
    if i < 0 || i >= s.len() || !is_digit(s[i]) {
        i
    } else {
        digit_run_end(s, i + 1)
    }
}

/// The digits that a reading of the field at `i` accumulates fit in a `usize`.
pub open spec fn field_fits(s: Seq<u8>, i: int) -> bool {
    digits_value(s, i, digit_run_end(s, i)) <= usize::MAX
}

/// The magic number: `P3` or `P6`.
pub open spec fn has_magic(s: Seq<u8>) -> bool {
    s.len() >= 2 && s[0] == 0x50 && (s[1] == 0x33 || s[1] == 0x36)
}

/// The header of `s`, as (width, height, offset of the pixel data).
/// The byte after the magic number is skipped unread, and the single byte
/// after each field too.
pub open spec fn spec_header(s: Seq<u8>) -> Option<(nat, nat, int)> {
    if !has_magic(s) {
        None
    } else {
        match field_end(s, 3) {
            None => None,
            Some(e1) => match field_end(s, e1 + 1) {
                None => None,
                Some(e2) => match field_end(s, e2 + 1) {
                    None => None,
                    Some(e3) => Some((digits_value(s, 3, e1), digits_value(s, e1 + 1, e2), e3 + 1)),
                },
            },
        }
    }
}

/// The inputs on which reading a header neither indexes an empty buffer
/// nor overflows while accumulating the width or the height.
pub open spec fn header_admissible(s: Seq<u8>) -> bool {
    &&& s.len() >= 1
    &&& s[0] == 0x50 ==> s.len() >= 2
    &&& has_magic(s) ==> {
        &&& field_fits(s, 3)
        &&& (field_end(s, 3) matches Some(e1) ==> field_fits(s, e1 + 1))
    }
}

/// `u8::is_ascii_whitespace`.
pub fn is_ascii_whitespace(b: u8) -> (r: bool)
    ensures
        r == is_ws(b),
{
    b == 0x20 || b == 0x09 || b == 0x0A || b == 0x0C || b == 0x0D
}

/// Appending a digit does not decrease the value of a run of digits.
proof fn lemma_digits_value_mono(s: Seq<u8>, i: int, j: int, k: int)
    requires
        i <= j <= k,
        forall|m: int| j <= m < k ==> is_digit(#[trigger] s[m]),
    ensures
        digits_value(s, i, j) <= digits_value(s, i, k),
    decreases k - j,
{
    if j < k {
        lemma_digits_value_mono(s, i, j, k - 1);
    }
}

/// Every byte of a run of digits is a digit.
proof fn lemma_digit_run(s: Seq<u8>, i: int)
    requires
        0 <= i,
    ensures
        i <= digit_run_end(s, i) <= if i <= s.len() { s.len() as int } else { i },
        forall|m: int| i <= m < digit_run_end(s, i) ==> is_digit(#[trigger] s[m]),
    decreases s.len() - i,
{
    if i < s.len() && is_digit(s[i]) {
        lemma_digit_run(s, i + 1);
    }
}

/// Reads the field at `start`: its value and the index of the whitespace that ends it.
fn read_field(buffer: &Vec<u8>, start: usize) -> (r: Option<(usize, usize)>)
    requires
        start < buffer.len(),
        field_fits(buffer@, start as int),
    ensures
        match r {
            Some((v, e)) => {
                &&& start <= e < buffer.len()
                &&& field_end(buffer@, start as int) == Some(e as int)
                &&& v == digits_value(buffer@, start as int, e as int)
            },
            None => field_end(buffer@, start as int) is None,
        },
{
    let ghost s = buffer@;
    let max_size = buffer.len();
    let mut offset = start;
    let mut value: usize = 0;
    proof {
        lemma_digit_run(s, start as int);
    }
    while !is_ascii_whitespace(buffer[offset])
        invariant
            s == buffer@,
            max_size == buffer.len(),
            start <= offset < max_size,
            forall|m: int| start <= m < offset ==> is_digit(#[trigger] s[m]),
            value == digits_value(s, start as int, offset as int),
            field_end(s, start as int) == field_end(s, offset as int),
            digit_run_end(s, start as int) == digit_run_end(s, offset as int),
            field_fits(s, start as int),
            start <= digit_run_end(s, start as int),
            forall|m: int| start <= m < digit_run_end(s, start as int) ==> is_digit(#[trigger] s[m]),
        decreases max_size - offset,
    {
        let b = buffer[offset];
        if b < 0x30 || b > 0x39 {
            return None;
        }
        proof {
            lemma_digit_run(s, offset + 1);
            lemma_digits_value_mono(s, start as int, offset + 1, digit_run_end(s, start as int));
        }
        value = value * 10 + (b - 0x30) as usize;
        offset = offset + 1;
        if offset == max_size {
            return None;
        }
    }
    Some((value, offset))
}

/// Skips the field at `start`, returning the index of the whitespace that ends it.
fn skip_field(buffer: &Vec<u8>, start: usize) -> (r: Option<usize>)
    requires
        start < buffer.len(),
    ensures
        match r {
            Some(e) => start <= e < buffer.len() && field_end(buffer@, start as int) == Some(
                e as int,
            ),
            None => field_end(buffer@, start as int) is None,
        },
{
    let ghost s = buffer@;
    let max_size = buffer.len();
    let mut offset = start;
    while !is_ascii_whitespace(buffer[offset])
        invariant
            s == buffer@,
            max_size == buffer.len(),
            start <= offset < max_size,
            field_end(s, start as int) == field_end(s, offset as int),
        decreases max_size - offset,
    {
        let b = buffer[offset];
        if b < 0x30 || b > 0x39 {
            return None;
        }
        offset = offset + 1;
        if offset == max_size {
            return None;
        }
    }
    Some(offset)
}

/// Reads the header of a PPM image.
pub fn get_header(buffer: &Vec<u8>) -> (r: Result<PPMHeader, PPMerr>)
    requires
        header_admissible(buffer@),
    ensures
        match r {
            Ok(h) => spec_header(buffer@) == Some((h.width as nat, h.height as nat, h.offset as int)),
            Err(PPMerr::InvalidHeader) => spec_header(buffer@) is None,
        },
{
    let max_size = buffer.len();
    if buffer[0] != 0x50 {
        return Err(PPMerr::InvalidHeader);
    } else if buffer[1] != 0x33 && buffer[1] != 0x36 {
        return Err(PPMerr::InvalidHeader);
    }
    let mut offset: usize = 3;
    if offset >= max_size {
        return Err(PPMerr::InvalidHeader);
    }
    let (width, e1) = match read_field(buffer, offset) {
        Some(p) => p,
        None => return Err(PPMerr::InvalidHeader),
    };
    offset = e1 + 1;
    if offset == max_size {
        return Err(PPMerr::InvalidHeader);
    }
    let (height, e2) = match read_field(buffer, offset) {
        Some(p) => p,
        None => return Err(PPMerr::InvalidHeader),
    };
    offset = e2 + 1;
    if offset == max_size {
        return Err(PPMerr::InvalidHeader);
    }
    let e3 = match skip_field(buffer, offset) {
        Some(e) => e,
        None => return Err(PPMerr::InvalidHeader),
    };
    offset = e3 + 1;
    Ok(PPMHeader { width, height, offset })
}


/// Whether the digits that a reading of the field at `start` accumulates fit in a `usize`.
fn field_value_fits(buffer: &Vec<u8>, start: usize) -> (r: bool)
    ensures
        r == field_fits(buffer@, start as int),
{
    let ghost s = buffer@;
    let len = buffer.len();
    let mut offset = start;
    let mut value: usize = 0;
    proof {
        lemma_digit_run(s, start as int);
    }
    while offset < len && 0x30 <= buffer[offset] && buffer[offset] <= 0x39
        invariant
            s == buffer@,
            len == buffer.len(),
            start <= offset,
            start < len ==> offset <= len,
            start >= len ==> offset == start,
            forall|m: int| start <= m < offset ==> is_digit(#[trigger] s[m]),
            value == digits_value(s, start as int, offset as int),
            digit_run_end(s, start as int) == digit_run_end(s, offset as int),
            start <= digit_run_end(s, start as int),
            forall|m: int| start <= m < digit_run_end(s, start as int) ==> is_digit(#[trigger] s[m]),
        decreases len - offset,
    {
        let d = (buffer[offset] - 0x30) as usize;
        proof {
            lemma_digit_run(s, offset + 1);
            lemma_digits_value_mono(s, start as int, offset + 1, digit_run_end(s, start as int));
        }
        match value.checked_mul(10) {
            None => {
                return false;
            },
            Some(v10) => match v10.checked_add(d) {
                None => {
                    return false;
                },
                Some(v) => {
                    value = v;
                },
            },
        }
        offset = offset + 1;
    }
    true
}

/// Whether `get_header` can read `buffer`: see `header_admissible`.
pub fn header_is_admissible(buffer: &Vec<u8>) -> (r: bool)
    ensures
        r == header_admissible(buffer@),
{
    let len = buffer.len();
    if len == 0 {
        return false;
    }
    if buffer[0] == 0x50 && len < 2 {
        return false;
    }
    if len >= 2 && buffer[0] == 0x50 && (buffer[1] == 0x33 || buffer[1] == 0x36) {
        if !field_value_fits(buffer, 3) {
            return false;
        }
        if 3 < len {
            match skip_field(buffer, 3) {
                Some(e1) => {
                    if !field_value_fits(buffer, e1 + 1) {
                        return false;
                    }
                },
                None => {},
            }
        }
    }
    true
}

/// Digits read the same from two inputs that agree on them.
pub proof fn lemma_digits_value_agree(s: Seq<u8>, t: Seq<u8>, i: int, j: int)
    requires
        forall|m: int| i <= m < j ==> #[trigger] t[m] == s[m],
    ensures
        digits_value(t, i, j) == digits_value(s, i, j),
    decreases j - i,
{
    if i < j {
        lemma_digits_value_agree(s, t, i, j - 1);
    }
}

proof fn lemma_field_end_bounds(s: Seq<u8>, i: int)
    requires
        field_end(s, i) is Some,
    ensures
        i <= field_end(s, i).unwrap() < s.len(),
        is_ws(s[field_end(s, i).unwrap()]),
    decreases s.len() - i,
{
    if !is_ws(s[i]) {
        lemma_field_end_bounds(s, i + 1);
    }
}

/// A field reads the same from any input that agrees on its bytes.
proof fn lemma_field_agree(s: Seq<u8>, t: Seq<u8>, i: int, e: int)
    requires
        0 <= i,
        field_end(s, i) == Some(e),
        e < t.len(),
        forall|m: int| i <= m <= e ==> #[trigger] t[m] == s[m],
    ensures
        i <= e < s.len(),
        is_ws(s[e]),
        field_end(t, i) == Some(e),
        digit_run_end(s, i) == e,
        digit_run_end(t, i) == e,
        digits_value(t, i, e) == digits_value(s, i, e),
    decreases e - i,
{
    lemma_field_end_bounds(s, i);
    if !is_ws(s[i]) {
        lemma_field_agree(s, t, i + 1, e);
    }
    lemma_digits_value_agree(s, t, i, e);
}

/// The header of an image depends only on the bytes before its pixel data:
/// any input that keeps them has the same header, and can be read as well.
pub proof fn lemma_header_depends_on_prefix(s: Seq<u8>, t: Seq<u8>)
    requires
        spec_header(s) is Some,
        spec_header(s).unwrap().2 <= t.len(),
        forall|m: int| 0 <= m < spec_header(s).unwrap().2 ==> #[trigger] t[m] == s[m],
    ensures
        spec_header(t) == spec_header(s),
        header_admissible(s) ==> header_admissible(t),
{
    let e1 = field_end(s, 3).unwrap();
    lemma_field_end_bounds(s, 3);
    let e2 = field_end(s, e1 + 1).unwrap();
    lemma_field_end_bounds(s, e1 + 1);
    let e3 = field_end(s, e2 + 1).unwrap();
    lemma_field_end_bounds(s, e2 + 1);
    lemma_field_agree(s, t, 3, e1);
    lemma_field_agree(s, t, e1 + 1, e2);
    lemma_field_agree(s, t, e2 + 1, e3);
    assert(t[0] == s[0] && t[1] == s[1]);
}

/// The pixel data of an image starts within it, after the header.
pub proof fn lemma_header_offset_in_bounds(s: Seq<u8>)
    requires
        spec_header(s) is Some,
    ensures
        4 <= spec_header(s).unwrap().2 <= s.len(),
{
    let e1 = field_end(s, 3).unwrap();
    lemma_field_end_bounds(s, 3);
    let e2 = field_end(s, e1 + 1).unwrap();
    lemma_field_end_bounds(s, e1 + 1);
    lemma_field_end_bounds(s, e2 + 1);
}

proof fn lemma_digits_value_shift(s: Seq<u8>, d: Seq<u8>, i: int, k: int)
    requires
        0 <= k <= d.len(),
        forall|m: int| 0 <= m < k ==> #[trigger] d[m] == s[i + m],
    ensures
        digits_value(s, i, i + k) == digits_value(d, 0, k),
    decreases k,
{
    if k > 0 {
        lemma_digits_value_shift(s, d, i, k - 1);
        assert(s[i + k - 1] == d[k - 1]);
    }
}

/// A run of digits `d` at `i` in `s`, ended by whitespace, is a field that
/// reads as the value of `d`.
proof fn lemma_digit_field(s: Seq<u8>, i: int, d: Seq<u8>)
    requires
        0 <= i,
        i + d.len() < s.len(),
        forall|m: int| 0 <= m < d.len() ==> #[trigger] s[i + m] == d[m],
        forall|m: int| 0 <= m < d.len() ==> 0x30 <= #[trigger] d[m] <= 0x39,
        is_ws(s[i + d.len()]),
    ensures
        field_end(s, i) == Some(i + d.len()),
        digit_run_end(s, i) == i + d.len(),
        digits_value(s, i, i + d.len()) == digits_value(d, 0, d.len() as int),
    decreases d.len(),
{
    if d.len() > 0 {
        let rest = d.drop_first();
        assert(s[i + 0] == d[0]);
        assert forall|m: int| 0 <= m < rest.len() implies #[trigger] s[(i + 1) + m] == rest[m] by {
            assert(s[i + (m + 1)] == d[m + 1]);
        }
        assert forall|m: int| 0 <= m < rest.len() implies 0x30 <= #[trigger] rest[m] <= 0x39 by {
            assert(rest[m] == d[m + 1]);
        }
        lemma_digit_field(s, i + 1, rest);
    }
    lemma_digits_value_shift(s, d, i, d.len() as int);
}

/// The bytes of a header written as `P`, the kind `m`, any byte `x`, then
/// the digits `width`, `height` and `maxval`, each followed by a whitespace
/// byte, then the pixel data.
pub open spec fn written_header(
    m: u8,
    x: u8,
    width: Seq<u8>,
    s1: u8,
    height: Seq<u8>,
    s2: u8,
    maxval: Seq<u8>,
    s3: u8,
    pixels: Seq<u8>,
) -> Seq<u8> {
    seq![0x50u8, m, x] + width + seq![s1] + height + seq![s2] + maxval + seq![s3] + pixels
}

/// One of the five bytes that `u8::is_ascii_whitespace` accepts.
pub open spec fn ascii_space(b: u8) -> bool {
    b == 0x20 || b == 0x09 || b == 0x0A || b == 0x0C || b == 0x0D
}

/// What a written header reads as.
proof fn lemma_written_header(
    m: u8,
    x: u8,
    width: Seq<u8>,
    s1: u8,
    height: Seq<u8>,
    s2: u8,
    maxval: Seq<u8>,
    s3: u8,
    pixels: Seq<u8>,
)
    requires
        ascii_space(s1),
        ascii_space(s2),
        ascii_space(s3),
        forall|k: int| 0 <= k < width.len() ==> 0x30 <= #[trigger] width[k] <= 0x39,
        forall|k: int| 0 <= k < height.len() ==> 0x30 <= #[trigger] height[k] <= 0x39,
        forall|k: int| 0 <= k < maxval.len() ==> 0x30 <= #[trigger] maxval[k] <= 0x39,
    ensures
        spec_header(written_header(m, x, width, s1, height, s2, maxval, s3, pixels)) == if m == 0x33
            || m == 0x36 {
            Some(
                (
                    digits_value(width, 0, width.len() as int),
                    digits_value(height, 0, height.len() as int),
                    (6 + width.len() + height.len() + maxval.len()) as int,
                ),
            )
        } else {
            None
        },
        header_admissible(written_header(m, x, width, s1, height, s2, maxval, s3, pixels)) == (!(m
            == 0x33 || m == 0x36) || (digits_value(width, 0, width.len() as int) <= usize::MAX
            && digits_value(height, 0, height.len() as int) <= usize::MAX)),
{
    let s = written_header(m, x, width, s1, height, s2, maxval, s3, pixels);
    let e1: int = 3 + width.len() as int;
    let e2: int = e1 + 1 + height.len() as int;
    let e3: int = e2 + 1 + maxval.len() as int;
    assert(s.len() == e3 + 1 + pixels.len());
    assert(s[0] == 0x50 && s[1] == m);
    assert forall|k: int| 0 <= k < width.len() implies #[trigger] s[3 + k] == width[k] by {}
    assert(s[e1] == s1);
    lemma_digit_field(s, 3, width);
    assert forall|k: int| 0 <= k < height.len() implies #[trigger] s[(e1 + 1) + k] == height[k] by {}
    assert(s[e2] == s2);
    lemma_digit_field(s, e1 + 1, height);
    assert forall|k: int| 0 <= k < maxval.len() implies #[trigger] s[(e2 + 1) + k] == maxval[k] by {}
    assert(s[e3] == s3);
    lemma_digit_field(s, e2 + 1, maxval);
}

/// Every header written with `P3` or `P6`, decimal width and height that fit
/// in a `usize`, and any digits for the maximal colour value, can be read, and
/// reads back as that width and height, with the pixel data right after the
/// whitespace byte that ends the maximal colour value.
pub proof fn lemma_header_reads_written_numbers(
    m: u8,
    x: u8,
    width: Seq<u8>,
    s1: u8,
    height: Seq<u8>,
    s2: u8,
    maxval: Seq<u8>,
    s3: u8,
    pixels: Seq<u8>,
)
    requires
        m == 0x33 || m == 0x36,
        ascii_space(s1),
        ascii_space(s2),
        ascii_space(s3),
        forall|k: int| 0 <= k < width.len() ==> 0x30 <= #[trigger] width[k] <= 0x39,
        forall|k: int| 0 <= k < height.len() ==> 0x30 <= #[trigger] height[k] <= 0x39,
        forall|k: int| 0 <= k < maxval.len() ==> 0x30 <= #[trigger] maxval[k] <= 0x39,
        digits_value(width, 0, width.len() as int) <= usize::MAX,
        digits_value(height, 0, height.len() as int) <= usize::MAX,
    ensures
        header_admissible(written_header(m, x, width, s1, height, s2, maxval, s3, pixels)),
        spec_header(written_header(m, x, width, s1, height, s2, maxval, s3, pixels)) == Some(
            (
                digits_value(width, 0, width.len() as int),
                digits_value(height, 0, height.len() as int),
                (6 + width.len() + height.len() + maxval.len()) as int,
            ),
        ),
{
    lemma_written_header(m, x, width, s1, height, s2, maxval, s3, pixels);
}

/// Whether a header can be read, and what it says, does not depend on the
/// digits of its maximal colour value.
pub proof fn lemma_header_ignores_maxval(
    m: u8,
    x: u8,
    width: Seq<u8>,
    s1: u8,
    height: Seq<u8>,
    s2: u8,
    maxval: Seq<u8>,
    other: Seq<u8>,
    s3: u8,
    pixels: Seq<u8>,
)
    requires
        ascii_space(s1),
        ascii_space(s2),
        ascii_space(s3),
        forall|k: int| 0 <= k < width.len() ==> 0x30 <= #[trigger] width[k] <= 0x39,
        forall|k: int| 0 <= k < height.len() ==> 0x30 <= #[trigger] height[k] <= 0x39,
        forall|k: int| 0 <= k < maxval.len() ==> 0x30 <= #[trigger] maxval[k] <= 0x39,
        forall|k: int| 0 <= k < other.len() ==> 0x30 <= #[trigger] other[k] <= 0x39,
        maxval.len() == other.len(),
    ensures
        spec_header(written_header(m, x, width, s1, height, s2, maxval, s3, pixels)) == spec_header(
            written_header(m, x, width, s1, height, s2, other, s3, pixels),
        ),
        header_admissible(written_header(m, x, width, s1, height, s2, maxval, s3, pixels))
            == header_admissible(written_header(m, x, width, s1, height, s2, other, s3, pixels)),
{
    lemma_written_header(m, x, width, s1, height, s2, maxval, s3, pixels);
    lemma_written_header(m, x, width, s1, height, s2, other, s3, pixels);
}

/// A header written with the decimal digits of a width `w` and a height `h`
/// that fit in a `usize` reads back as `w` and `h`, for `P3` and `P6` alike,
/// whatever the maximal colour value; and it can be read.
pub proof fn lemma_header_reads_numbers(
    m: u8,
    x: u8,
    w: nat,
    s1: u8,
    h: nat,
    s2: u8,
    maxval: Seq<u8>,
    s3: u8,
    pixels: Seq<u8>,
)
    requires
        m == 0x33 || m == 0x36,
        ascii_space(s1),
        ascii_space(s2),
        ascii_space(s3),
        w <= usize::MAX,
        h <= usize::MAX,
        forall|k: int| 0 <= k < maxval.len() ==> 0x30 <= #[trigger] maxval[k] <= 0x39,
    ensures
        header_admissible(written_header(m, x, decimal(w, 0), s1, decimal(h, 0), s2, maxval, s3, pixels)),
        spec_header(written_header(m, x, decimal(w, 0), s1, decimal(h, 0), s2, maxval, s3, pixels))
            == Some((w, h, (6 + decimal(w, 0).len() + decimal(h, 0).len() + maxval.len()) as int)),
{
    lemma_decimal_value(w, 0);
    lemma_decimal_value(h, 0);
    lemma_header_reads_written_numbers(m, x, decimal(w, 0), s1, decimal(h, 0), s2, maxval, s3, pixels);
}

} // verus!
