//! Reading the message of a directory back: the text hidden in each image,
//! and the texts put together in the order of the images' names.
use vstd::prelude::*;
use vstd::multiset::Multiset;
use vstd::string::StringExecFns;
use vstd::utf8::{
    decode_utf8, encode_utf8, encode_utf8_decode_utf8, encode_utf8_valid_utf8, is_ascii_chars,
    is_ascii_chars_encode_utf8, valid_utf8,
};
use crate::header::PPMHeader;
use crate::stego::{get_hidden_message, hidden_message};

verus! {

broadcast use vstd::seq_lib::group_to_multiset_ensures;

/// `std::str::from_utf8`, the text taken as a `String`. Claimed of it: it
/// succeeds exactly on well-formed UTF-8 (as vstd's `valid_utf8` states it),
/// and the text is the characters that the bytes encode.
#[verifier::external_body]
pub(crate) fn utf8_to_string(bytes: &[u8]) -> (r: Option<String>)
    ensures
        r is Some <==> valid_utf8(bytes@),
        r matches Some(s) ==> s@ == decode_utf8(bytes@),
{
    match std::str::from_utf8(bytes) {
        Ok(s) => Some(String::from(s)),
        Err(_) => None,
    }
}

/// The bytes that an image hides after its header, or none when no zero
/// byte ends them.
pub open spec fn hidden_or_empty(data: Seq<u8>, offset: int) -> Seq<u8> {
    match hidden_message(data.subrange(offset, data.len() as int)) {
        Some(m) => m,
        None => Seq::empty(),
    }
}

/// The text hidden in an image; `None` when the hidden bytes are not UTF-8.
/// An image that hides nothing gives the empty text.
pub fn decode_file(header: &PPMHeader, data: &Vec<u8>) -> (r: Option<String>)
    requires
        header.offset <= data@.len(),
    ensures
        r is Some <==> valid_utf8(hidden_or_empty(data@, header.offset as int)),
        r matches Some(s) ==> s@ == decode_utf8(hidden_or_empty(data@, header.offset as int)),
{
    let mut message: Vec<u8> = Vec::new();
    let start = header.offset;
    let pixels = vstd::slice::slice_subrange(data.as_slice(), start, data.len());
    get_hidden_message(pixels, &mut message);
    assert(message@ =~= hidden_or_empty(data@, start as int));
    utf8_to_string(message.as_slice())
}

/// Byte-wise lexicographic order, the order of Rust's strings.
pub open spec fn bytes_le(x: Seq<u8>, y: Seq<u8>) -> bool
    decreases x.len(),
{
    if x.len() == 0 {
        true
    } else if y.len() == 0 {
        false
    } else if x[0] != y[0] {
        x[0] < y[0]
    } else {
        bytes_le(x.drop_first(), y.drop_first())
    }
}

/// The order of two names, by their UTF-8 bytes.
pub open spec fn name_le(a: String, b: String) -> bool {
    bytes_le(encode_utf8(a@), encode_utf8(b@))
}

/// The entries are in the order of their names.
pub open spec fn sorted_by_name(s: Seq<(String, String)>) -> bool {
    forall|i: int, j: int| 0 <= i < j < s.len() ==> name_le(#[trigger] s[i].0, #[trigger] s[j].0)
}

/// The texts of the entries.
pub open spec fn texts(s: Seq<(String, String)>) -> Seq<Seq<char>> {
    s.map_values(|e: (String, String)| e.1@)
}

proof fn lemma_bytes_le_total(x: Seq<u8>, y: Seq<u8>)
    ensures
        bytes_le(x, y) || bytes_le(y, x),
    decreases x.len(),
{
    if x.len() > 0 && y.len() > 0 && x[0] == y[0] {
        lemma_bytes_le_total(x.drop_first(), y.drop_first());
    }
}

proof fn lemma_bytes_le_transitive(x: Seq<u8>, y: Seq<u8>, z: Seq<u8>)
    requires
        bytes_le(x, y),
        bytes_le(y, z),
    ensures
        bytes_le(x, z),
    decreases x.len(),
{
    if x.len() > 0 && y.len() > 0 && z.len() > 0 && x[0] == y[0] && y[0] == z[0] {
        lemma_bytes_le_transitive(x.drop_first(), y.drop_first(), z.drop_first());
    }
}

/// Whether `a` comes before `b` or equals it, byte by byte.
fn bytes_le_exec(a: &[u8], b: &[u8]) -> (r: bool)
    ensures
        r == bytes_le(a@, b@),
{
    let mut i: usize = 0;
    assert(a@.skip(0) =~= a@);
    assert(b@.skip(0) =~= b@);
    while i < a.len() && i < b.len()
        invariant
            i <= a@.len(),
            i <= b@.len(),
            bytes_le(a@, b@) == bytes_le(a@.skip(i as int), b@.skip(i as int)),
        decreases a@.len() - i,
    {
        if a[i] < b[i] {
            return true;
        }
        if a[i] > b[i] {
            return false;
        }
        assert(a@.skip(i as int).drop_first() =~= a@.skip(i + 1));
        assert(b@.skip(i as int).drop_first() =~= b@.skip(i + 1));
        i = i + 1;
    }
    i == a.len()
}

/// Sorts the entries by name, byte by byte.
pub fn sort_by_name(entries: Vec<(String, String)>) -> (r: Vec<(String, String)>)
    ensures
        r@.to_multiset() == entries@.to_multiset(),
        sorted_by_name(r@),
{
    let mut rest = entries;
    let mut sorted: Vec<(String, String)> = Vec::new();
    while rest.len() > 0
        invariant
            sorted@.to_multiset().add(rest@.to_multiset()) == entries@.to_multiset(),
            sorted_by_name(sorted@),
        decreases rest@.len(),
    {
        let ghost old_rest = rest@;
        let e = rest.pop().unwrap();
        assert(old_rest =~= rest@.push(e));
        let mut pos: usize = 0;
        while pos < sorted.len() && bytes_le_exec(
            sorted[pos].0.as_str().as_bytes(),
            e.0.as_str().as_bytes(),
        )
            invariant
                pos <= sorted@.len(),
                forall|i: int| 0 <= i < pos ==> name_le(#[trigger] sorted@[i].0, e.0),
            decreases sorted@.len() - pos,
        {
            pos = pos + 1;
        }
        let ghost old_sorted = sorted@;
        sorted.insert(pos, e);
        assert forall|i: int, j: int| 0 <= i < j < sorted@.len() implies name_le(
            #[trigger] sorted@[i].0,
            #[trigger] sorted@[j].0,
        ) by {
            if j == pos {
                assert(sorted@[i] == old_sorted[i]);
            } else if i == pos {
                let b = old_sorted[j - 1].0;
                assert(sorted@[j] == old_sorted[j - 1]);
                lemma_bytes_le_total(encode_utf8(old_sorted[pos as int].0@), encode_utf8(e.0@));
                lemma_bytes_le_total(encode_utf8(e.0@), encode_utf8(old_sorted[pos as int].0@));
                if j - 1 > pos {
                    lemma_bytes_le_transitive(
                        encode_utf8(e.0@),
                        encode_utf8(old_sorted[pos as int].0@),
                        encode_utf8(b@),
                    );
                }
            } else {
                let ii = if i < pos {
                    i
                } else {
                    i - 1
                };
                let jj = if j < pos {
                    j
                } else {
                    j - 1
                };
                assert(sorted@[i] == old_sorted[ii]);
                assert(sorted@[j] == old_sorted[jj]);
            }
        }
        assert(sorted@.to_multiset() =~= old_sorted.to_multiset().insert(e));
        assert(old_rest.to_multiset() =~= rest@.to_multiset().insert(e));
    }
    assert(rest@ =~= Seq::<(String, String)>::empty());
    assert(rest@.to_multiset() =~= Multiset::empty());
    sorted
}

/// The texts of the entries, one after the other.
pub fn concat_texts(entries: &Vec<(String, String)>) -> (r: String)
    ensures
        r@ == texts(entries@).flatten(),
{
    let mut r = String::new();
    let mut i: usize = 0;
    while i < entries.len()
        invariant
            i <= entries@.len(),
            r@ == texts(entries@.take(i as int)).flatten(),
        decreases entries@.len() - i,
    {
        let ghost before = texts(entries@.take(i as int));
        r.append(entries[i].1.as_str());
        proof {
            assert(texts(entries@.take(i + 1)) =~= before.push(entries@[i as int].1@));
            before.lemma_flatten_push(entries@[i as int].1@);
        }
        i = i + 1;
    }
    assert(entries@.take(entries@.len() as int) =~= entries@);
    r
}

/// The message of a directory: the texts of the images, in the order of the
/// images' names.
pub fn assemble_message(entries: Vec<(String, String)>) -> (r: String)
    ensures
        exists|s: Seq<(String, String)>|
            s.to_multiset() == entries@.to_multiset() && sorted_by_name(s) && r@ == texts(
                s,
            ).flatten(),
{
    let sorted = sort_by_name(entries);
    let r = concat_texts(&sorted);
    assert(sorted@.to_multiset() == entries@.to_multiset() && sorted_by_name(sorted@) && r@ == texts(
        sorted@,
    ).flatten());
    r
}

proof fn lemma_bytes_le_antisymmetric(x: Seq<u8>, y: Seq<u8>)
    requires
        bytes_le(x, y),
        bytes_le(y, x),
    ensures
        x == y,
    decreases x.len(),
{
    if x.len() > 0 && y.len() > 0 {
        lemma_bytes_le_antisymmetric(x.drop_first(), y.drop_first());
        assert(x =~= seq![x[0]] + x.drop_first());
        assert(y =~= seq![y[0]] + y.drop_first());
    } else {
        assert(x =~= y);
    }
}

/// No two entries have the same name.
pub open spec fn distinct_names(s: Seq<(String, String)>) -> bool {
    forall|i: int, j: int| 0 <= i < j < s.len() ==> (#[trigger] s[i]).0@ != (#[trigger] s[j]).0@
}

proof fn lemma_same_name(a: String, b: String)
    requires
        name_le(a, b),
        name_le(b, a),
    ensures
        a@ == b@,
{
    lemma_bytes_le_antisymmetric(encode_utf8(a@), encode_utf8(b@));
    vstd::utf8::encode_utf8_decode_utf8(a@);
    vstd::utf8::encode_utf8_decode_utf8(b@);
}

/// Two orderings by name of the same entries, whose names all differ, are the
/// same: the message put together from their texts does not depend on the
/// order in which the entries come.
pub proof fn lemma_sorted_by_name_unique(s1: Seq<(String, String)>, s2: Seq<(String, String)>)
    requires
        s1.to_multiset() == s2.to_multiset(),
        sorted_by_name(s1),
        sorted_by_name(s2),
        distinct_names(s1),
    ensures
        s1 == s2,
        texts(s1).flatten() == texts(s2).flatten(),
    decreases s1.len(),
{
    if s1.len() == 0 {
        assert(s2.len() == s2.to_multiset().len());
        assert(s1 =~= s2);
    } else {
        let a = s1[0];
        assert(s1.contains(a));
        assert(s1.to_multiset().len() == s1.len());
        assert(s2.to_multiset().len() == s2.len());
        assert(s2.len() > 0);
        let b = s2[0];
        assert(s2.contains(b));
        assert(s1.to_multiset().count(a) > 0);
        assert(s2.contains(a));
        let k = choose|k: int| 0 <= k < s2.len() && s2[k] == a;
        assert(s1.to_multiset().count(b) > 0);
        assert(s1.contains(b));
        let m = choose|m: int| 0 <= m < s1.len() && s1[m] == b;
        if k > 0 {
            assert(name_le(s2[0].0, s2[k].0));
        }
        if m > 0 {
            assert(name_le(s1[0].0, s1[m].0));
        }
        if k > 0 && m > 0 {
            lemma_same_name(a.0, b.0);
            assert(s1[0].0@ != s1[m].0@);
        }
        assert(a == b);
        let r1 = s1.drop_first();
        let r2 = s2.drop_first();
        assert(s1.remove(0) =~= r1);
        assert(s2.remove(0) =~= r2);
        assert(r1.to_multiset() =~= r2.to_multiset());
        assert(sorted_by_name(r1)) by {
            assert forall|i: int, j: int| 0 <= i < j < r1.len() implies name_le(
                #[trigger] r1[i].0,
                #[trigger] r1[j].0,
            ) by {
                assert(r1[i] == s1[i + 1] && r1[j] == s1[j + 1]);
            }
        }
        assert(sorted_by_name(r2)) by {
            assert forall|i: int, j: int| 0 <= i < j < r2.len() implies name_le(
                #[trigger] r2[i].0,
                #[trigger] r2[j].0,
            ) by {
                assert(r2[i] == s2[i + 1] && r2[j] == s2[j + 1]);
            }
        }
        assert(distinct_names(r1)) by {
            assert forall|i: int, j: int| 0 <= i < j < r1.len() implies (#[trigger] r1[i]).0@ != (
            #[trigger] r1[j]).0@ by {
                assert(r1[i] == s1[i + 1] && r1[j] == s1[j + 1]);
            }
        }
        lemma_sorted_by_name_unique(r1, r2);
        assert forall|i: int| 0 <= i < s1.len() implies s1[i] == s2[i] by {
            if i > 0 {
                assert(s1[i] == r1[i - 1] && s2[i] == r2[i - 1]);
            }
        }
        assert(s1 =~= s2);
    }
}

/// Bytes below 128.
pub open spec fn is_ascii_bytes(b: Seq<u8>) -> bool {
    forall|i: int| 0 <= i < b.len() ==> #[trigger] b[i] < 128
}

/// ASCII bytes read as characters.
pub open spec fn ascii_text(b: Seq<u8>) -> Seq<char> {
    Seq::new(b.len(), |i: int| b[i] as char)
}

/// ASCII bytes are UTF-8, and encode the characters of the same codes.
pub proof fn lemma_ascii_utf8(b: Seq<u8>)
    requires
        is_ascii_bytes(b),
    ensures
        valid_utf8(b),
        decode_utf8(b) == ascii_text(b),
        encode_utf8(ascii_text(b)) == b,
{
    let c = ascii_text(b);
    assert(is_ascii_chars(c));
    is_ascii_chars_encode_utf8(c);
    assert(encode_utf8(c) =~= b);
    encode_utf8_valid_utf8(c);
    encode_utf8_decode_utf8(c);
}

/// Reading ASCII pieces as characters and putting them together is putting
/// them together and reading the whole as characters.
pub proof fn lemma_flatten_ascii(ps: Seq<Seq<u8>>)
    ensures
        Seq::new(ps.len(), |k: int| ascii_text(ps[k])).flatten() == ascii_text(ps.flatten()),
    decreases ps.len(),
{
    let q = Seq::new(ps.len(), |k: int| ascii_text(ps[k]));
    if ps.len() > 0 {
        let rest = ps.drop_first();
        lemma_flatten_ascii(rest);
        assert(q.drop_first() =~= Seq::new(rest.len(), |k: int| ascii_text(rest[k])));
        assert(ascii_text(ps.flatten()) =~= ascii_text(ps[0]) + ascii_text(rest.flatten()));
    } else {
        assert(ascii_text(ps.flatten()) =~= Seq::<char>::empty());
    }
}

/// Comparing two inputs that start with parts of equal length: the parts
/// decide when they differ, the rest when they agree.
pub proof fn lemma_bytes_le_concat(x: Seq<u8>, y: Seq<u8>, a: Seq<u8>, b: Seq<u8>)
    requires
        x.len() == y.len(),
    ensures
        bytes_le(x + a, y + b) == if x == y {
            bytes_le(a, b)
        } else {
            bytes_le(x, y)
        },
        x != y ==> x + a != y + b,
    decreases x.len(),
{
    if x.len() == 0 {
        assert(x =~= y);
        assert(x + a =~= a);
        assert(y + b =~= b);
    } else {
        assert((x + a)[0] == x[0] && (y + b)[0] == y[0]);
        if x != y {
            assert((x + a).subrange(0, x.len() as int) =~= x);
            assert((y + b).subrange(0, y.len() as int) =~= y);
        }
        if x[0] == y[0] {
            lemma_bytes_le_concat(x.drop_first(), y.drop_first(), a, b);
            assert((x + a).drop_first() =~= x.drop_first() + a);
            assert((y + b).drop_first() =~= y.drop_first() + b);
            if x.drop_first() == y.drop_first() {
                assert forall|i: int| 0 <= i < x.len() implies x[i] == y[i] by {
                    if i > 0 {
                        assert(x[i] == x.drop_first()[i - 1] && y[i] == y.drop_first()[i - 1]);
                    }
                }
                assert(x =~= y);
            }
        }
    }
}

/// Names are ordered by their bytes as unsigned numbers: at the first byte
/// where two sequences differ, the one with the smaller byte comes first.
pub proof fn lemma_bytes_le_first_difference(x: Seq<u8>, y: Seq<u8>, i: int)
    requires
        0 <= i < x.len(),
        i < y.len(),
        forall|k: int| 0 <= k < i ==> #[trigger] x[k] == y[k],
        x[i] != y[i],
    ensures
        bytes_le(x, y) == (x[i] < y[i]),
        bytes_le(y, x) == (y[i] < x[i]),
    decreases i,
{
    if i > 0 {
        assert forall|k: int| 0 <= k < i - 1 implies #[trigger] x.drop_first()[k] == y.drop_first()[k] by {
            assert(x[k + 1] == y[k + 1]);
        }
        assert(x[0] == y[0]);
        lemma_bytes_le_first_difference(x.drop_first(), y.drop_first(), i - 1);
    }
}

/// A sequence comes before every sequence that it starts.
pub proof fn lemma_bytes_le_prefix(x: Seq<u8>, y: Seq<u8>)
    requires
        x.len() <= y.len(),
        forall|k: int| 0 <= k < x.len() ==> #[trigger] x[k] == y[k],
    ensures
        bytes_le(x, y),
    decreases x.len(),
{
    if x.len() > 0 {
        assert forall|k: int| 0 <= k < x.len() - 1 implies #[trigger] x.drop_first()[k] == y.drop_first()[k] by {
            assert(x[k + 1] == y[k + 1]);
        }
        assert(x[0] == y[0]);
        lemma_bytes_le_prefix(x.drop_first(), y.drop_first());
    }
}

/// In entries sorted by name, an earlier name has the smaller unsigned byte
/// at the first place where the UTF-8 bytes of two names differ, and a name
/// never comes after a longer name that it starts.
pub proof fn lemma_sorted_by_name_byte_order(s: Seq<(String, String)>, i: int, j: int, k: int)
    requires
        sorted_by_name(s),
        0 <= i < j < s.len(),
        0 <= k,
        forall|m: int|
            0 <= m < k ==> #[trigger] encode_utf8(s[i].0@)[m] == encode_utf8(s[j].0@)[m],
    ensures
        k < encode_utf8(s[i].0@).len() && k < encode_utf8(s[j].0@).len() && encode_utf8(s[i].0@)[k]
            != encode_utf8(s[j].0@)[k] ==> encode_utf8(s[i].0@)[k] < encode_utf8(s[j].0@)[k],
        !(k == encode_utf8(s[j].0@).len() && k < encode_utf8(s[i].0@).len()),
{
    let x = encode_utf8(s[i].0@);
    let y = encode_utf8(s[j].0@);
    assert(name_le(s[i].0, s[j].0));
    if k < x.len() && k < y.len() && x[k] != y[k] {
        lemma_bytes_le_first_difference(x, y, k);
    }
    if k == y.len() && k < x.len() {
        lemma_bytes_le_not_longer(x, y);
    }
}

proof fn lemma_bytes_le_not_longer(x: Seq<u8>, y: Seq<u8>)
    requires
        y.len() < x.len(),
        forall|m: int| 0 <= m < y.len() ==> #[trigger] x[m] == y[m],
    ensures
        !bytes_le(x, y),
    decreases y.len(),
{
    if y.len() > 0 {
        assert forall|m: int| 0 <= m < y.len() - 1 implies #[trigger] x.drop_first()[m] == y.drop_first()[m] by {
            assert(x[m + 1] == y[m + 1]);
        }
        assert(x[0] == y[0]);
        lemma_bytes_le_not_longer(x.drop_first(), y.drop_first());
    }
}

} // verus!
