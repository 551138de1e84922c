//! Byte buffers handed over from and to a web page: copying one, summing one.
use vstd::prelude::*;

verus! {

/// A copy of `data[from..to]`.
pub fn copy_range(data: &[u8], from: usize, to: usize) -> (r: Vec<u8>)
    requires
        from <= to <= data@.len(),
    ensures
        r@ == data@.subrange(from as int, to as int),
{
    let mut r: Vec<u8> = Vec::new();
    let mut i = from;
    while i < to
        invariant
            from <= i <= to,
            to <= data@.len(),
            r@ == data@.subrange(from as int, i as int),
        decreases to - i,
    {
        r.push(data[i]);
        i = i + 1;
        assert(r@ =~= data@.subrange(from as int, i as int));
    }
    r
}

/// A copy of the image data, handed back unchanged.
pub fn image_passthrough(data: &[u8]) -> (r: Vec<u8>)
    ensures
        r@ == data@,
{
    let r = copy_range(data, 0, data.len());
    assert(data@.subrange(0, data@.len() as int) =~= data@);
    r
}

/// The sum of the bytes.
pub open spec fn byte_sum(s: Seq<u8>) -> int
    decreases s.len(),
{
    if s.len() == 0 {
        0
    } else {
        byte_sum(s.drop_last()) + s.last()
    }
}

proof fn lemma_byte_sum_mono(s: Seq<u8>, i: int)
    requires
        0 <= i <= s.len(),
    ensures
        byte_sum(s.take(i)) <= byte_sum(s),
    decreases s.len() - i,
{
    if i < s.len() {
        lemma_byte_sum_mono(s, i + 1);
        assert(s.take(i + 1).drop_last() =~= s.take(i));
    } else {
        assert(s.take(i) =~= s);
    }
}

/// The sum of the bytes in a byte, or `None` when it does not fit in one.
pub fn checked_sum(data: &[u8]) -> (r: Option<u8>)
    ensures
        match r {
            Some(t) => byte_sum(data@) <= 255 && t == byte_sum(data@),
            None => byte_sum(data@) > 255,
        },
{
    let mut total: u8 = 0;
    let mut i: usize = 0;
    while i < data.len()
        invariant
            i <= data@.len(),
            total == byte_sum(data@.take(i as int)),
        decreases data@.len() - i,
    {
        assert(data@.take(i + 1).drop_last() =~= data@.take(i as int));
        match total.checked_add(data[i]) {
            Some(t) => {
                total = t;
            },
            None => {
                proof {
                    lemma_byte_sum_mono(data@, i + 1);
                }
                return None;
            },
        }
        i = i + 1;
    }
    assert(data@.take(data@.len() as int) =~= data@);
    Some(total)
}

/// The sum of the bytes, which is accumulated in a byte.
pub fn sum(data: &[u8]) -> (r: i32)
    requires
        byte_sum(data@) <= 255,
    ensures
        r == byte_sum(data@),
{
    match checked_sum(data) {
        Some(t) => t as i32,
        None => 0,
    }
}

} // verus!
