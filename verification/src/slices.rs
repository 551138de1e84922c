//! Splitting a mutable slice in two.
use vstd::prelude::*;

verus! {

/// Splits `slice` at `mid` into two mutable parts.
pub fn split_at_mut(slice: &mut [i32], mid: usize) -> (r: (&mut [i32], &mut [i32]))
    requires
        mid <= old(slice)@.len(),
    ensures
        r.0@ == old(slice)@.take(mid as int),
        r.1@ == old(slice)@.skip(mid as int),
        final(slice)@ == final(r.0)@ + final(r.1)@,
{
    slice.split_at_mut(mid)
}

} // verus!
