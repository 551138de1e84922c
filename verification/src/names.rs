//! The names of the images that encoding a directory writes: the piece's
//! number in decimal, padded with zeros to eight digits, then `.ppm`.
use vstd::prelude::*;
use vstd::utf8::{decode_utf8_encode_utf8, encode_utf8};
use crate::header::{digits_value, lemma_digits_value_agree};
use crate::decode::{bytes_le, is_ascii_bytes, lemma_ascii_utf8, lemma_bytes_le_concat, utf8_to_string};

verus! {

/// The decimal digits of `n`, padded on the left with zeros to `w` of them.
pub open spec fn decimal(n: nat, w: nat) -> Seq<u8>
    decreases n + w,
{
    if n < 10 && w <= 1 {
        seq![(0x30 + n) as u8]
    } else {
        decimal(n / 10, if w > 0 { (w - 1) as nat } else { 0 }).push((0x30 + n % 10) as u8)
    }
}

/// The name of output image `k`.
pub open spec fn file_name_bytes(k: nat) -> Seq<u8> {
    decimal(k, 8) + seq![0x2Eu8, 0x70u8, 0x70u8, 0x6Du8]
}

/// Ten to the power `w`.
pub open spec fn pow10(w: nat) -> nat
    decreases w,
{
    if w == 0 {
        1
    } else {
        10 * pow10((w - 1) as nat)
    }
}

fn push_decimal(n: usize, w: usize, out: &mut Vec<u8>)
    ensures
        final(out)@ == old(out)@ + decimal(n as nat, w as nat),
    decreases n + w,
{
    if n < 10 && w <= 1 {
        out.push(0x30 + n as u8);
        assert(final(out)@ =~= old(out)@ + decimal(n as nat, w as nat));
    } else {
        let w2 = if w > 0 {
            w - 1
        } else {
            0
        };
        push_decimal(n / 10, w2, out);
        out.push(0x30 + (n % 10) as u8);
        assert(final(out)@ =~= old(out)@ + decimal(n as nat, w as nat));
    }
}

proof fn lemma_decimal_ascii(n: nat, w: nat)
    ensures
        is_ascii_bytes(decimal(n, w)),
    decreases n + w,
{
    if !(n < 10 && w <= 1) {
        lemma_decimal_ascii(n / 10, if w > 0 { (w - 1) as nat } else { 0 });
    }
}

/// The name of output image `file_num`: its number padded with zeros to
/// eight digits, then `.ppm`.
pub fn output_file_name(file_num: usize) -> (r: String)
    ensures
        encode_utf8(r@) == file_name_bytes(file_num as nat),
{
    let mut bytes: Vec<u8> = Vec::new();
    push_decimal(file_num, 8, &mut bytes);
    bytes.push(0x2E);
    bytes.push(0x70);
    bytes.push(0x70);
    bytes.push(0x6D);
    proof {
        assert(bytes@ =~= file_name_bytes(file_num as nat));
        lemma_decimal_ascii(file_num as nat, 8);
        assert(is_ascii_bytes(bytes@));
        lemma_ascii_utf8(bytes@);
        decode_utf8_encode_utf8(bytes@);
    }
    match utf8_to_string(bytes.as_slice()) {
        Some(s) => s,
        None => String::new(),
    }
}

proof fn lemma_div10(j: nat, k: nat, p: nat)
    by (nonlinear_arith)
    requires
        j < k < 10 * p,
    ensures
        j / 10 <= k / 10 < p,
        j / 10 == k / 10 ==> j % 10 < k % 10,
{
}

proof fn lemma_div10_bound(n: nat, p: nat)
    by (nonlinear_arith)
    requires
        n < 10 * p,
    ensures
        n / 10 < p,
{
}

proof fn lemma_decimal_len(n: nat, w: nat)
    requires
        w >= 1,
        n < pow10(w),
    ensures
        decimal(n, w).len() == w,
    decreases w,
{
    if w > 1 {
        lemma_div10_bound(n, pow10((w - 1) as nat));
        lemma_decimal_len(n / 10, (w - 1) as nat);
    } else {
        assert(pow10(1) == 10) by {
            reveal_with_fuel(pow10, 2);
        }
    }
}

/// Numbers below `10^w`, padded to `w` digits, compare as their digits do.
proof fn lemma_decimal_order(j: nat, k: nat, w: nat)
    requires
        w >= 1,
        j < k < pow10(w),
    ensures
        decimal(j, w) != decimal(k, w),
        bytes_le(decimal(j, w), decimal(k, w)),
    decreases w,
{
    if w == 1 {
        assert(pow10(1) == 10) by {
            reveal_with_fuel(pow10, 2);
        }
        let dj = decimal(j, w);
        let dk = decimal(k, w);
        assert(dj[0] != dk[0]);
        assert(dj.drop_first().len() == 0);
    } else {
        let p = pow10((w - 1) as nat);
        lemma_div10(j, k, p);
        let x = decimal(j / 10, (w - 1) as nat);
        let y = decimal(k / 10, (w - 1) as nat);
        let a = seq![(0x30 + j % 10) as u8];
        let b = seq![(0x30 + k % 10) as u8];
        assert(decimal(j, w) =~= x + a);
        assert(decimal(k, w) =~= y + b);
        lemma_decimal_len(j / 10, (w - 1) as nat);
        lemma_decimal_len(k / 10, (w - 1) as nat);
        if j / 10 < k / 10 {
            lemma_decimal_order(j / 10, k / 10, (w - 1) as nat);
        } else {
            assert(a[0] != b[0]);
            assert(a.drop_first().len() == 0);
            assert((x + a)[x.len() as int] != (y + b)[y.len() as int]);
        }
        lemma_bytes_le_concat(x, y, a, b);
    }
}

/// The names of the output images, behind a common directory prefix, sort in
/// the order of their numbers, for fewer than a hundred million images.
pub proof fn lemma_file_names_sorted(prefix: Seq<u8>, j: nat, k: nat)
    requires
        j < k < 100_000_000,
    ensures
        prefix + file_name_bytes(j) != prefix + file_name_bytes(k),
        bytes_le(prefix + file_name_bytes(j), prefix + file_name_bytes(k)),
{
    assert(pow10(8) == 100_000_000) by {
        reveal_with_fuel(pow10, 9);
    }
    lemma_decimal_order(j, k, 8);
    lemma_decimal_len(j, 8);
    lemma_decimal_len(k, 8);
    let suffix = seq![0x2Eu8, 0x70u8, 0x70u8, 0x6Du8];
    let x = prefix + decimal(j, 8);
    let y = prefix + decimal(k, 8);
    lemma_bytes_le_concat(prefix, prefix, decimal(j, 8), decimal(k, 8));
    lemma_bytes_le_concat(x, y, suffix, suffix);
    assert(prefix + file_name_bytes(j) =~= x + suffix);
    assert(prefix + file_name_bytes(k) =~= y + suffix);
    if x == y {
        assert(x.subrange(prefix.len() as int, x.len() as int) =~= decimal(j, 8));
        assert(y.subrange(prefix.len() as int, y.len() as int) =~= decimal(k, 8));
    }
}

proof fn lemma_decimal_digit(n: nat)
    by (nonlinear_arith)
    ensures
        (n / 10) * 10 + n % 10 == n,
        n % 10 < 10,
{
}

/// The digits of `n` are decimal digits, and read back as `n`.
pub proof fn lemma_decimal_value(n: nat, w: nat)
    ensures
        forall|k: int|
            0 <= k < decimal(n, w).len() ==> 0x30 <= #[trigger] decimal(n, w)[k] <= 0x39,
        digits_value(decimal(n, w), 0, decimal(n, w).len() as int) == n,
        decimal(n, w).len() >= 1,
    decreases n + w,
{
    let d = decimal(n, w);
    if n < 10 && w <= 1 {
        assert(digits_value(d, 0, 0) == 0);
    } else {
        let w2: nat = if w > 0 {
            (w - 1) as nat
        } else {
            0
        };
        let prev = decimal(n / 10, w2);
        lemma_decimal_value(n / 10, w2);
        lemma_decimal_digit(n);
        assert(d == prev.push((0x30 + n % 10) as u8));
        lemma_digits_value_agree(prev, d, 0, prev.len() as int);
    }
}

} // verus!
