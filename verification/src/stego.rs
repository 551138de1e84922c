//! A message hidden in the lowest bit of consecutive bytes: each message byte
//! takes eight carrier bytes, most significant bit first, and a zero byte
//! ends the message.
use vstd::prelude::*;
use crate::header::PPMHeader;

verus! {

/// Bit `b` of `c`, counting from the most significant bit (`b < 8`).
pub open spec fn msb_bit(c: u8, b: u8) -> bool {
    (c >> ((7 - b) as u8)) & 1u8 == 1u8
}

/// `x` with its lowest bit set to `bit`.
pub open spec fn with_lsb(x: u8, bit: bool) -> u8 {
    if bit {
        x | 1u8
    } else {
        x & 0xFEu8
    }
}

/// The index of the carrier byte of bit `b` of message byte `k`, for a
/// message that starts at `start`.
pub open spec fn slot(start: int, k: int, b: int) -> int {
    start + 8 * k + b
}

/// The byte built from the lowest bits of the first `n` carrier bytes
/// of `d` from `base` on, the first of them landing in the highest bit.
pub open spec fn partial_byte(d: Seq<u8>, base: int, n: int) -> u8
    decreases n,
{
    if n <= 0 {
        0u8
    } else {
        partial_byte(d, base, n - 1) | ((d[base + n - 1] & 1u8) << ((7 - (n - 1)) as u8))
    }
}

/// Byte `k` hidden in `d`.
pub open spec fn hidden_byte(d: Seq<u8>, k: int) -> u8 {
    partial_byte(d, 8 * k, 8)
}

/// The first index `k >= j` of a whole hidden byte of `d` that is zero.
pub open spec fn first_zero_from(d: Seq<u8>, j: int) -> Option<int>
    decreases d.len() / 8 - j,
{
    if j < 0 || j >= d.len() / 8 {
        None
    } else if hidden_byte(d, j) == 0 {
        Some(j)
    } else {
        first_zero_from(d, j + 1)
    }
}

/// The first `n` hidden bytes of `d`.
pub open spec fn hidden_bytes(d: Seq<u8>, n: int) -> Seq<u8> {
    Seq::new(n as nat, |k: int| hidden_byte(d, k))
}

/// The message hidden in `d`: the hidden bytes before the first zero one,
/// or `None` when no whole hidden byte is zero.
pub open spec fn hidden_message(d: Seq<u8>) -> Option<Seq<u8>> {
    match first_zero_from(d, 0) {
        Some(n) => Some(hidden_bytes(d, n)),
        None => None,
    }
}

/// `new` is `old` with `msg` and a terminating zero byte hidden from `start` on:
/// only the lowest bits of the `8 * (msg.len() + 1)` bytes from `start` change.
pub open spec fn embeds(new: Seq<u8>, old: Seq<u8>, msg: Seq<u8>, start: int) -> bool {
    &&& new.len() == old.len()
    &&& forall|k: int, b: int|
        0 <= k < msg.len() && 0 <= b < 8 ==> new[#[trigger] slot(start, k, b)] == with_lsb(
            old[slot(start, k, b)],
            msb_bit(msg[k], b as u8),
        )
    &&& forall|b: int|
        0 <= b < 8 ==> new[#[trigger] slot(start, msg.len() as int, b)] == with_lsb(
            old[slot(start, msg.len() as int, b)],
            false,
        )
    &&& forall|i: int|
        0 <= i < old.len() && !(start <= i < start + 8 * (msg.len() + 1)) ==> #[trigger] new[i]
            == old[i]
}

/// The room that hiding `n` message bytes and the terminator takes from `start`.
pub open spec fn fits(len: int, n: int, start: int) -> bool {
    0 <= start && start + 8 * (n + 1) <= len
}

proof fn lemma_msb_bit(c: u8, b: u8)
    by (bit_vector)
    requires
        b < 8,
    ensures
        (c & (0x80u8 >> b) != 0) == ((c >> ((7 - b) as u8)) & 1u8 == 1u8),
{
}

/// Whether bit `bit` of `c`, counted from the most significant, is set.
pub fn is_one(c: u8, bit: usize) -> (r: bool)
    requires
        bit < 8,
    ensures
        r == msb_bit(c, bit as u8),
{
    proof {
        lemma_msb_bit(c, bit as u8);
    }
    let b: u8 = bit as u8;
    if c & (0b1000_0000u8 >> b) != 0 {
        return true;
    }
    return false;
}

proof fn lemma_low_bit_of_shift(x: u8)
    by (bit_vector)
    ensures
        ((x & 1u8) << 0u8) == (x & 1u8),
{
}

/// The hidden byte at `k`, read from the eight carrier bytes at `8 * k`.
fn read_hidden_byte(data: &[u8], k: usize) -> (r: u8)
    requires
        8 * k + 8 <= data@.len(),
    ensures
        r == hidden_byte(data@, k as int),
{
    let len = data.len();
    assert(8 * k + 8 <= len);
    let base = 8 * k;
    let mut temp: u8 = 0;
    let mut b: usize = 0;
    while b < 7
        invariant
            base == 8 * k,
            base + 8 <= data@.len(),
            b <= 7,
            temp == partial_byte(data@, base as int, b as int),
        decreases 7 - b,
    {
        temp = temp | ((data[base + b] & 1u8) << ((7 - b) as u8));
        b = b + 1;
    }
    proof {
        lemma_low_bit_of_shift(data@[base + 7]);
    }
    temp = temp | (data[base + 7] & 1u8);
    temp
}

proof fn lemma_div8(len: int, k: int)
    by (nonlinear_arith)
    requires
        0 <= k < len / 8,
        0 <= len,
    ensures
        8 * k + 8 <= len,
{
}

/// Reads the hidden bytes of `data` onto the end of `ansr` up to the first
/// zero one; returns whether there is one. When there is none, every whole
/// hidden byte has been read onto `ansr`.
pub fn scan_hidden(data: &[u8], ansr: &mut Vec<u8>) -> (found: bool)
    ensures
        found == hidden_message(data@) is Some,
        found ==> final(ansr)@ == old(ansr)@ + hidden_message(data@).unwrap(),
        !found ==> final(ansr)@ == old(ansr)@ + hidden_bytes(data@, (data@.len() / 8) as int),
{
    let nbytes = data.len() / 8;
    let mut k: usize = 0;
    while k < nbytes
        invariant
            nbytes == data@.len() / 8,
            k <= nbytes,
            ansr@ == old(ansr)@ + hidden_bytes(data@, k as int),
            first_zero_from(data@, 0) == first_zero_from(data@, k as int),
        decreases nbytes - k,
    {
        proof {
            lemma_div8(data@.len() as int, k as int);
        }
        let temp = read_hidden_byte(data, k);
        if temp == 0 {
            return true;
        }
        ansr.push(temp);
        k = k + 1;
        assert(ansr@ =~= old(ansr)@ + hidden_bytes(data@, k as int));
    }
    false
}

/// Reads the message hidden in `data` onto the end of `ansr`; when no zero byte
/// ends it within `data`, `ansr` is emptied instead.
pub fn get_hidden_message(data: &[u8], ansr: &mut Vec<u8>)
    ensures
        match hidden_message(data@) {
            Some(m) => final(ansr)@ == old(ansr)@ + m,
            None => final(ansr)@ == Seq::<u8>::empty(),
        },
{
    let found_null = scan_hidden(data, ansr);
    if !found_null {
        ansr.clear();
    }
}

/// Hides `message`, then a zero byte, in the lowest bits of the pixel data of
/// an image, eight pixel bytes per message byte from `header.offset` on.
pub fn encode(message: &[u8], data: &mut Vec<u8>, header: &PPMHeader)
    requires
        fits(old(data)@.len() as int, message@.len() as int, header.offset as int),
    ensures
        embeds(final(data)@, old(data)@, message@, header.offset as int),
{
    hide_at(message, data, header.offset);
}

/// Hides `message`, then a zero byte, in the lowest bits of `data`, eight
/// bytes per message byte from `start` on.
pub fn hide_at(message: &[u8], data: &mut Vec<u8>, start: usize)
    requires
        fits(old(data)@.len() as int, message@.len() as int, start as int),
    ensures
        embeds(final(data)@, old(data)@, message@, start as int),
{
    let ghost orig = data@;
    let n = message.len();
    let len = data.len();
    let mut k: usize = 0;
    while k < n
        invariant
            orig == old(data)@,
            n == message@.len(),
            len == orig.len(),
            fits(len as int, n as int, start as int),
            data@.len() == len,
            k <= n,
            forall|k2: int, b: int|
                0 <= k2 < k && 0 <= b < 8 ==> data@[#[trigger] slot(start as int, k2, b)]
                    == with_lsb(orig[slot(start as int, k2, b)], msb_bit(message@[k2], b as u8)),
            forall|i: int|
                0 <= i < len && !(start <= i < start + 8 * k) ==> #[trigger] data@[i] == orig[i],
        decreases n - k,
    {
        let c = message[k];
        let base = start + 8 * k;
        let mut b: usize = 0;
        while b < 8
            invariant
                orig == old(data)@,
                n == message@.len(),
                len == orig.len(),
                fits(len as int, n as int, start as int),
                data@.len() == len,
                k < n,
                c == message@[k as int],
                base == start + 8 * k,
                b <= 8,
                forall|k2: int, b2: int|
                    0 <= k2 < k && 0 <= b2 < 8 ==> data@[#[trigger] slot(start as int, k2, b2)]
                        == with_lsb(
                        orig[slot(start as int, k2, b2)],
                        msb_bit(message@[k2], b2 as u8),
                    ),
                forall|b2: int|
                    0 <= b2 < b ==> data@[#[trigger] slot(start as int, k as int, b2)]
                        == with_lsb(orig[slot(start as int, k as int, b2)], msb_bit(c, b2 as u8)),
                forall|i: int|
                    0 <= i < len && !(start <= i < base + b) ==> #[trigger] data@[i] == orig[i],
            decreases 8 - b,
        {
            let idx = base + b;
            assert(idx == slot(start as int, k as int, b as int));
            if is_one(c, b) {
                let v = data[idx] | 1u8;
                data.set(idx, v);
            } else {
                let v = data[idx] & 0xFEu8;
                data.set(idx, v);
            }
            b = b + 1;
        }
        k = k + 1;
    }
    let base = start + 8 * n;
    let mut b: usize = 0;
    while b < 8
        invariant
            orig == old(data)@,
            n == message@.len(),
            len == orig.len(),
            fits(len as int, n as int, start as int),
            data@.len() == len,
            base == start + 8 * n,
            b <= 8,
            forall|k2: int, b2: int|
                0 <= k2 < n && 0 <= b2 < 8 ==> data@[#[trigger] slot(start as int, k2, b2)]
                    == with_lsb(orig[slot(start as int, k2, b2)], msb_bit(message@[k2], b2 as u8)),
            forall|b2: int|
                0 <= b2 < b ==> data@[#[trigger] slot(start as int, n as int, b2)] == with_lsb(
                    orig[slot(start as int, n as int, b2)],
                    false,
                ),
            forall|i: int|
                0 <= i < len && !(start <= i < base + b) ==> #[trigger] data@[i] == orig[i],
        decreases 8 - b,
    {
        let idx = base + b;
        assert(idx == slot(start as int, n as int, b as int));
        let v = data[idx] & 0xFEu8;
        data.set(idx, v);
        b = b + 1;
    }
}

/// The eight carrier bytes of a hidden byte, spelled out.
proof fn lemma_partial_byte_8(d: Seq<u8>, base: int)
    ensures
        partial_byte(d, base, 8) == (((((((0u8 | ((d[base] & 1u8) << 7u8)) | ((d[base + 1] & 1u8)
            << 6u8)) | ((d[base + 2] & 1u8) << 5u8)) | ((d[base + 3] & 1u8) << 4u8)) | ((d[base + 4]
            & 1u8) << 3u8)) | ((d[base + 5] & 1u8) << 2u8)) | ((d[base + 6] & 1u8) << 1u8)) | ((
        d[base + 7] & 1u8) << 0u8),
{
    reveal_with_fuel(partial_byte, 9);
}

/// Setting the lowest bit to bit `b` of `c` leaves that bit there.
proof fn lemma_with_lsb_bit(y: u8, c: u8, b: u8)
    by (bit_vector)
    requires
        b < 8,
    ensures
        (if (c >> ((7 - b) as u8)) & 1u8 == 1u8 {
            y | 1u8
        } else {
            y & 0xFEu8
        }) & 1u8 == (c >> ((7 - b) as u8)) & 1u8,
        (y & 0xFEu8) & 1u8 == 0u8,
{
}

/// Eight bits, most significant first, put back together.
proof fn lemma_pack_bits(c: u8, x0: u8, x1: u8, x2: u8, x3: u8, x4: u8, x5: u8, x6: u8, x7: u8)
    by (bit_vector)
    requires
        x0 == (c >> 7u8) & 1u8,
        x1 == (c >> 6u8) & 1u8,
        x2 == (c >> 5u8) & 1u8,
        x3 == (c >> 4u8) & 1u8,
        x4 == (c >> 3u8) & 1u8,
        x5 == (c >> 2u8) & 1u8,
        x6 == (c >> 1u8) & 1u8,
        x7 == (c >> 0u8) & 1u8,
    ensures
        (((((((0u8 | (x0 << 7u8)) | (x1 << 6u8)) | (x2 << 5u8)) | (x3 << 4u8)) | (x4 << 3u8)) | (x5
            << 2u8)) | (x6 << 1u8)) | (x7 << 0u8) == c,
{
}

/// Each hidden byte of an embedding reads back as the message byte it carries,
/// and the one after the message as zero.
proof fn lemma_read_embedded_byte(new: Seq<u8>, old: Seq<u8>, msg: Seq<u8>, start: int, k: int)
    requires
        embeds(new, old, msg, start),
        fits(old.len() as int, msg.len() as int, start),
        0 <= k <= msg.len(),
    ensures
        hidden_byte(new.subrange(start, new.len() as int), k) == if k < msg.len() {
            msg[k]
        } else {
            0u8
        },
{
    let d = new.subrange(start, new.len() as int);
    let c: u8 = if k < msg.len() {
        msg[k]
    } else {
        0u8
    };
    lemma_partial_byte_8(d, 8 * k);
    assert forall|b: int| 0 <= b < 8 implies #[trigger] (d[8 * k + b] & 1u8) == (c >> ((7 - b) as u8))
        & 1u8 by {
        assert(d[8 * k + b] == new[slot(start, k, b)]);
        lemma_with_lsb_bit(old[slot(start, k, b)], c, b as u8);
        if k == msg.len() {
            let sh: u8 = (7 - b) as u8;
            assert((0u8 >> sh) & 1u8 == 0u8) by (bit_vector);
        }
    }
    assert(d[8 * k + 0] & 1u8 == (c >> 7u8) & 1u8);
    assert(d[8 * k + 1] & 1u8 == (c >> 6u8) & 1u8);
    assert(d[8 * k + 2] & 1u8 == (c >> 5u8) & 1u8);
    assert(d[8 * k + 3] & 1u8 == (c >> 4u8) & 1u8);
    assert(d[8 * k + 4] & 1u8 == (c >> 3u8) & 1u8);
    assert(d[8 * k + 5] & 1u8 == (c >> 2u8) & 1u8);
    assert(d[8 * k + 6] & 1u8 == (c >> 1u8) & 1u8);
    assert(d[8 * k + 7] & 1u8 == (c >> 0u8) & 1u8);
    lemma_pack_bits(
        c,
        d[8 * k] & 1u8,
        d[8 * k + 1] & 1u8,
        d[8 * k + 2] & 1u8,
        d[8 * k + 3] & 1u8,
        d[8 * k + 4] & 1u8,
        d[8 * k + 5] & 1u8,
        d[8 * k + 6] & 1u8,
        d[8 * k + 7] & 1u8,
    );
}

proof fn lemma_first_zero(d: Seq<u8>, j: int, n: int)
    requires
        0 <= j <= n < d.len() / 8,
        forall|k: int| j <= k < n ==> #[trigger] hidden_byte(d, k) != 0,
        hidden_byte(d, n) == 0,
    ensures
        first_zero_from(d, j) == Some(n),
    decreases n - j,
{
    if j < n {
        lemma_first_zero(d, j + 1, n);
    }
}

proof fn lemma_room(len: int, n: int)
    by (nonlinear_arith)
    requires
        0 <= n,
        8 * (n + 1) <= len,
    ensures
        n < len / 8,
{
}

/// Reading back what `encode` hid gives the message, when the message holds
/// no zero byte.
pub proof fn lemma_hidden_message_of_embedding(new: Seq<u8>, old: Seq<u8>, msg: Seq<u8>, start: int)
    requires
        embeds(new, old, msg, start),
        fits(old.len() as int, msg.len() as int, start),
        forall|i: int| 0 <= i < msg.len() ==> #[trigger] msg[i] != 0,
    ensures
        hidden_message(new.subrange(start, new.len() as int)) == Some(msg),
{
    let d = new.subrange(start, new.len() as int);
    let n = msg.len() as int;
    assert forall|k: int| 0 <= k <= n implies #[trigger] hidden_byte(d, k) == if k < n {
        msg[k]
    } else {
        0u8
    } by {
        lemma_read_embedded_byte(new, old, msg, start, k);
    }
    lemma_room(d.len() as int, n);
    lemma_first_zero(d, 0, n);
    assert(hidden_bytes(d, n) =~= msg);
}

proof fn lemma_with_lsb_high_bits(x: u8)
    by (bit_vector)
    ensures
        (x | 1u8) & 0xFEu8 == x & 0xFEu8,
        (x & 0xFEu8) & 0xFEu8 == x & 0xFEu8,
{
}

/// Hiding a message changes no bit of the carrier but the lowest bit of
/// each byte, and keeps its length.
pub proof fn lemma_embedding_keeps_high_bits(new: Seq<u8>, old: Seq<u8>, msg: Seq<u8>, start: int)
    requires
        embeds(new, old, msg, start),
        fits(old.len() as int, msg.len() as int, start),
    ensures
        new.len() == old.len(),
        forall|i: int| 0 <= i < old.len() ==> #[trigger] new[i] & 0xFEu8 == old[i] & 0xFEu8,
{
    assert forall|i: int| 0 <= i < old.len() implies #[trigger] new[i] & 0xFEu8 == old[i] & 0xFEu8 by {
        lemma_with_lsb_high_bits(old[i]);
        if start <= i < start + 8 * (msg.len() + 1) {
            let k = (i - start) / 8;
            let b = (i - start) % 8;
            assert(i == slot(start, k, b));
            if k < msg.len() {
                assert(new[slot(start, k, b)] == with_lsb(old[i], msb_bit(msg[k], b as u8)));
            } else {
                assert(k == msg.len());
                assert(new[slot(start, msg.len() as int, b)] == with_lsb(old[i], false));
            }
        }
    }
}

proof fn lemma_msb_bit_cases(c: u8)
    by (bit_vector)
    ensures
        ((c >> 7u8) & 1u8 == 1u8) == ((c / 128) % 2 == 1),
        ((c >> 6u8) & 1u8 == 1u8) == ((c / 64) % 2 == 1),
        ((c >> 5u8) & 1u8 == 1u8) == ((c / 32) % 2 == 1),
        ((c >> 4u8) & 1u8 == 1u8) == ((c / 16) % 2 == 1),
        ((c >> 3u8) & 1u8 == 1u8) == ((c / 8) % 2 == 1),
        ((c >> 2u8) & 1u8 == 1u8) == ((c / 4) % 2 == 1),
        ((c >> 1u8) & 1u8 == 1u8) == ((c / 2) % 2 == 1),
        ((c >> 0u8) & 1u8 == 1u8) == (c % 2 == 1),
{
}

/// Bit `b` counted from the most significant is the digit of weight
/// `2^(7 - b)` in the binary expansion of `c`: bit 0 weighs 128, bit 7 weighs 1.
pub proof fn lemma_msb_bit_weight(c: u8, b: u8)
    requires
        b < 8,
    ensures
        msb_bit(c, b) == ((c as int / vstd::arithmetic::power2::pow2((7 - b) as nat) as int) % 2 == 1),
{
    vstd::arithmetic::power2::lemma2_to64();
    lemma_msb_bit_cases(c);
    if b == 0 {
        assert(vstd::arithmetic::power2::pow2((7 - b) as nat) == 128);
        assert(msb_bit(c, b) == ((c >> 7u8) & 1u8 == 1u8));
        assert((c as int / 128) % 2 == (c / 128) % 2);
    } else if b == 1 {
        assert(vstd::arithmetic::power2::pow2((7 - b) as nat) == 64);
        assert(msb_bit(c, b) == ((c >> 6u8) & 1u8 == 1u8));
        assert((c as int / 64) % 2 == (c / 64) % 2);
    } else if b == 2 {
        assert(vstd::arithmetic::power2::pow2((7 - b) as nat) == 32);
        assert(msb_bit(c, b) == ((c >> 5u8) & 1u8 == 1u8));
        assert((c as int / 32) % 2 == (c / 32) % 2);
    } else if b == 3 {
        assert(vstd::arithmetic::power2::pow2((7 - b) as nat) == 16);
        assert(msb_bit(c, b) == ((c >> 4u8) & 1u8 == 1u8));
        assert((c as int / 16) % 2 == (c / 16) % 2);
    } else if b == 4 {
        assert(vstd::arithmetic::power2::pow2((7 - b) as nat) == 8);
        assert(msb_bit(c, b) == ((c >> 3u8) & 1u8 == 1u8));
        assert((c as int / 8) % 2 == (c / 8) % 2);
    } else if b == 5 {
        assert(vstd::arithmetic::power2::pow2((7 - b) as nat) == 4);
        assert(msb_bit(c, b) == ((c >> 2u8) & 1u8 == 1u8));
        assert((c as int / 4) % 2 == (c / 4) % 2);
    } else if b == 6 {
        assert(vstd::arithmetic::power2::pow2((7 - b) as nat) == 2);
        assert(msb_bit(c, b) == ((c >> 1u8) & 1u8 == 1u8));
        assert((c as int / 2) % 2 == (c / 2) % 2);
    } else {
        assert(vstd::arithmetic::power2::pow2((7 - b) as nat) == 1);
        assert(msb_bit(c, b) == ((c >> 0u8) & 1u8 == 1u8));
        assert((c as int / 1) % 2 == (c / 1) % 2);
    }
}

proof fn lemma_pack_sum(x0: u8, x1: u8, x2: u8, x3: u8, x4: u8, x5: u8, x6: u8, x7: u8)
    by (bit_vector)
    ensures
        (((((((0u8 | ((x0 & 1u8) << 7u8)) | ((x1 & 1u8) << 6u8)) | ((x2 & 1u8) << 5u8)) | ((x3 & 1u8)
            << 4u8)) | ((x4 & 1u8) << 3u8)) | ((x5 & 1u8) << 2u8)) | ((x6 & 1u8) << 1u8)) | ((x7 & 1u8)
            << 0u8) == 128 * (x0 % 2) + 64 * (x1 % 2) + 32 * (x2 % 2) + 16 * (x3 % 2) + 8 * (x4 % 2) + 4
            * (x5 % 2) + 2 * (x6 % 2) + (x7 % 2),
{
}

/// Hidden byte `k` is the number whose binary digits, most significant
/// first, are the parities of the eight carrier bytes from `8 * k` on.
pub proof fn lemma_hidden_byte_value(d: Seq<u8>, k: int)
    ensures
        hidden_byte(d, k) as int == 128 * (d[8 * k] % 2) + 64 * (d[8 * k + 1] % 2) + 32 * (d[8 * k
            + 2] % 2) + 16 * (d[8 * k + 3] % 2) + 8 * (d[8 * k + 4] % 2) + 4 * (d[8 * k + 5] % 2) + 2
            * (d[8 * k + 6] % 2) + (d[8 * k + 7] % 2),
{
    lemma_partial_byte_8(d, 8 * k);
    lemma_pack_sum(
        d[8 * k],
        d[8 * k + 1],
        d[8 * k + 2],
        d[8 * k + 3],
        d[8 * k + 4],
        d[8 * k + 5],
        d[8 * k + 6],
        d[8 * k + 7],
    );
}

} // verus!
