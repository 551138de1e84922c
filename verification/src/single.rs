//! Hiding a message in, and reading it from, a single PPM image. The header
//! is scanned more loosely here: only a space or a line feed ends a field,
//! and nothing checks that the scan stays inside the image.
use vstd::prelude::*;
use vstd::utf8::encode_utf8;
use crate::header::is_digit;
use crate::stego::{
    embeds, fits, hidden_message, hide_at, lemma_hidden_message_of_embedding, scan_hidden,
};

verus! {

/// What scanning the header of an image finds.
#[derive(Debug, PartialEq, Eq, Structural)]
pub enum ScanOutcome {
    /// The header is well formed and the pixel data starts at this index.
    Start(usize),
    /// A byte of the header is not what the format allows.
    Invalid,
    /// The scan ran past the end of the image.
    OutOfBounds,
}

/// The bytes that end a header field in this scan: space and line feed.
pub open spec fn is_sep(b: u8) -> bool {
    b == 0x20 || b == 0x0A
}

/// Scanning a field from `i`.
pub open spec fn scan_field(s: Seq<u8>, i: int) -> ScanOutcome
    decreases s.len() - i,
{
    if i < 0 || i >= s.len() {
        ScanOutcome::OutOfBounds
    } else if is_sep(s[i]) {
        ScanOutcome::Start(i as usize)
    } else if !is_digit(s[i]) {
        ScanOutcome::Invalid
    } else {
        scan_field(s, i + 1)
    }
}

/// Scanning the header of `s`: `P3` or `P6`, one byte skipped, then three
/// fields of digits, each ended by a space or a line feed.
pub open spec fn start_scan(s: Seq<u8>) -> ScanOutcome {
    if s.len() == 0 {
        ScanOutcome::OutOfBounds
    } else if s[0] != 0x50 {
        ScanOutcome::Invalid
    } else if s.len() < 2 {
        ScanOutcome::OutOfBounds
    } else if s[1] != 0x33 && s[1] != 0x36 {
        ScanOutcome::Invalid
    } else {
        match scan_field(s, 3) {
            ScanOutcome::Start(e1) => match scan_field(s, e1 + 1) {
                ScanOutcome::Start(e2) => match scan_field(s, e2 + 1) {
                    ScanOutcome::Start(e3) => ScanOutcome::Start((e3 + 1) as usize),
                    other => other,
                },
                other => other,
            },
            other => other,
        }
    }
}

proof fn lemma_scan_field_bounds(s: Seq<u8>, i: int)
    requires
        scan_field(s, i) is Start,
        s.len() <= usize::MAX,
    ensures
        i <= scan_field(s, i)->0 < s.len(),
    decreases s.len() - i,
{
    if !is_sep(s[i]) {
        lemma_scan_field_bounds(s, i + 1);
    }
}

fn scan_field_exec(buffer: &Vec<u8>, start: usize) -> (r: ScanOutcome)
    ensures
        r == scan_field(buffer@, start as int),
{
    let len = buffer.len();
    let mut i = start;
    while i < len && buffer[i] != 0x0A && buffer[i] != 0x20
        invariant
            len == buffer@.len(),
            start <= i,
            scan_field(buffer@, start as int) == scan_field(buffer@, i as int),
        decreases len - i,
    {
        if buffer[i] < 0x30 || buffer[i] > 0x39 {
            return ScanOutcome::Invalid;
        }
        i = i + 1;
    }
    if i >= len {
        ScanOutcome::OutOfBounds
    } else {
        ScanOutcome::Start(i)
    }
}

/// Scans the header of an image (see `start_scan`).
pub fn scan_start(buffer: &Vec<u8>) -> (r: ScanOutcome)
    ensures
        r == start_scan(buffer@),
{
    let len = buffer.len();
    if len == 0 {
        return ScanOutcome::OutOfBounds;
    }
    if buffer[0] != 0x50 {
        return ScanOutcome::Invalid;
    }
    if len < 2 {
        return ScanOutcome::OutOfBounds;
    }
    if buffer[1] != 0x33 && buffer[1] != 0x36 {
        return ScanOutcome::Invalid;
    }
    let e1 = match scan_field_exec(buffer, 3) {
        ScanOutcome::Start(e) => e,
        other => {
            return other;
        },
    };
    proof {
        lemma_scan_field_bounds(buffer@, 3);
    }
    let e2 = match scan_field_exec(buffer, e1 + 1) {
        ScanOutcome::Start(e) => e,
        other => {
            return other;
        },
    };
    proof {
        lemma_scan_field_bounds(buffer@, e1 + 1);
    }
    let e3 = match scan_field_exec(buffer, e2 + 1) {
        ScanOutcome::Start(e) => e,
        other => {
            return other;
        },
    };
    proof {
        lemma_scan_field_bounds(buffer@, e2 + 1);
    }
    ScanOutcome::Start(e3 + 1)
}

/// Finds where the pixel data of an image starts: `true` and `*start` set
/// when the header is well formed, `false` and `*start` untouched otherwise.
pub fn get_start(buffer: &Vec<u8>, start: &mut usize) -> (r: bool)
    requires
        !(start_scan(buffer@) is OutOfBounds),
    ensures
        r == start_scan(buffer@) is Start,
        r ==> *final(start) == start_scan(buffer@)->0,
        !r ==> *final(start) == *old(start),
{
    match scan_start(buffer) {
        ScanOutcome::Start(s) => {
            *start = s;
            true
        },
        _ => false,
    }
}

/// Where the pixel data of a well-formed image starts.
pub open spec fn data_start(s: Seq<u8>) -> int {
    (start_scan(s)->0) as int
}

proof fn lemma_start_in_bounds(s: Seq<u8>)
    requires
        start_scan(s) is Start,
        s.len() <= usize::MAX,
    ensures
        data_start(s) <= s.len(),
{
    lemma_scan_field_bounds(s, 3);
    let e1 = scan_field(s, 3)->0 as int;
    lemma_scan_field_bounds(s, e1 + 1);
    let e2 = scan_field(s, e1 + 1)->0 as int;
    lemma_scan_field_bounds(s, e2 + 1);
}

/// The message hidden in `data`; `None` when no zero byte ends it.
pub fn get_hidden_message(data: &[u8]) -> (r: Option<Vec<u8>>)
    ensures
        match hidden_message(data@) {
            Some(m) => r matches Some(v) && v@ == m,
            None => r is None,
        },
{
    let mut ansr: Vec<u8> = Vec::new();
    if scan_hidden(data, &mut ansr) {
        assert(ansr@ =~= hidden_message(data@).unwrap());
        Some(ansr)
    } else {
        None
    }
}

proof fn lemma_fits_div(len: int, n: int, start: int)
    by (nonlinear_arith)
    requires
        0 <= start <= len,
        0 <= n,
    ensures
        ((len - start) / 8 <= n) == !(start + 8 * (n + 1) <= len),
{
}

/// Whether `message` and a terminating zero byte fit in the pixel data of a
/// well-formed image.
pub fn can_fit_message(data: &Vec<u8>, message: &String) -> (r: bool)
    requires
        start_scan(data@) is Start,
    ensures
        r == fits(data@.len() as int, encode_utf8(message@).len() as int, data_start(data@)),
{
    let len = data.len();
    let mut start: usize = 0;
    get_start(data, &mut start);
    proof {
        lemma_start_in_bounds(data@);
    }
    let n = message.as_str().as_bytes().len();
    proof {
        lemma_fits_div(data@.len() as int, n as int, start as int);
    }
    if (len - start) / 8 <= n {
        return false;
    }
    return true;
}

/// Hides `message`, then a zero byte, in the pixel data of a well-formed image
/// that has room for them.
pub fn hide_message(data: &mut Vec<u8>, message: &[u8])
    requires
        start_scan(old(data)@) is Start,
        fits(old(data)@.len() as int, message@.len() as int, data_start(old(data)@)),
    ensures
        embeds(final(data)@, old(data)@, message@, data_start(old(data)@)),
{
    let mut start: usize = 0;
    get_start(data, &mut start);
    hide_at(message, data, start);
}

proof fn lemma_scan_field_agree(s: Seq<u8>, t: Seq<u8>, i: int)
    requires
        scan_field(s, i) is Start,
        s.len() <= usize::MAX,
        t.len() <= usize::MAX,
        scan_field(s, i)->0 < t.len(),
        forall|m: int| i <= m <= scan_field(s, i)->0 ==> #[trigger] t[m] == s[m],
    ensures
        scan_field(t, i) == scan_field(s, i),
    decreases s.len() - i,
{
    lemma_scan_field_bounds(s, i);
    if !is_sep(s[i]) {
        lemma_scan_field_agree(s, t, i + 1);
    }
}

/// The scan of a header depends only on the bytes before the pixel data.
pub proof fn lemma_start_depends_on_prefix(s: Seq<u8>, t: Seq<u8>)
    requires
        start_scan(s) is Start,
        s.len() <= usize::MAX,
        t.len() <= usize::MAX,
        data_start(s) <= t.len(),
        forall|m: int| 0 <= m < data_start(s) ==> #[trigger] t[m] == s[m],
    ensures
        start_scan(t) == start_scan(s),
{
    lemma_scan_field_bounds(s, 3);
    let e1 = scan_field(s, 3)->0 as int;
    lemma_scan_field_bounds(s, e1 + 1);
    let e2 = scan_field(s, e1 + 1)->0 as int;
    lemma_scan_field_bounds(s, e2 + 1);
    assert(t[0] == s[0] && t[1] == s[1]);
    lemma_scan_field_agree(s, t, 3);
    lemma_scan_field_agree(s, t, e1 + 1);
    lemma_scan_field_agree(s, t, e2 + 1);
}

/// Reading back an image that `hide_message` wrote gives the message again,
/// when the message holds no zero byte: the header scans as before, and the
/// hidden bytes after it are the message.
pub proof fn lemma_hide_then_read(old: Seq<u8>, new: Seq<u8>, msg: Seq<u8>)
    requires
        start_scan(old) is Start,
        old.len() <= usize::MAX,
        fits(old.len() as int, msg.len() as int, data_start(old)),
        embeds(new, old, msg, data_start(old)),
        forall|i: int| 0 <= i < msg.len() ==> #[trigger] msg[i] != 0,
    ensures
        start_scan(new) == start_scan(old),
        hidden_message(new.subrange(data_start(new), new.len() as int)) == Some(msg),
{
    let start = data_start(old);
    assert forall|m: int| 0 <= m < start implies #[trigger] new[m] == old[m] by {
        assert(!(start <= m < start + 8 * (msg.len() + 1)));
    }
    lemma_start_depends_on_prefix(old, new);
    lemma_hidden_message_of_embedding(new, old, msg, start);
}

} // verus!
