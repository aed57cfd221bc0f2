use vstd::prelude::*;
use vstd::string::StringSliceAdditionalSpecFns;
use vstd::utf8::{encode_scalar, encode_utf8};

use crate::strings::{string_drop_first_byte, string_push};
use crate::validity::{has_dot, is_valid_date, DOT};

verus! {

/// Each byte read from the input becomes the character with the same number.
pub open spec fn chars_of(bytes: Seq<u8>) -> Seq<char> {
    bytes.map_values(|b: u8| b as char)
}

/// The length in bytes of the UTF-8 text made of `s`.
pub open spec fn text_len(s: Seq<char>) -> nat {
    encode_utf8(s).len()
}

/// The text `s` is a date candidate: eight bytes long and without a `.`.
pub open spec fn is_date_text(s: Seq<char>) -> bool {
    !has_dot(encode_utf8(s)) && text_len(s) == 8
}

/// Where the window starts after the first `n` bytes of `chunk` were read.
/// The window holds the characters of the bytes read since then; it loses its
/// first character whenever it reaches eight bytes of text.
pub open spec fn window_start(chunk: Seq<u8>, n: nat) -> nat
    decreases n,
{
    if n == 0 {
        0
    } else {
        let s = window_start(chunk, (n - 1) as nat);
        if text_len(chars_of(chunk.subrange(s as int, n as int))) == 8 {
            s + 1
        } else {
            s
        }
    }
}

/// The window after the first `n` bytes of `chunk` were read.
pub open spec fn window(chunk: Seq<u8>, n: nat) -> Seq<char> {
    chars_of(chunk.subrange(window_start(chunk, n) as int, n as int))
}

/// The window right after byte `i` was appended, before it is examined.
pub open spec fn pushed(chunk: Seq<u8>, i: nat) -> Seq<char> {
    chars_of(chunk.subrange(window_start(chunk, i) as int, i + 1 as int))
}

/// After byte `i` is appended the window is eight bytes long, but its first
/// character takes two bytes, so it cannot lose just one byte.
pub open spec fn fault_at(chunk: Seq<u8>, i: nat) -> bool {
    &&& text_len(pushed(chunk, i)) == 8
    &&& chunk[window_start(chunk, i) as int] >= 0x80
}

/// No step of reading `chunk` faults.
pub open spec fn scan_ok(chunk: Seq<u8>) -> bool {
    forall|i: nat| i < chunk.len() ==> !#[trigger] fault_at(chunk, i)
}

/// The date candidates met while reading the first `n` bytes of `chunk`, in
/// order.
pub open spec fn dates_upto(chunk: Seq<u8>, n: nat) -> Seq<Seq<char>>
    decreases n,
{
    if n == 0 {
        seq![]
    } else {
        let p = pushed(chunk, (n - 1) as nat);
        if is_date_text(p) {
            dates_upto(chunk, (n - 1) as nat).push(p)
        } else {
            dates_upto(chunk, (n - 1) as nat)
        }
    }
}

/// The date candidates met while reading all of `chunk`.
pub open spec fn chunk_dates(chunk: Seq<u8>) -> Seq<Seq<char>> {
    dates_upto(chunk, chunk.len())
}

pub(crate) proof fn lemma_window_start_le(chunk: Seq<u8>, n: nat)
    ensures
        window_start(chunk, n) <= n,
    decreases n,
{
    if n > 0 {
        lemma_window_start_le(chunk, (n - 1) as nat);
        let s = window_start(chunk, (n - 1) as nat);
        if s == n {
            assert(chunk.subrange(s as int, n as int) =~= Seq::<u8>::empty());
            assert(chars_of(chunk.subrange(s as int, n as int)) =~= Seq::<char>::empty());
        }
    }
}

proof fn lemma_byte_char(b: u8)
    ensures
        (b as char) as u32 == b as u32,
{
}

/// The text of `n` characters made from bytes is at most `2 * n` bytes long.
pub(crate) proof fn lemma_text_len_bound(bytes: Seq<u8>)
    ensures
        text_len(chars_of(bytes)) <= 2 * bytes.len(),
    decreases bytes.len(),
{
    if bytes.len() > 0 {
        let cs = chars_of(bytes);
        assert(cs.drop_first() =~= chars_of(bytes.drop_first()));
        lemma_byte_char(bytes[0]);
        assert(encode_utf8(cs) == encode_scalar(cs[0] as u32) + encode_utf8(cs.drop_first()));
        lemma_text_len_bound(bytes.drop_first());
    } else {
        assert(chars_of(bytes) =~= Seq::<char>::empty());
    }
}

/// Every byte of `bytes` is an ASCII byte (below 0x80).
pub open spec fn is_ascii_bytes(bytes: Seq<u8>) -> bool {
    forall|i: int| 0 <= i < bytes.len() ==> #[trigger] bytes[i] < 0x80
}

/// The text made of ASCII bytes is those same bytes.
pub(crate) proof fn lemma_ascii_text(bytes: Seq<u8>)
    requires
        is_ascii_bytes(bytes),
    ensures
        encode_utf8(chars_of(bytes)) == bytes,
{
    let cs = chars_of(bytes);
    assert forall|i| 0 <= i < cs.len() implies '\0' <= #[trigger] cs[i] <= '\u{7f}' by {
        lemma_byte_char(bytes[i]);
    }
    vstd::utf8::is_ascii_chars_encode_utf8(cs);
    assert forall|i| 0 <= i < cs.len() implies encode_utf8(cs)[i] == bytes[i] by {
        let b = bytes[i];
        assert(cs[i] == b as char);
        lemma_byte_char(b);
    }
    assert(encode_utf8(cs) =~= bytes);
}

/// The eight-byte runs `chunk[n - 8..n]` without a `.`, for `n` up to the
/// given bound, in order and as characters.
pub open spec fn dated_runs(chunk: Seq<u8>, n: nat) -> Seq<Seq<char>>
    decreases n,
{
    if n < 8 {
        seq![]
    } else {
        let run = chunk.subrange(n - 8, n as int);
        let before = dated_runs(chunk, (n - 1) as nat);
        if run.contains(DOT) {
            before
        } else {
            before.push(chars_of(run))
        }
    }
}

pub(crate) proof fn lemma_ascii_subrange(chunk: Seq<u8>, lo: int, hi: int)
    requires
        is_ascii_bytes(chunk),
        0 <= lo <= hi <= chunk.len(),
    ensures
        is_ascii_bytes(chunk.subrange(lo, hi)),
        text_len(chars_of(chunk.subrange(lo, hi))) == hi - lo,
{
    let sub = chunk.subrange(lo, hi);
    assert forall|i: int| 0 <= i < sub.len() implies #[trigger] sub[i] < 0x80 by {
        assert(sub[i] == chunk[lo + i]);
    }
    lemma_ascii_text(sub);
}

/// On ASCII input the window is made of the last (up to) seven bytes read.
pub(crate) proof fn lemma_ascii_window_start(chunk: Seq<u8>, n: nat)
    requires
        is_ascii_bytes(chunk),
        n <= chunk.len(),
    ensures
        window_start(chunk, n) == if n < 8 { 0 } else { n - 7 },
    decreases n,
{
    if n > 0 {
        lemma_ascii_window_start(chunk, (n - 1) as nat);
        let s = window_start(chunk, (n - 1) as nat);
        lemma_ascii_subrange(chunk, s as int, n as int);
    }
}

/// On ASCII input, reading never faults, and the date candidates met while
/// reading the first `n` bytes are exactly the eight-byte runs ending at or
/// before `n` that hold no `.`, in order.
pub proof fn lemma_ascii_dates(chunk: Seq<u8>, n: nat)
    requires
        is_ascii_bytes(chunk),
        n <= chunk.len(),
    ensures
        dates_upto(chunk, n) == dated_runs(chunk, n),
        forall|i: nat| i < n ==> !#[trigger] fault_at(chunk, i),
    decreases n,
{
    if n > 0 {
        lemma_ascii_dates(chunk, (n - 1) as nat);
        lemma_ascii_window_start(chunk, (n - 1) as nat);
        let s = window_start(chunk, (n - 1) as nat);
        let run = chunk.subrange(s as int, n as int);
        lemma_ascii_subrange(chunk, s as int, n as int);
        lemma_ascii_text(run);
        assert(!fault_at(chunk, (n - 1) as nat));
        if n >= 8 {
            assert(s == n - 8);
        }
    }
}

/// On ASCII input, the date candidates of the whole chunk are its eight-byte
/// runs without a `.`, and reading it never faults.
pub proof fn lemma_ascii_chunk(chunk: Seq<u8>)
    requires
        is_ascii_bytes(chunk),
    ensures
        scan_ok(chunk),
        chunk_dates(chunk) == dated_runs(chunk, chunk.len()),
{
    lemma_ascii_dates(chunk, chunk.len());
}

/// Reads `chunk` byte by byte into a window of text, as characters; each time
/// the window is eight bytes of text it is recorded when it holds no `.`, and
/// then loses its first byte. Returns the recorded windows in order and the
/// window left at the end, or the index of the first byte after which the
/// window could not lose a byte because its first character takes two.
pub fn scan_window(chunk: &[u8]) -> (res: Result<(Vec<String>, String), usize>)
    requires
        chunk@.len() <= isize::MAX,
    ensures
        match res {
            Ok((dates, last)) => {
                &&& scan_ok(chunk@)
                &&& dates@.map_values(|s: String| s@) == chunk_dates(chunk@)
                &&& last@ == window(chunk@, chunk@.len())
            },
            Err(i) => {
                &&& i < chunk@.len()
                &&& fault_at(chunk@, i as nat)
                &&& forall|j: nat| j < i ==> !#[trigger] fault_at(chunk@, j)
            },
        },
{
    let mut sequence = String::new();
    let mut dates: Vec<String> = Vec::new();
    let mut start: usize = 0;
    let mut i: usize = 0;
    while i < chunk.len()
        invariant
            i <= chunk@.len(),
            chunk@.len() <= isize::MAX,
            start == window_start(chunk@, i as nat),
            sequence@ == window(chunk@, i as nat),
            dates@.map_values(|s: String| s@) == dates_upto(chunk@, i as nat),
            forall|j: nat| j < i ==> !#[trigger] fault_at(chunk@, j),
        decreases chunk@.len() - i,
    {
        proof {
            lemma_window_start_le(chunk@, i as nat);
            lemma_text_len_bound(chunk@.subrange(start as int, i + 1));
        }
        let byte = chunk[i];
        string_push(&mut sequence, byte as char);
        assert(sequence@ =~= pushed(chunk@, i as nat));
        let text = sequence.as_str();
        // The text is at most twice as long as the chunk, so its length fits.
        assert(text_len(sequence@) <= usize::MAX);
        let full = text.len() == 8;
        assert(full == (text_len(pushed(chunk@, i as nat)) == 8));
        assert(window_start(chunk@, (i + 1) as nat) == if full { start + 1 } else { start as int });
        if full {
            if is_valid_date(sequence.as_str()) {
                dates.push(sequence.clone());
            }
            if chunk[start] >= 0x80 {
                assert(fault_at(chunk@, i as nat));
                return Err(i);
            }
            assert(sequence@[0] == chunk@[start as int] as char);
            string_drop_first_byte(&mut sequence);
            start += 1;
            assert(sequence@ =~= chars_of(chunk@.subrange(start as int, i + 1)));
        }
        assert(!fault_at(chunk@, i as nat));
        assert(dates@.map_values(|s: String| s@) =~= dates_upto(chunk@, (i + 1) as nat));
        i += 1;
        assert(sequence@ =~= window(chunk@, i as nat));
    }
    Ok((dates, sequence))
}

/// Reads `chunk` byte by byte into a window of text, as characters; each time
/// the window is eight bytes of text it is recorded when it holds no `.`, and
/// then loses its first byte. Returns the recorded windows in order, or the
/// index of the first byte after which the window could not lose a byte
/// because its first character takes two.
pub fn scan_chunk(chunk: &[u8]) -> (res: Result<Vec<String>, usize>)
    requires
        chunk@.len() <= isize::MAX,
    ensures
        match res {
            Ok(dates) => {
                &&& scan_ok(chunk@)
                &&& dates@.map_values(|s: String| s@) == chunk_dates(chunk@)
            },
            Err(i) => {
                &&& i < chunk@.len()
                &&& fault_at(chunk@, i as nat)
                &&& forall|j: nat| j < i ==> !#[trigger] fault_at(chunk@, j)
            },
        },
        is_ascii_bytes(chunk@) ==> (res matches Ok(dates) && dates@.map_values(|s: String| s@)
            == dated_runs(chunk@, chunk@.len())),
{
    proof {
        if is_ascii_bytes(chunk@) {
            lemma_ascii_chunk(chunk@);
        }
    }
    match scan_window(chunk) {
        Ok((dates, _)) => Ok(dates),
        Err(i) => Err(i),
    }
}

} // verus!
