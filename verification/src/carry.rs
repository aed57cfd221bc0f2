use vstd::prelude::*;
use vstd::utf8::encode_utf8;

use crate::overlap::{
    all_digits, all_runs, lemma_digits_value_bound, lemma_pow10_values, lemma_window_and_rolling_agree,
};
use crate::parse::{parse_decimal, parse_usize, PLUS};
use crate::rolling::{digits_value, is_digit, DATE_END, FIRST_DATE};
use crate::strings::string_push;
use crate::validity::{is_valid_date, DOT};
use crate::window::{
    chars_of, chunk_dates, is_ascii_bytes, is_date_text, lemma_ascii_subrange, lemma_ascii_text,
    lemma_ascii_window_start, lemma_text_len_bound, lemma_window_start_le, scan_ok, scan_window,
    text_len, window, window_start,
};

verus! {

/// The number that a window of text reads as with `str::parse::<usize>`.
pub open spec fn parse_window(w: Seq<char>) -> Option<nat> {
    parse_decimal(encode_utf8(w))
}

/// The offset from `FIRST_DATE` of `n`, when `n` is a date number.
pub open spec fn offset_of(n: nat) -> Seq<nat> {
    if FIRST_DATE <= n < DATE_END {
        seq![(n - FIRST_DATE) as nat]
    } else {
        seq![]
    }
}

/// `offset_of` keeps a number exactly when it lies from 19000000 up to, not
/// including, 21000000, and then as the offset that added to 19000000 gives
/// it back.
pub proof fn lemma_offset_of_keeps_the_date_range(n: nat)
    ensures
        offset_of(n).len() <= 1,
        offset_of(n).len() == 1 <==> 19_000_000 <= n < 21_000_000,
        offset_of(n).len() == 1 ==> offset_of(n)[0] < 2_000_000 && 19_000_000 + offset_of(n)[0] == n,
{
}

/// The date offsets of the windows `ws`, each read as a number, in order;
/// `None` when one of them is not a number.
pub open spec fn window_offsets(ws: Seq<Seq<char>>) -> Option<Seq<nat>>
    decreases ws.len(),
{
    if ws.len() == 0 {
        Some(seq![])
    } else {
        match (window_offsets(ws.drop_last()), parse_window(ws.last())) {
            (Some(o), Some(n)) => Some(o + offset_of(n)),
            _ => None,
        }
    }
}

/// Where block `k` of `len` bytes in blocks of `size` ends.
pub open spec fn block_end(len: nat, size: nat, k: nat) -> nat {
    if k * size + size < len {
        (k * size + size) as nat
    } else {
        len
    }
}

/// Block `k` of `data` in blocks of `size` bytes, the last one possibly
/// shorter.
pub open spec fn block(data: Seq<u8>, size: nat, k: nat) -> Seq<u8> {
    data.subrange((k * size) as int, block_end(data.len(), size, k) as int)
}

/// The number of blocks: `ceil(len / size)`.
pub open spec fn block_count(len: nat, size: nat) -> nat {
    ((len + size - 1) / (size as int)) as nat
}

/// At the start of a block, a window `carried` left from the previous block
/// is completed to eight bytes of text from the start of the buffer, read
/// once as a date, and dropped. `None` when that faults: the window is
/// already longer than eight bytes, the buffer is too short, or the
/// completed window is date-like but not a number.
pub open spec fn carry_offsets(carried: Seq<char>, buffer: Seq<u8>) -> Option<Seq<nat>> {
    if carried.len() == 0 {
        Some(seq![])
    } else {
        let t = text_len(carried);
        if t > 8 || 8 - t > buffer.len() {
            None
        } else {
            let w = carried + chars_of(buffer.take(8 - t));
            if is_date_text(w) {
                match parse_window(w) {
                    Some(n) => Some(offset_of(n)),
                    None => None,
                }
            } else {
                Some(seq![])
            }
        }
    }
}

/// One block: it is copied to the front of the buffer, the carried window
/// is completed and dropped, then the block is read from an empty window.
/// Gives the buffer, the window left, and the date offsets found; `None`
/// on a fault.
pub open spec fn block_step(data: Seq<u8>, size: nat, k: nat, buffer: Seq<u8>, carried: Seq<char>)
    -> Option<(Seq<u8>, Seq<char>, Seq<nat>)>
{
    block_step_on(block(data, size, k), buffer, carried)
}

/// One block `c`, as in `block_step`.
pub open spec fn block_step_on(c: Seq<u8>, buffer: Seq<u8>, carried: Seq<char>) -> Option<(Seq<u8>, Seq<char>, Seq<nat>)> {
    let filled = c + buffer.skip(c.len() as int);
    match carry_offsets(carried, filled) {
        None => None,
        Some(first) => if !scan_ok(c) {
            None
        } else {
            match window_offsets(chunk_dates(c)) {
                None => None,
                Some(rest) => Some((filled, window(c, c.len()), first + rest)),
            }
        },
    }
}

/// The buffer, the window left and the date offsets after the first `k`
/// blocks, from a buffer of `size` zeros; `None` once a block faulted.
pub open spec fn carry_run(data: Seq<u8>, size: nat, k: nat) -> Option<(Seq<u8>, Seq<char>, Seq<nat>)>
    decreases k,
{
    if k == 0 {
        Some((Seq::new(size, |i: int| 0u8), seq![], seq![]))
    } else {
        match carry_run(data, size, (k - 1) as nat) {
            None => None,
            Some((b, w, o)) => match block_step(data, size, (k - 1) as nat, b, w) {
                None => None,
                Some((b2, w2, o2)) => Some((b2, w2, o + o2)),
            },
        }
    }
}

proof fn lemma_carry_run_stays_none(data: Seq<u8>, size: nat, k: nat, m: nat)
    requires
        k <= m,
        carry_run(data, size, k) is None,
    ensures
        carry_run(data, size, m) is None,
    decreases m - k,
{
    if k < m {
        lemma_carry_run_stays_none(data, size, k + 1, m);
    }
}

proof fn lemma_window_offsets_none(ws: Seq<Seq<char>>, d: nat)
    requires
        d <= ws.len(),
        window_offsets(ws.take(d as int)) is None,
    ensures
        window_offsets(ws) is None,
    decreases ws.len() - d,
{
    if d < ws.len() {
        assert(ws.take((d + 1) as int).drop_last() =~= ws.take(d as int));
        lemma_window_offsets_none(ws, d + 1);
    } else {
        assert(ws.take(d as int) =~= ws);
    }
}

proof fn lemma_block_count(len: nat, size: nat, k: nat)
    requires
        size > 0,
    ensures
        k * size < len <==> k < block_count(len, size),
{
    let n = block_count(len, size);
    vstd::arithmetic::div_mod::lemma_fundamental_div_mod(len + size - 1, size as int);
    vstd::arithmetic::div_mod::lemma_mod_pos_bound(len + size - 1, size as int);
    vstd::arithmetic::div_mod::lemma_div_pos_is_pos(len + size - 1, size as int);
    let q = (len + size - 1) / (size as int);
    let r = (len + size - 1) % (size as int);
    assert(k * size < len <==> k < q) by (nonlinear_arith)
        requires
            len + size - 1 == size * q + r,
            0 <= r < size,
            size > 0,
            k >= 0,
    ;
}

/// Reads each window of `dates` as a number, keeping the offsets of the
/// date numbers; `None` when one is not a number.
fn window_date_offsets(dates: &Vec<String>) -> (res: Option<Vec<usize>>)
    ensures
        match res {
            Some(o) => window_offsets(dates@.map_values(|s: String| s@)) == Some(o@.map_values(|x: usize| x as nat)),
            None => window_offsets(dates@.map_values(|s: String| s@)) is None,
        },
{
    let ghost ws = dates@.map_values(|s: String| s@);
    let mut offsets: Vec<usize> = Vec::new();
    let mut d: usize = 0;
    while d < dates.len()
        invariant
            d <= dates@.len(),
            ws == dates@.map_values(|s: String| s@),
            window_offsets(ws.take(d as int)) == Some(offsets@.map_values(|x: usize| x as nat)),
        decreases dates@.len() - d,
    {
        assert(ws.take(d + 1).drop_last() =~= ws.take(d as int));
        match parse_usize(dates[d].as_str()) {
            None => {
                proof {
                    lemma_window_offsets_none(ws, (d + 1) as nat);
                }
                return None;
            },
            Some(n) => {
                if n >= FIRST_DATE && n < DATE_END {
                    offsets.push(n - FIRST_DATE);
                }
            },
        }
        assert(Some(offsets@.map_values(|x: usize| x as nat)) =~~= window_offsets(ws.take(d + 1)));
        d += 1;
    }
    assert(ws.take(d as int) =~= ws);
    Some(offsets)
}

/// Completes the window `sequence` left from the previous block from the
/// start of `buffer` and reads it once: its date offset, if any; `None` on a
/// fault. An empty window gives nothing.
fn carry_dates(sequence: String, buffer: &Vec<u8>) -> (res: Option<Vec<usize>>)
    requires
        text_len(sequence@) <= usize::MAX,
    ensures
        match res {
            Some(o) => carry_offsets(sequence@, buffer@) == Some(o@.map_values(|x: usize| x as nat)),
            None => carry_offsets(sequence@, buffer@) is None,
        },
{
    let ghost carried = sequence@;
    let mut sequence = sequence;
    let mut offsets: Vec<usize> = Vec::new();
    if sequence.as_str().is_empty() {
        assert(offsets@.map_values(|x: usize| x as nat) =~= Seq::<nat>::empty());
        return Some(offsets);
    }
    let t = sequence.as_str().len();
    if t > 8 {
        return None;
    }
    let remaining = 8 - t;
    if remaining > buffer.len() {
        return None;
    }
    let mut r: usize = 0;
    while r < remaining
        invariant
            r <= remaining <= buffer@.len(),
            sequence@ == carried + chars_of(buffer@.take(r as int)),
        decreases remaining - r,
    {
        string_push(&mut sequence, buffer[r] as char);
        assert(chars_of(buffer@.take(r + 1)) =~= chars_of(buffer@.take(r as int)).push(buffer@[r as int] as char));
        r += 1;
    }
    if is_valid_date(sequence.as_str()) {
        match parse_usize(sequence.as_str()) {
            None => {
                return None;
            },
            Some(n) => {
                if n >= FIRST_DATE && n < DATE_END {
                    offsets.push(n - FIRST_DATE);
                }
            },
        }
    }
    assert(Some(offsets@.map_values(|x: usize| x as nat)) =~~= carry_offsets(carried, buffer@));
    Some(offsets)
}

/// Copies `data[start..end]` to the front of `buffer`, completes and reads
/// the carried window, then reads the block from an empty window.
fn step_block(data: &[u8], start: usize, end: usize, buffer: &mut Vec<u8>, sequence: String)
    -> (res: Option<(String, Vec<usize>)>)
    requires
        start <= end <= data@.len(),
        end - start <= old(buffer)@.len(),
        data@.len() <= isize::MAX,
        text_len(sequence@) <= usize::MAX,
    ensures
        final(buffer)@ == data@.subrange(start as int, end as int) + old(buffer)@.skip(end - start),
        match res {
            None => block_step_on(data@.subrange(start as int, end as int), old(buffer)@, sequence@) is None,
            Some((w, o)) => block_step_on(data@.subrange(start as int, end as int), old(buffer)@, sequence@)
                == Some((final(buffer)@, w@, o@.map_values(|x: usize| x as nat))),
        },
{
    let ghost c = data@.subrange(start as int, end as int);
    let ghost old_buffer = buffer@;
    let mut j: usize = 0;
    while j < end - start
        invariant
            start <= end <= data@.len(),
            end - start <= buffer@.len(),
            buffer@.len() == old_buffer.len(),
            buffer@ =~= data@.subrange(start as int, start + j) + old_buffer.skip(j as int),
            j <= end - start,
        decreases end - start - j,
    {
        buffer.set(j, data[start + j]);
        j += 1;
    }
    assert(buffer@ =~= c + old_buffer.skip(c.len() as int));
    let mut first = match carry_dates(sequence, buffer) {
        None => {
            return None;
        },
        Some(first) => first,
    };
    let piece = &buffer.as_slice()[0..end - start];
    assert(piece@ == c);
    let (dates, last) = match scan_window(piece) {
        Err(_) => {
            return None;
        },
        Ok(found) => found,
    };
    let mut rest = match window_date_offsets(&dates) {
        None => {
            return None;
        },
        Some(rest) => rest,
    };
    first.append(&mut rest);
    Some((last, first))
}

/// Reads `data` in blocks of `buffer_size` bytes, copied into one buffer
/// that is reused; a window of up to seven bytes of text left at the end of
/// a block is completed from the start of the next buffer and read once,
/// then each block is read on its own; every date-like window is read as a
/// number and its offset from `FIRST_DATE` kept when it is a date. Returns
/// the offsets in order, or `None` where that reading faults.
pub fn carry_scan(data: &[u8], buffer_size: usize) -> (res: Option<Vec<usize>>)
    requires
        buffer_size > 0,
        data@.len() + buffer_size <= usize::MAX,
        data@.len() <= isize::MAX,
    ensures
        match res {
            Some(offsets) => (carry_run(data@, buffer_size as nat, block_count(data@.len(), buffer_size as nat))
                matches Some(state) && offsets@.map_values(|o: usize| o as nat) == state.2),
            None => carry_run(data@, buffer_size as nat, block_count(data@.len(), buffer_size as nat)) is None,
        },
{
    let ghost size = buffer_size as nat;
    let ghost len = data@.len();
    let ghost count = block_count(len, size);
    let mut buffer: Vec<u8> = Vec::new();
    while buffer.len() < buffer_size
        invariant
            buffer.len() <= buffer_size,
            forall|j: int| 0 <= j < buffer@.len() ==> buffer@[j] == 0u8,
        decreases buffer_size - buffer.len(),
    {
        buffer.push(0);
    }
    assert(buffer@ =~= Seq::new(size, |i: int| 0u8));
    let mut sequence = String::new();
    let mut offsets: Vec<usize> = Vec::new();
    let mut i: usize = 0;
    let ghost mut k: nat = 0;
    let ghost mut lo: int = 0;
    let ghost mut hi: int = 0;
    proof {
        lemma_block_count(len, size, 0);
        assert(sequence@ =~= chars_of(data@.subrange(0, 0)));
        assert(offsets@.map_values(|o: usize| o as nat) =~= Seq::<nat>::empty());
    }
    while i < data.len()
        invariant
            size == buffer_size,
            len == data@.len(),
            count == block_count(len, size),
            buffer_size > 0,
            len + buffer_size <= usize::MAX,
            len <= isize::MAX,
            i == k * size,
            k <= count,
            i < len <==> k < count,
            buffer@.len() == size,
            carry_run(data@, size, k) == Some((buffer@, sequence@, offsets@.map_values(|o: usize| o as nat))),
            0 <= lo <= hi <= len,
            sequence@ == chars_of(data@.subrange(lo, hi)),
        decreases count - k,
    {
        let end = if i + buffer_size < data.len() { i + buffer_size } else { data.len() };
        let ghost c = block(data@, size, k);
        assert(c == data@.subrange(i as int, end as int));
        proof {
            lemma_text_len_bound(data@.subrange(lo, hi));
        }
        let ghost before = offsets@.map_values(|o: usize| o as nat);
        let ghost old_buffer = buffer@;
        let ghost old_sequence = sequence@;
        assert(carry_run(data@, size, k + 1) == match block_step_on(c, old_buffer, old_sequence) {
            None => None,
            Some((b2, w2, o2)) => Some((b2, w2, before + o2)),
        });
        match step_block(data, i, end, &mut buffer, sequence) {
            None => {
                proof {
                    lemma_carry_run_stays_none(data@, size, k + 1, count);
                }
                return None;
            },
            Some((last, mut found)) => {
                let ghost found_view = found@.map_values(|o: usize| o as nat);
                offsets.append(&mut found);
                assert(offsets@.map_values(|o: usize| o as nat) =~= before + found_view);
                sequence = last;
            },
        }
        proof {
            lemma_window_start_le(c, c.len());
            let ws = window_start(c, c.len());
            assert(c.subrange(ws as int, c.len() as int) =~= data@.subrange(i + ws, end as int));
            lo = i + ws;
            hi = end as int;
        }
        i = i + buffer_size;
        proof {
            k = k + 1;
            assert(i == k * size) by (nonlinear_arith)
                requires
                    i == (k - 1) * size + size,
            ;
            lemma_block_count(len, size, k);
        }
    }
    Some(offsets)
}

/// The runs of eight bytes `c[i..i + 8]` of a block, in order.
pub open spec fn block_runs(c: Seq<u8>) -> Seq<Seq<u8>> {
    Seq::new(if c.len() >= 8 { (c.len() - 7) as nat } else { 0 }, |i: int| c.subrange(i, i + 8))
}

/// The runs of eight bytes that the block reading takes in the first `k`
/// blocks of `size` bytes, in order: for each block after the first, the run
/// that ends one byte into it, then the runs inside the block.
pub open spec fn read_runs(data: Seq<u8>, size: nat, k: nat) -> Seq<Seq<u8>>
    decreases k,
{
    if k == 0 {
        seq![]
    } else {
        let j = (k - 1) as nat;
        let across = if j >= 1 {
            seq![data.subrange(j * size - 7, (j * size + 1) as int)]
        } else {
            seq![]
        };
        read_runs(data, size, j) + across + block_runs(block(data, size, j))
    }
}

/// The date offsets of runs of digits, in order.
pub open spec fn run_offsets(rs: Seq<Seq<u8>>) -> Seq<nat>
    decreases rs.len(),
{
    if rs.len() == 0 {
        seq![]
    } else {
        run_offsets(rs.drop_last()) + offset_of(digits_value(rs.last()))
    }
}

proof fn lemma_run_offsets_concat(a: Seq<Seq<u8>>, b: Seq<Seq<u8>>)
    ensures
        run_offsets(a + b) == run_offsets(a) + run_offsets(b),
    decreases b.len(),
{
    if b.len() == 0 {
        assert(a + b =~= a);
        assert(run_offsets(a) + run_offsets(b) =~= run_offsets(a));
    } else {
        assert((a + b).drop_last() =~= a + b.drop_last());
        lemma_run_offsets_concat(a, b.drop_last());
        let tail = offset_of(digits_value(b.last()));
        assert(run_offsets(a) + run_offsets(b.drop_last()) + tail =~= run_offsets(a) + (run_offsets(b.drop_last()) + tail));
    }
}

/// A run of eight digits is eight bytes of text without a `.`, and reads as
/// its value.
proof fn lemma_digit_run(run: Seq<u8>)
    requires
        run.len() == 8,
        all_digits(run),
    ensures
        is_date_text(chars_of(run)),
        parse_window(chars_of(run)) == Some(digits_value(run)),
{
    assert(is_ascii_bytes(run)) by {
        assert forall|i: int| 0 <= i < run.len() implies #[trigger] run[i] < 0x80 by {
            assert(is_digit(run[i]));
        }
    }
    lemma_ascii_text(run);
    assert(!run.contains(DOT)) by {
        if run.contains(DOT) {
            let i = choose|i: int| 0 <= i < run.len() && run[i] == DOT;
            assert(is_digit(run[i]));
        }
    }
    assert(run[0] != PLUS) by {
        assert(is_digit(run[0]));
    }
    lemma_digits_value_bound(run);
    lemma_pow10_values();
}

proof fn lemma_window_offsets_digits(rs: Seq<Seq<u8>>)
    requires
        forall|i: int| 0 <= i < rs.len() ==> (#[trigger] rs[i]).len() == 8 && all_digits(rs[i]),
    ensures
        window_offsets(rs.map_values(|r: Seq<u8>| chars_of(r))) == Some(run_offsets(rs)),
    decreases rs.len(),
{
    if rs.len() > 0 {
        let shorter = rs.drop_last();
        lemma_window_offsets_digits(shorter);
        assert(rs.map_values(|r: Seq<u8>| chars_of(r)).drop_last() =~= shorter.map_values(|r: Seq<u8>| chars_of(r)));
        lemma_digit_run(rs.last());
    }
}

proof fn lemma_digits_sub(data: Seq<u8>, lo: int, hi: int)
    requires
        all_digits(data),
        0 <= lo <= hi <= data.len(),
    ensures
        all_digits(data.subrange(lo, hi)),
{
    assert forall|i: int| 0 <= i < hi - lo implies is_digit(#[trigger] data.subrange(lo, hi)[i]) by {
        assert(data.subrange(lo, hi)[i] == data[lo + i]);
    }
}

proof fn lemma_single_run_offsets(r: Seq<u8>)
    ensures
        run_offsets(seq![r]) == offset_of(digits_value(r)),
{
    let rs = seq![r];
    assert(rs.len() == 1);
    assert(rs.last() == r);
    assert(rs.drop_last() =~= Seq::<Seq<u8>>::empty());
    assert(run_offsets(rs.drop_last()) == Seq::<nat>::empty());
    assert(run_offsets(rs) == run_offsets(rs.drop_last()) + offset_of(digits_value(r)));
    assert(Seq::<nat>::empty() + offset_of(digits_value(r)) =~= offset_of(digits_value(r)));
}

/// A block of digits is read without a fault, and its runs give their
/// offsets.
proof fn lemma_block_inner(c: Seq<u8>)
    requires
        all_digits(c),
    ensures
        scan_ok(c),
        window_offsets(chunk_dates(c)) == Some(run_offsets(block_runs(c))),
{
    lemma_window_and_rolling_agree(c);
    let runs = block_runs(c);
    assert forall|x: int| 0 <= x < runs.len() implies (#[trigger] runs[x]).len() == 8 && all_digits(runs[x]) by {
        lemma_digits_sub(c, x, x + 8);
    }
    lemma_window_offsets_digits(runs);
    assert(chunk_dates(c) =~= runs.map_values(|r: Seq<u8>| chars_of(r)));
}

/// At the border before block `j` of digits, the window left by the full
/// block before is its last seven bytes; with the first byte of block `j` it
/// makes the run across the border, which is read once.
proof fn lemma_carry_across(data: Seq<u8>, size: nat, j: nat, b: Seq<u8>, w: Seq<char>)
    requires
        all_digits(data),
        size >= 8,
        j >= 1,
        j * size < data.len(),
        b.len() == size,
        w == window(block(data, size, (j - 1) as nat), block(data, size, (j - 1) as nat).len()),
    ensures
        carry_offsets(w, block(data, size, j) + b.skip(block(data, size, j).len() as int)) == Some(
            offset_of(digits_value(data.subrange(j * size - 7, (j * size + 1) as int))),
        ),
{
    let len = data.len();
    let start: int = (j * size) as int;
    let i = (j - 1) as nat;
    assert(i * size + size == start) by (nonlinear_arith)
        requires
            start == j * size,
            i == j - 1,
    ;
    let c = block(data, size, j);
    let filled = c + b.skip(c.len() as int);
    let prev = block(data, size, i);
    assert(prev =~= data.subrange(start - size, start));
    lemma_digits_sub(data, start - size, start);
    assert(is_ascii_bytes(prev)) by {
        assert forall|x: int| 0 <= x < prev.len() implies #[trigger] prev[x] < 0x80 by {
            assert(is_digit(prev[x]));
        }
    }
    lemma_ascii_window_start(prev, prev.len());
    let tail = data.subrange(start - 7, start);
    assert(prev.subrange(size - 7, size as int) =~= tail);
    assert(w == chars_of(tail));
    lemma_ascii_subrange(data, start - 7, start);
    let run = data.subrange(start - 7, start + 1);
    assert(c[0] == data[start]);
    assert(filled.take(1) =~= data.subrange(start, start + 1));
    assert(w + chars_of(filled.take(1)) =~= chars_of(run));
    lemma_digits_sub(data, start - 7, start + 1);
    lemma_digit_run(run);
}

/// Where the block reading stands after `k` blocks of all-digit input: the
/// window left is that of the last block, and the offsets are those of the
/// runs read so far.
proof fn lemma_carry_run_digits(data: Seq<u8>, size: nat, k: nat)
    requires
        all_digits(data),
        size >= 8,
        k == 0 || (k - 1) * size < data.len(),
    ensures
        carry_run(data, size, k) matches Some(state) && {
            &&& state.0.len() == size
            &&& state.1 == if k == 0 {
                Seq::<char>::empty()
            } else {
                window(block(data, size, (k - 1) as nat), block(data, size, (k - 1) as nat).len())
            }
            &&& state.2 == run_offsets(read_runs(data, size, k))
        },
    decreases k,
{
    if k > 0 {
        let j = (k - 1) as nat;
        let len = data.len();
        assert(j == 0 || (j - 1) * size < len) by {
            if j > 0 {
                assert((j - 1) * size <= j * size) by (nonlinear_arith)
                    requires
                        j > 0,
                ;
            }
        }
        lemma_carry_run_digits(data, size, j);
        let state = carry_run(data, size, j)->0;
        let b = state.0;
        let w = state.1;
        let o = state.2;
        let start: int = (j * size) as int;
        let c = block(data, size, j);
        assert(start < block_end(len, size, j));
        lemma_digits_sub(data, start, block_end(len, size, j) as int);
        let filled = c + b.skip(c.len() as int);
        let across = if j >= 1 { seq![data.subrange(start - 7, start + 1)] } else { Seq::<Seq<u8>>::empty() };
        if j >= 1 {
            lemma_carry_across(data, size, j, b, w);
            lemma_single_run_offsets(data.subrange(start - 7, start + 1));
        } else {
            assert(run_offsets(across) =~= Seq::<nat>::empty());
        }
        assert(carry_offsets(w, filled) == Some(run_offsets(across)));
        lemma_block_inner(c);
        let runs = block_runs(c);
        lemma_run_offsets_concat(read_runs(data, size, j) + across, runs);
        lemma_run_offsets_concat(read_runs(data, size, j), across);
        assert(o + (run_offsets(across) + run_offsets(runs)) =~= run_offsets(read_runs(data, size, j)) + run_offsets(across) + run_offsets(runs));
    }
}

/// On input that is all digits, read in blocks of at least eight bytes, the
/// block reading never faults; it takes every run of eight bytes inside a
/// block, and at each border between blocks the one run that ends one byte
/// into the next block; its offsets are those of these runs that are dates.
pub proof fn lemma_carry_scan_on_digits(data: Seq<u8>, size: nat)
    requires
        all_digits(data),
        size >= 8,
    ensures
        carry_run(data, size, block_count(data.len(), size)) matches Some(state)
            && state.2 == run_offsets(read_runs(data, size, block_count(data.len(), size))),
{
    let n = block_count(data.len(), size);
    if n > 0 {
        lemma_block_count(data.len(), size, (n - 1) as nat);
    }
    lemma_carry_run_digits(data, size, n);
}

} // verus!
