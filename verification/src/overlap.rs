use vstd::arithmetic::div_mod::{lemma_fundamental_div_mod, lemma_mod_mod, lemma_mod_multiples_vanish};
use vstd::prelude::*;

use crate::rolling::{
    date_offsets_upto, digits_value, is_date_number, is_digit, lemma_number_is_last_eight_digits,
    number_after, spec_next_number, FIRST_DATE, OVERLAP, POWER_OF_TEN, ZERO,
};
use crate::validity::DOT;
use crate::window::{chars_of, chunk_dates, dated_runs, is_ascii_bytes, lemma_ascii_chunk, scan_ok};

verus! {

/// Ten to the power `k`.
pub open spec fn pow10(k: nat) -> nat
    decreases k,
{
    if k == 0 {
        1
    } else {
        10 * pow10((k - 1) as nat)
    }
}

/// The powers of ten that the proofs below use.
pub(crate) proof fn lemma_pow10_values()
    ensures
        pow10(1) == 10,
        pow10(7) == POWER_OF_TEN,
        pow10(8) == 100_000_000,
{
    reveal_with_fuel(pow10, 9);
}

proof fn lemma_pow10_add(a: nat, b: nat)
    ensures
        pow10(a + b) == pow10(a) * pow10(b),
        pow10(a) > 0,
    decreases a,
{
    if a > 0 {
        lemma_pow10_add((a - 1) as nat, b);
        assert(pow10(a + b) == 10 * pow10((a - 1 + b) as nat));
        let p = pow10((a - 1) as nat);
        let q = pow10(b);
        assert(pow10(a) == 10 * p);
        assert(pow10((a - 1 + b) as nat) == p * q);
        assert(10 * (p * q) == (10 * p) * q) by (nonlinear_arith);
        assert(10 * p > 0);
    } else {
        assert(pow10(a + b) == pow10(b));
        assert(pow10(a) == 1);
    }
}

/// The number that `start` becomes when the bytes of `t` are read into it.
pub open spec fn roll(start: nat, t: Seq<u8>) -> nat
    decreases t.len(),
{
    if t.len() == 0 {
        start
    } else {
        spec_next_number(roll(start, t.drop_last()), t.last())
    }
}

/// All bytes of `t` are decimal digits.
pub open spec fn all_digits(t: Seq<u8>) -> bool {
    forall|i: int| 0 <= i < t.len() ==> is_digit(#[trigger] t[i])
}

proof fn lemma_roll_concat(start: nat, a: Seq<u8>, b: Seq<u8>)
    ensures
        roll(start, a + b) == roll(roll(start, a), b),
    decreases b.len(),
{
    if b.len() == 0 {
        assert(a + b =~= a);
    } else {
        assert((a + b).drop_last() =~= a + b.drop_last());
        lemma_roll_concat(start, a, b.drop_last());
    }
}

proof fn lemma_number_after_is_roll(s: Seq<u8>, n: nat)
    requires
        n <= s.len(),
    ensures
        number_after(s, n) == roll(0, s.take(n as int)),
    decreases n,
{
    if n > 0 {
        lemma_number_after_is_roll(s, (n - 1) as nat);
        assert(s.take(n as int).drop_last() =~= s.take(n - 1));
    }
}

/// Appending a digit: `(a * 10 + d) mod 10m` only depends on `a mod m`.
proof fn lemma_shift_mod(a: nat, d: nat, m: nat)
    requires
        m > 0,
    ensures
        (a * 10 + d) % (m * 10) == ((a % m) * 10 + d) % (m * 10),
{
    lemma_fundamental_div_mod(a as int, m as int);
    let q = a / m;
    let r = a % m;
    assert(a * 10 + d == (m * 10) * q + (r * 10 + d)) by (nonlinear_arith)
        requires
            a == m * q + r,
    ;
    lemma_mod_multiples_vanish(q as int, (r * 10 + d) as int, (m * 10) as int);
}

/// After one digit, the number modulo `10^(k+1)` only depends on the number
/// before modulo `10^k`.
proof fn lemma_step_mod(x: nat, y: nat, b: u8, k: nat)
    requires
        k <= 7,
        is_digit(b),
        x % pow10(k) == y % pow10(k),
    ensures
        spec_next_number(x, b) % pow10(k + 1) == spec_next_number(y, b) % pow10(k + 1),
{
    lemma_pow10_add(k, (7 - k) as nat);
    lemma_pow10_values();
    let m = pow10(k);
    let rest = pow10((7 - k) as nat);
    assert(pow10(k + 1) == m * 10) by {
        lemma_pow10_add(k, 1);
    }
    lemma_pow10_add((7 - k) as nat, 0);
    lemma_mod_mod(x as int, m as int, rest as int);
    lemma_mod_mod(y as int, m as int, rest as int);
    let d = (b - ZERO) as nat;
    lemma_shift_mod(x % (POWER_OF_TEN as nat), d, m);
    lemma_shift_mod(y % (POWER_OF_TEN as nat), d, m);
}

/// Reading `k` digits (up to 8) into any two numbers gives numbers that
/// agree modulo `10^k`.
proof fn lemma_roll_forgets(x: nat, y: nat, t: Seq<u8>)
    requires
        t.len() <= 8,
        all_digits(t),
    ensures
        roll(x, t) % pow10(t.len()) == roll(y, t) % pow10(t.len()),
    decreases t.len(),
{
    if t.len() == 0 {
        assert(pow10(0) == 1);
    } else {
        let before = t.drop_last();
        assert(all_digits(before));
        lemma_roll_forgets(x, y, before);
        lemma_step_mod(roll(x, before), roll(y, before), t.last(), before.len());
    }
}

/// A number read from 0 through fewer than eight digits has fewer digits
/// than were read.
proof fn lemma_roll_small(t: Seq<u8>)
    requires
        t.len() <= 7,
        all_digits(t),
    ensures
        roll(0, t) < pow10(t.len()),
    decreases t.len(),
{
    if t.len() > 0 {
        let before = t.drop_last();
        lemma_roll_small(before);
        lemma_pow10_add(before.len(), (7 - before.len()) as nat);
        lemma_pow10_values();
        let v = roll(0, before);
        lemma_pow10_add((7 - before.len()) as nat, 0);
        let lo = pow10(before.len());
        let hi = pow10((7 - before.len()) as nat);
        assert(lo * hi >= lo) by (nonlinear_arith)
            requires
                hi > 0,
                lo > 0,
        ;
        assert(v % (POWER_OF_TEN as nat) == v) by {
            vstd::arithmetic::div_mod::lemma_small_mod(v, POWER_OF_TEN as nat);
        }
        assert(pow10(t.len()) == 10 * pow10(before.len()));
    }
}

/// After a digit the number is below 10^8.
proof fn lemma_roll_bound(start: nat, t: Seq<u8>)
    requires
        t.len() > 0,
        is_digit(t.last()),
    ensures
        roll(start, t) < 100_000_000,
{
    let v = roll(start, t.drop_last());
    assert(v % (POWER_OF_TEN as nat) < POWER_OF_TEN);
}

/// Reading eight or more digits into any two numbers gives the same number.
proof fn lemma_roll_forgets_all(x: nat, y: nat, t: Seq<u8>)
    requires
        t.len() >= 8,
        all_digits(t),
    ensures
        roll(x, t) == roll(y, t),
{
    let cut = t.len() - 8;
    let a = t.take(cut);
    let b = t.skip(cut);
    assert(t =~= a + b);
    lemma_roll_concat(x, a, b);
    lemma_roll_concat(y, a, b);
    assert(all_digits(b));
    lemma_roll_forgets(roll(x, a), roll(y, a), b);
    lemma_pow10_values();
    lemma_roll_bound(roll(x, a), b);
    lemma_roll_bound(roll(y, a), b);
    vstd::arithmetic::div_mod::lemma_small_mod(roll(roll(x, a), b), 100_000_000);
    vstd::arithmetic::div_mod::lemma_small_mod(roll(roll(y, a), b), 100_000_000);
}

proof fn lemma_pow10_small(m: nat)
    requires
        m <= 7,
    ensures
        pow10(m) <= POWER_OF_TEN,
{
    lemma_pow10_add(m, (7 - m) as nat);
    lemma_pow10_add((7 - m) as nat, 0);
    let lo = pow10(m);
    let hi = pow10((7 - m) as nat);
    assert(lo * hi >= lo) by (nonlinear_arith)
        requires
            hi > 0,
            lo > 0,
    ;
    lemma_pow10_values();
}

/// Where chunk `i` ends: `OVERLAP` bytes into the next chunk, or at the end
/// of the input.
pub open spec fn overlapped_end(len: nat, size: nat, i: nat) -> nat {
    if i * size + size + OVERLAP < len {
        (i * size + size + OVERLAP) as nat
    } else {
        len
    }
}

/// Chunk `i` of `data` for chunks of `size` bytes that reach `OVERLAP` bytes
/// into the next.
pub open spec fn overlapped_chunk(data: Seq<u8>, size: nat, i: nat) -> Seq<u8> {
    data.subrange((i * size) as int, overlapped_end(data.len(), size, i) as int)
}

/// The date offsets of the first `k` overlapping chunks, each read from 0,
/// chunk after chunk.
pub open spec fn overlapped_offsets(data: Seq<u8>, size: nat, k: nat) -> Seq<nat>
    decreases k,
{
    if k == 0 {
        seq![]
    } else {
        let c = overlapped_chunk(data, size, (k - 1) as nat);
        overlapped_offsets(data, size, (k - 1) as nat) + date_offsets_upto(c, c.len())
    }
}

/// The date offsets of `data` read in one go, for the numbers after byte
/// counts `lo + 1` to `hi`.
pub open spec fn offsets_between(data: Seq<u8>, lo: nat, hi: nat) -> Seq<nat>
    decreases hi,
{
    if hi <= lo {
        seq![]
    } else {
        let number = number_after(data, hi);
        let before = offsets_between(data, lo, (hi - 1) as nat);
        if is_date_number(number) {
            before.push((number - FIRST_DATE) as nat)
        } else {
            before
        }
    }
}

proof fn lemma_offsets_split(data: Seq<u8>, lo: nat, hi: nat)
    requires
        lo <= hi,
    ensures
        date_offsets_upto(data, hi) == date_offsets_upto(data, lo) + offsets_between(data, lo, hi),
    decreases hi,
{
    if hi == lo {
        assert(date_offsets_upto(data, hi) =~= date_offsets_upto(data, lo) + Seq::<nat>::empty());
    } else {
        lemma_offsets_split(data, lo, (hi - 1) as nat);
        let a = date_offsets_upto(data, lo);
        let b = offsets_between(data, lo, (hi - 1) as nat);
        let number = number_after(data, hi);
        if is_date_number(number) {
            assert((a + b).push((number - FIRST_DATE) as nat) =~= a + b.push((number - FIRST_DATE) as nat));
        }
    }
}

/// Fewer than eight digits read from 0 never make a date.
proof fn lemma_short_no_dates(data: Seq<u8>, n: nat)
    requires
        n <= 7,
        n <= data.len(),
        all_digits(data),
    ensures
        date_offsets_upto(data, n) == Seq::<nat>::empty(),
    decreases n,
{
    if n > 0 {
        lemma_short_no_dates(data, (n - 1) as nat);
        lemma_number_after_is_roll(data, n);
        let t = data.take(n as int);
        assert(all_digits(t));
        lemma_roll_small(t);
        lemma_pow10_small(n);
    }
}

/// In a chunk that starts at `start`, once eight digits were read the
/// number is the one of the whole input.
proof fn lemma_chunk_number(data: Seq<u8>, start: nat, end: nat, m: nat)
    requires
        start <= end <= data.len(),
        8 <= m <= end - start,
        all_digits(data),
    ensures
        number_after(data.subrange(start as int, end as int), m) == number_after(data, start + m),
{
    let c = data.subrange(start as int, end as int);
    lemma_number_after_is_roll(c, m);
    lemma_number_after_is_roll(data, start + m);
    let head = data.take(start as int);
    let piece = data.subrange(start as int, (start + m) as int);
    assert(c.take(m as int) =~= piece);
    assert(data.take((start + m) as int) =~= head + piece);
    lemma_roll_concat(0, head, piece);
    assert(all_digits(piece));
    lemma_roll_forgets_all(0, roll(0, head), piece);
}

/// The date offsets of a chunk read from 0 are those of the whole input
/// after its first seven bytes.
proof fn lemma_chunk_offsets(data: Seq<u8>, start: nat, end: nat, m: nat)
    requires
        start <= end <= data.len(),
        m <= end - start,
        all_digits(data),
    ensures
        date_offsets_upto(data.subrange(start as int, end as int), m) == if m <= 7 {
            Seq::<nat>::empty()
        } else {
            offsets_between(data, start + 7, start + m)
        },
    decreases m,
{
    let c = data.subrange(start as int, end as int);
    assert(all_digits(c));
    if m <= 7 {
        lemma_short_no_dates(c, m);
    } else {
        lemma_chunk_offsets(data, start, end, (m - 1) as nat);
        lemma_chunk_number(data, start, end, m);
        let hi = (start + m) as nat;
        let lo = (start + 7) as nat;
        assert(((hi - 1) as nat) == start + (m - 1));
        if m == 8 {
            assert(offsets_between(data, lo, (hi - 1) as nat) == Seq::<nat>::empty());
        }
        assert(offsets_between(data, lo, (hi - 1) as nat) == date_offsets_upto(c, (m - 1) as nat));
    }
}

proof fn lemma_overlapped_offsets_prefix(data: Seq<u8>, size: nat, k: nat)
    requires
        size > 0,
        all_digits(data),
        k == 0 || (k - 1) * size < data.len(),
    ensures
        overlapped_offsets(data, size, k) == date_offsets_upto(
            data,
            if k == 0 { 0 } else { overlapped_end(data.len(), size, (k - 1) as nat) },
        ),
    decreases k,
{
    if k > 0 {
        let i = (k - 1) as nat;
        let len = data.len();
        let start = i * size;
        let end = overlapped_end(len, size, i);
        assert(i == 0 || (i - 1) * size < len) by {
            if i > 0 {
                assert((i - 1) * size <= i * size) by (nonlinear_arith)
                    requires
                        i > 0,
                        size > 0,
                ;
            }
        }
        lemma_overlapped_offsets_prefix(data, size, i);
        let reached = if i == 0 { 0 } else { overlapped_end(len, size, (i - 1) as nat) };
        assert(i == 0 || (i - 1) * size + size == start) by (nonlinear_arith)
            requires
                start == i * size,
        ;
        let c = overlapped_chunk(data, size, i);
        assert(start < end);
        assert(c.len() == end - start);
        lemma_chunk_offsets(data, start, end, (end - start) as nat);
        let local = date_offsets_upto(c, c.len());
        assert(overlapped_offsets(data, size, k) == date_offsets_upto(data, reached) + local);
        if end - start <= 7 {
            assert(end == len);
            assert(local == Seq::<nat>::empty());
            if i == 0 {
                lemma_short_no_dates(data, len);
                assert(date_offsets_upto(data, 0) == Seq::<nat>::empty());
            } else {
                assert(reached == len);
            }
            assert(date_offsets_upto(data, reached) + local =~= date_offsets_upto(data, end));
        } else {
            assert(local == offsets_between(data, start + 7, end));
            if i == 0 {
                lemma_short_no_dates(data, 7);
                lemma_offsets_split(data, 7, end);
                assert(date_offsets_upto(data, 0) == Seq::<nat>::empty());
                assert(date_offsets_upto(data, reached) + local =~= date_offsets_upto(data, end));
            } else {
                assert(reached == start + 7);
                lemma_offsets_split(data, (start + 7) as nat, end);
            }
        }
    }
}

/// However the input is cut into chunks that reach `OVERLAP` bytes into the
/// next, when the input is all digits, reading each chunk from 0 and
/// putting the date offsets of the chunks together in chunk order gives
/// exactly the date offsets of the whole input read in one go: every
/// eight-digit window is taken once, by one chunk.
pub proof fn lemma_overlapped_chunks_find_every_date(data: Seq<u8>, size: nat)
    requires
        size > 0,
        all_digits(data),
    ensures
        overlapped_offsets(data, size, ((data.len() + size - 1) / (size as int)) as nat)
            == date_offsets_upto(data, data.len()),
{
    let len = data.len();
    let n = ((len + size - 1) / (size as int)) as nat;
    if n > 0 {
        assert((n - 1) * size < len && n * size >= len) by (nonlinear_arith)
            requires
                n == (len + size - 1) / (size as int),
                n > 0,
                size > 0,
        ;
        lemma_overlapped_offsets_prefix(data, size, n);
        assert((n - 1) * size + size == n * size) by (nonlinear_arith);
        assert(overlapped_end(len, size, (n - 1) as nat) == len);
    } else {
        lemma_fundamental_div_mod(len + size - 1, size as int);
        vstd::arithmetic::div_mod::lemma_mod_pos_bound(len + size - 1, size as int);
        vstd::arithmetic::div_mod::lemma_div_pos_is_pos(len + size - 1, size as int);
        let x = len + size - 1;
        assert(x / (size as int) == 0);
        assert((size as int) * (x / (size as int)) == 0) by (nonlinear_arith)
            requires
                x / (size as int) == 0,
        ;
        assert(len == 0);
    }
}

pub(crate) proof fn lemma_digits_value_bound(t: Seq<u8>)
    requires
        all_digits(t),
    ensures
        digits_value(t) < pow10(t.len()),
    decreases t.len(),
{
    if t.len() > 0 {
        let before = t.drop_last();
        assert(all_digits(before));
        lemma_digits_value_bound(before);
        assert(is_digit(t.last()));
        assert(t.last() != DOT);
    }
}

/// On digits, the rolling number after byte count `n` (from 8 on) is the
/// value of the eight digits `chunk[n - 8..n]`.
pub proof fn lemma_number_is_run_value(chunk: Seq<u8>, n: nat)
    requires
        all_digits(chunk),
        8 <= n <= chunk.len(),
    ensures
        number_after(chunk, n) == digits_value(chunk.subrange(n - 8, n as int)),
{
    let head = chunk.take(n - 8);
    let run = chunk.subrange(n - 8, n as int);
    lemma_number_after_is_roll(chunk, n);
    assert(chunk.take(n as int) =~= head + run);
    lemma_roll_concat(0, head, run);
    assert(all_digits(run));
    lemma_roll_forgets_all(roll(0, head), 0, run);
    lemma_number_after_is_roll(run, 8);
    assert(run.take(8) =~= run);
    assert forall|i: int| 0 <= i < 8 implies run[i] == DOT || is_digit(#[trigger] run[i]) by {}
    lemma_number_is_last_eight_digits(run, 8);
    lemma_digits_value_bound(run);
    lemma_pow10_values();
    vstd::arithmetic::div_mod::lemma_small_mod(digits_value(run), 100_000_000);
}

/// The runs of eight bytes `chunk[i..i + 8]`, as characters, for every `i`.
pub open spec fn all_runs(chunk: Seq<u8>) -> Seq<Seq<char>> {
    Seq::new(
        if chunk.len() >= 8 { (chunk.len() - 7) as nat } else { 0 },
        |i: int| chars_of(chunk.subrange(i, i + 8)),
    )
}

proof fn lemma_digit_runs(chunk: Seq<u8>, n: nat)
    requires
        all_digits(chunk),
        n <= chunk.len(),
    ensures
        dated_runs(chunk, n) == all_runs(chunk.take(n as int)),
    decreases n,
{
    if n >= 8 {
        lemma_digit_runs(chunk, (n - 1) as nat);
        let run = chunk.subrange(n - 8, n as int);
        assert(!run.contains(DOT)) by {
            if run.contains(DOT) {
                let i = choose|i: int| 0 <= i < run.len() && run[i] == DOT;
                assert(is_digit(chunk[n - 8 + i]));
            }
        }
        let shorter = chunk.take(n - 1);
        let longer = chunk.take(n as int);
        assert(all_runs(longer) =~= all_runs(shorter).push(chars_of(run))) by {
            assert forall|i: int| 0 <= i < all_runs(shorter).len() implies
                #[trigger] chars_of(longer.subrange(i, i + 8)) == chars_of(shorter.subrange(i, i + 8)) by {
                assert(longer.subrange(i, i + 8) =~= shorter.subrange(i, i + 8));
            }
            assert(longer.subrange(n - 8, n as int) =~= run);
        }
    } else {
        assert(all_runs(chunk.take(n as int)) =~= Seq::<Seq<char>>::empty());
    }
}

/// On digits, the two ways of reading agree: the sliding window of text
/// meets every run of eight bytes, in order, and never faults; and after the
/// last byte of each run, the rolling number is that run's value.
pub proof fn lemma_window_and_rolling_agree(chunk: Seq<u8>)
    requires
        all_digits(chunk),
    ensures
        scan_ok(chunk),
        chunk_dates(chunk) == all_runs(chunk),
        forall|n: nat| 8 <= n <= chunk.len() ==>
            #[trigger] number_after(chunk, n) == digits_value(chunk.subrange(n - 8, n as int)),
{
    assert(is_ascii_bytes(chunk)) by {
        assert forall|i: int| 0 <= i < chunk.len() implies #[trigger] chunk[i] < 0x80 by {
            assert(is_digit(chunk[i]));
        }
    }
    lemma_ascii_chunk(chunk);
    lemma_digit_runs(chunk, chunk.len());
    assert(chunk.take(chunk.len() as int) =~= chunk);
    assert forall|n: nat| 8 <= n <= chunk.len() implies
        #[trigger] number_after(chunk, n) == digits_value(chunk.subrange(n - 8, n as int)) by {
        lemma_number_is_run_value(chunk, n);
    }
}

} // verus!
