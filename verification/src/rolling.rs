use vstd::prelude::*;

use crate::overlap::overlapped_end;
use crate::validity::DOT;

verus! {

/// The byte `0`; a digit byte `b` stands for `b - ZERO`.
pub const ZERO: u8 = 48;

/// Ten to the seventh: taking a number modulo this keeps its last seven
/// digits.
pub const POWER_OF_TEN: usize = 10_000_000;

/// The first eight-digit number taken for a date: 1900-01-01.
pub const FIRST_DATE: usize = 19_000_000;

/// The first eight-digit number past the dates: 2100-01-01.
pub const DATE_END: usize = 21_000_000;

/// The rolling number can take `byte` without an arithmetic fault: it is a
/// `.`, which is skipped, or at least `0`.
pub open spec fn can_roll(byte: u8) -> bool {
    byte == DOT || byte >= ZERO
}

/// The number after `byte` is read: a `.` leaves it as it is; another byte
/// drops the leading digit of an eight-digit number and appends the byte as
/// the last digit.
pub open spec fn spec_next_number(number: nat, byte: u8) -> nat {
    if byte == DOT {
        number
    } else {
        ((number % (POWER_OF_TEN as nat)) * 10 + (byte - ZERO)) as nat
    }
}

/// The number after the first `n` bytes of `chunk` were read, from 0.
pub open spec fn number_after(chunk: Seq<u8>, n: nat) -> nat
    decreases n,
{
    if n == 0 {
        0
    } else {
        spec_next_number(number_after(chunk, (n - 1) as nat), chunk[n - 1])
    }
}

/// After any byte but a `.`, the rolling number is below this bound.
pub open spec fn number_bound() -> nat {
    100_000_256
}

/// Reads one byte into the rolling number.
pub fn next_number(number: usize, byte: u8) -> (next: usize)
    requires
        can_roll(byte),
    ensures
        next == spec_next_number(number as nat, byte),
        next < number_bound() || (byte == DOT && next == number),
{
    let mut number = number;
    if byte != DOT {
        proof {
            vstd::arithmetic::div_mod::lemma_fundamental_div_mod(number as int, POWER_OF_TEN as int);
        }
        number -= (number / POWER_OF_TEN) * POWER_OF_TEN;
        number = number * 10 + (byte - ZERO) as usize;
    }
    number
}

/// `byte` is a decimal digit.
pub open spec fn is_digit(byte: u8) -> bool {
    ZERO <= byte <= ZERO + 9
}

/// The value of the decimal digits among `bytes`, `.`s skipped.
pub open spec fn digits_value(bytes: Seq<u8>) -> nat
    decreases bytes.len(),
{
    if bytes.len() == 0 {
        0
    } else {
        let before = digits_value(bytes.drop_last());
        if bytes.last() == DOT {
            before
        } else {
            before * 10 + (bytes.last() - ZERO) as nat
        }
    }
}

proof fn lemma_roll_is_mod(v: nat, d: nat)
    requires
        d < 10,
    ensures
        ((v % 100_000_000) % 10_000_000) * 10 + d == (v * 10 + d) % 100_000_000,
{
    vstd::arithmetic::div_mod::lemma_mod_mod(v as int, 10_000_000, 10);
    let r = v % 10_000_000;
    let q = v / 10_000_000;
    vstd::arithmetic::div_mod::lemma_fundamental_div_mod(v as int, 10_000_000);
    assert(v * 10 + d == q * 100_000_000 + (r * 10 + d)) by (nonlinear_arith)
        requires
            v == 10_000_000 * q + r,
    ;
    vstd::arithmetic::div_mod::lemma_fundamental_div_mod_converse_mod(
        (v * 10 + d) as int,
        100_000_000,
        q as int,
        (r * 10 + d) as int,
    );
}

/// On bytes that are digits or `.`s, the rolling number is the value of the
/// digits read so far modulo 10^8: the number their last eight digits make.
pub proof fn lemma_number_is_last_eight_digits(chunk: Seq<u8>, n: nat)
    requires
        n <= chunk.len(),
        forall|i: int| 0 <= i < n ==> chunk[i] == DOT || is_digit(#[trigger] chunk[i]),
    ensures
        number_after(chunk, n) == digits_value(chunk.take(n as int)) % 100_000_000,
    decreases n,
{
    if n > 0 {
        lemma_number_is_last_eight_digits(chunk, (n - 1) as nat);
        assert(chunk.take(n as int).drop_last() =~= chunk.take(n - 1));
        let v = digits_value(chunk.take(n - 1));
        let b = chunk[n - 1];
        if b != DOT {
            assert(is_digit(b));
            lemma_roll_is_mod(v, (b - ZERO) as nat);
        } else {
            assert(number_after(chunk, n) == number_after(chunk, (n - 1) as nat));
        }
    }
}

/// A rolling number is taken for a date when it lies in
/// `FIRST_DATE..DATE_END`.
pub open spec fn is_date_number(number: nat) -> bool {
    FIRST_DATE <= number < DATE_END
}

/// For each byte of the first `n` of `chunk` after which the rolling number
/// is a date, the number's offset from `FIRST_DATE`, in order.
pub open spec fn date_offsets_upto(chunk: Seq<u8>, n: nat) -> Seq<nat>
    decreases n,
{
    if n == 0 {
        seq![]
    } else {
        let number = number_after(chunk, n);
        if is_date_number(number) {
            date_offsets_upto(chunk, (n - 1) as nat).push((number - FIRST_DATE) as nat)
        } else {
            date_offsets_upto(chunk, (n - 1) as nat)
        }
    }
}

/// Every offset kept after the first `n` bytes of `chunk` is that of a
/// rolling number from 1900-01-01 (19000000) up to, not including,
/// 2100-01-01 (21000000), met after one of those bytes; and every byte after
/// which the number lies in that range has its offset kept.
pub proof fn lemma_date_offsets_are_in_the_date_range(chunk: Seq<u8>, n: nat)
    ensures
        forall|k: int| 0 <= k < date_offsets_upto(chunk, n).len() ==> {
            let o = #[trigger] date_offsets_upto(chunk, n)[k];
            &&& o < 2_000_000
            &&& exists|i: nat| 1 <= i <= n && #[trigger] number_after(chunk, i) == 19_000_000 + o
        },
        forall|i: nat| 1 <= i <= n && 19_000_000 <= #[trigger] number_after(chunk, i) < 21_000_000
            ==> date_offsets_upto(chunk, n).contains((number_after(chunk, i) - 19_000_000) as nat),
    decreases n,
{
    if n > 0 {
        let m = (n - 1) as nat;
        lemma_date_offsets_are_in_the_date_range(chunk, m);
        let before = date_offsets_upto(chunk, m);
        let all = date_offsets_upto(chunk, n);
        let number = number_after(chunk, n);
        assert forall|k: int| 0 <= k < all.len() implies {
            let o = #[trigger] all[k];
            &&& o < 2_000_000
            &&& exists|i: nat| 1 <= i <= n && #[trigger] number_after(chunk, i) == 19_000_000 + o
        } by {
            if k < before.len() {
                assert(all[k] == before[k]);
                let o = before[k];
                let i = choose|i: nat| 1 <= i <= m && #[trigger] number_after(chunk, i) == 19_000_000 + o;
                assert(number_after(chunk, i) == 19_000_000 + o);
            } else {
                assert(all[k] == number - FIRST_DATE);
                assert(number_after(chunk, n) == 19_000_000 + all[k]);
            }
        }
        assert forall|i: nat| 1 <= i <= n && 19_000_000 <= #[trigger] number_after(chunk, i) < 21_000_000
            implies all.contains((number_after(chunk, i) - 19_000_000) as nat) by {
            let o = (number_after(chunk, i) - 19_000_000) as nat;
            if i < n {
                let k = choose|k: int| 0 <= k < before.len() && before[k] == o;
                assert(all[k] == o);
            } else {
                assert(all[all.len() - 1] == o);
            }
        }
    }
}

/// The first `n` bytes of `chunk` can all be rolled.
pub open spec fn rolls_upto(chunk: Seq<u8>, n: nat) -> bool {
    forall|i: int| 0 <= i < n ==> can_roll(#[trigger] chunk[i])
}

/// Reads `chunk` into a rolling number from 0 and returns the number after
/// each byte; or the index of the first byte that cannot be read (a byte
/// below `0` other than `.`).
pub fn chunk_numbers(chunk: &[u8]) -> (res: Result<Vec<usize>, usize>)
    ensures
        match res {
            Ok(numbers) => {
                &&& rolls_upto(chunk@, chunk@.len())
                &&& numbers@.len() == chunk@.len()
                &&& forall|i: int| 0 <= i < numbers@.len() ==> #[trigger] numbers@[i] == number_after(chunk@, (i + 1) as nat)
            },
            Err(i) => {
                &&& i < chunk@.len()
                &&& !can_roll(chunk@[i as int])
                &&& rolls_upto(chunk@, i as nat)
            },
        },
{
    let mut numbers: Vec<usize> = Vec::new();
    let mut number: usize = 0;
    let mut i: usize = 0;
    while i < chunk.len()
        invariant
            i <= chunk@.len(),
            number == number_after(chunk@, i as nat),
            rolls_upto(chunk@, i as nat),
            numbers@.len() == i,
            forall|j: int| 0 <= j < i ==> #[trigger] numbers@[j] == number_after(chunk@, (j + 1) as nat),
        decreases chunk@.len() - i,
    {
        let byte = chunk[i];
        if !(byte == DOT || byte >= ZERO) {
            return Err(i);
        }
        number = next_number(number, byte);
        numbers.push(number);
        i += 1;
    }
    Ok(numbers)
}

/// Reads `chunk` into a rolling number from 0 and returns, for each byte
/// after which the number is a date, its offset from `FIRST_DATE`; or the
/// index of the first byte that cannot be read.
pub fn chunk_date_offsets(chunk: &[u8]) -> (res: Result<Vec<usize>, usize>)
    ensures
        match res {
            Ok(offsets) => {
                &&& rolls_upto(chunk@, chunk@.len())
                &&& offsets@.map_values(|o: usize| o as nat) == date_offsets_upto(chunk@, chunk@.len())
                &&& forall|k: int| 0 <= k < offsets@.len() ==> #[trigger] offsets@[k] < DATE_END - FIRST_DATE
            },
            Err(i) => {
                &&& i < chunk@.len()
                &&& !can_roll(chunk@[i as int])
                &&& rolls_upto(chunk@, i as nat)
            },
        },
{
    let mut offsets: Vec<usize> = Vec::new();
    let mut number: usize = 0;
    let mut i: usize = 0;
    while i < chunk.len()
        invariant
            i <= chunk@.len(),
            number == number_after(chunk@, i as nat),
            rolls_upto(chunk@, i as nat),
            offsets@.map_values(|o: usize| o as nat) == date_offsets_upto(chunk@, i as nat),
        decreases chunk@.len() - i,
    {
        let byte = chunk[i];
        if !(byte == DOT || byte >= ZERO) {
            return Err(i);
        }
        number = next_number(number, byte);
        if number >= FIRST_DATE && number < DATE_END {
            offsets.push(number - FIRST_DATE);
        }
        assert(offsets@.map_values(|o: usize| o as nat) =~= date_offsets_upto(chunk@, (i + 1) as nat));
        i += 1;
    }
    proof {
        lemma_date_offsets_are_in_the_date_range(chunk@, chunk@.len());
        assert forall|k: int| 0 <= k < offsets@.len() implies #[trigger] offsets@[k] < DATE_END - FIRST_DATE by {
            assert(offsets@.map_values(|o: usize| o as nat)[k] == offsets@[k] as nat);
        }
    }
    Ok(offsets)
}

/// The size of the chunks read in parallel: 16 MiB.
pub const CHUNK_SIZE: usize = 16 * 1024 * 1024;

/// How far each chunk reaches into the next: one window of eight bytes,
/// less one.
pub const OVERLAP: usize = 7;

/// The number of chunks of `chunk_size` bytes that cover `len` bytes, the
/// last one possibly shorter.
pub fn overlapped_chunk_count(len: usize, chunk_size: usize) -> (n: usize)
    requires
        chunk_size > 0,
        len + chunk_size <= usize::MAX,
    ensures
        n == (len + chunk_size - 1) / (chunk_size as int),
{
    (len + chunk_size - 1) / chunk_size
}

proof fn lemma_overlapped_start(index: nat, size: nat, len: nat)
    requires
        size > 0,
        index < (len + size - 1) / (size as int),
    ensures
        index * size < len,
        index * size + size <= len + size - 1,
{
    assert(index * size + size <= ((len + size - 1) / (size as int)) * size) by (nonlinear_arith)
        requires
            index < (len + size - 1) / (size as int),
            size > 0,
    ;
    assert(((len + size - 1) / (size as int)) * size <= len + size - 1) by (nonlinear_arith)
        requires
            size > 0,
            len + size - 1 >= 0,
    ;
}

/// Where chunk `index` starts and ends: at `index * chunk_size`, and
/// `OVERLAP` bytes into the next chunk unless the input ends first.
pub fn overlapped_chunk_bounds(index: usize, chunk_size: usize, len: usize) -> (bounds: (usize, usize))
    requires
        chunk_size > 0,
        index < (len + chunk_size - 1) / (chunk_size as int),
        len + chunk_size + OVERLAP <= usize::MAX,
    ensures
        bounds.0 == index * chunk_size,
        bounds.1 == overlapped_end(len as nat, chunk_size as nat, index as nat),
        bounds.0 < bounds.1,
{
    proof {
        lemma_overlapped_start(index as nat, chunk_size as nat, len as nat);
        assert((index + 1) * chunk_size == index * chunk_size + chunk_size) by (nonlinear_arith);
    }
    let start = index * chunk_size;
    let reach = (index + 1) * chunk_size + OVERLAP;
    let end = if reach < len { reach } else { len };
    (start, end)
}

} // verus!
