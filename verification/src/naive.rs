use vstd::prelude::*;

use crate::rolling::{is_date_number, DATE_END, FIRST_DATE, POWER_OF_TEN, ZERO};

verus! {

/// The value `byte - b'0'`, which may be negative.
pub open spec fn digit_of(byte: u8) -> int {
    byte as int - ZERO as int
}

/// One byte `i` of the running-subtraction reading: the number is shifted by
/// a digit and the new byte added; from byte 8 on, the byte eight places back
/// times 10^7 is taken off. `None` on an arithmetic fault: a byte below `0`,
/// a result above `usize::MAX`, or below zero.
pub open spec fn subtract_step(data: Seq<u8>, i: nat, number: nat) -> Option<nat> {
    let d = digit_of(data[i as int]);
    let grown = number * 10 + d;
    if d < 0 || number * 10 > usize::MAX || grown > usize::MAX {
        None
    } else if i >= 8 {
        let left = digit_of(data[i - 8]);
        let shrunk = grown - left * POWER_OF_TEN;
        if left < 0 || shrunk < 0 {
            None
        } else {
            Some(shrunk as nat)
        }
    } else {
        Some(grown as nat)
    }
}

/// The number and the date offsets after the first `n` bytes of the
/// running-subtraction reading; from byte 7 on, a number in the date range
/// gives its offset from `FIRST_DATE`. `None` once a byte faulted.
pub open spec fn subtract_run(data: Seq<u8>, n: nat) -> Option<(nat, Seq<nat>)>
    decreases n,
{
    if n == 0 {
        Some((0, seq![]))
    } else {
        match subtract_run(data, (n - 1) as nat) {
            None => None,
            Some((number, offsets)) => match subtract_step(data, (n - 1) as nat, number) {
                None => None,
                Some(next) => Some(
                    (
                        next,
                        if n - 1 >= 7 && is_date_number(next) {
                            offsets.push((next - FIRST_DATE) as nat)
                        } else {
                            offsets
                        },
                    ),
                ),
            },
        }
    }
}

/// Reads `data` into a number that is shifted by one digit per byte, and,
/// from byte 8 on, loses the byte eight places back times 10^7; from byte 7
/// on, a number in the date range is kept as its offset from `FIRST_DATE`.
/// Returns the offsets, or the index of the first byte whose arithmetic
/// faults.
pub fn subtract_offsets(data: &[u8]) -> (res: Result<Vec<usize>, usize>)
    ensures
        match res {
            Ok(offsets) => (subtract_run(data@, data@.len()) matches Some((_, o))
                && offsets@.map_values(|x: usize| x as nat) == o),
            Err(i) => {
                &&& i < data@.len()
                &&& subtract_run(data@, i as nat) is Some
                &&& subtract_run(data@, (i + 1) as nat) is None
            },
        },
{
    let mut offsets: Vec<usize> = Vec::new();
    let mut number: usize = 0;
    let mut i: usize = 0;
    while i < data.len()
        invariant
            i <= data@.len(),
            subtract_run(data@, i as nat) == Some((number as nat, offsets@.map_values(|x: usize| x as nat))),
        decreases data@.len() - i,
    {
        let byte = data[i];
        if byte < ZERO {
            return Err(i);
        }
        let d = (byte - ZERO) as usize;
        if number > usize::MAX / 10 {
            return Err(i);
        }
        if number * 10 > usize::MAX - d {
            return Err(i);
        }
        number = number * 10 + d;
        if i >= 8 {
            let left_byte = data[i - 8];
            if left_byte < ZERO {
                return Err(i);
            }
            let left = (left_byte - ZERO) as usize;
            if number < left * POWER_OF_TEN {
                return Err(i);
            }
            number -= left * POWER_OF_TEN;
        }
        if i >= 7 && number >= FIRST_DATE && number < DATE_END {
            offsets.push(number - FIRST_DATE);
        }
        assert(offsets@.map_values(|x: usize| x as nat) =~= (subtract_run(data@, (i + 1) as nat)->0).1);
        i += 1;
    }
    Ok(offsets)
}

/// One window of the rebuilding reading: all eight bytes of the window
/// starting at `k` are appended to the number, digit by digit. `None` on an
/// arithmetic fault.
pub open spec fn rebuild_digits(data: Seq<u8>, k: nat, j: nat, number: nat) -> Option<nat>
    decreases j,
{
    if j == 0 {
        Some(number)
    } else {
        match rebuild_digits(data, k, (j - 1) as nat, number) {
            None => None,
            Some(before) => {
                let d = digit_of(data[k + j - 1]);
                if d < 0 || before * 10 > usize::MAX || before * 10 + d > usize::MAX {
                    None
                } else {
                    Some((before * 10 + d) as nat)
                }
            },
        }
    }
}

proof fn lemma_rebuild_digits_stays_none(data: Seq<u8>, k: nat, j: nat, number: nat)
    requires
        j <= 8,
        rebuild_digits(data, k, j, number) is None,
    ensures
        rebuild_digits(data, k, 8, number) is None,
    decreases 8 - j,
{
    if j < 8 {
        lemma_rebuild_digits_stays_none(data, k, j + 1, number);
    }
}

/// The number and the date offsets after the first `w` windows of eight
/// bytes: each window's bytes are appended to the number, a number in the
/// date range gives its offset, then the number is divided by ten.
pub open spec fn rebuild_run(data: Seq<u8>, w: nat) -> Option<(nat, Seq<nat>)>
    decreases w,
{
    if w == 0 {
        Some((0, seq![]))
    } else {
        match rebuild_run(data, (w - 1) as nat) {
            None => None,
            Some((number, offsets)) => match rebuild_digits(data, (w - 1) as nat, 8, number) {
                None => None,
                Some(full) => Some(
                    (
                        full / 10,
                        if is_date_number(full) {
                            offsets.push((full - FIRST_DATE) as nat)
                        } else {
                            offsets
                        },
                    ),
                ),
            },
        }
    }
}

/// The offsets of the running-subtraction reading are those of numbers from
/// 19000000 up to, not including, 21000000: each is below 2000000.
pub proof fn lemma_subtract_offsets_in_the_date_range(data: Seq<u8>, n: nat)
    ensures
        subtract_run(data, n) matches Some((_, o)) ==> forall|k: int| 0 <= k < o.len() ==> #[trigger] o[k] < 2_000_000,
    decreases n,
{
    if n > 0 {
        lemma_subtract_offsets_in_the_date_range(data, (n - 1) as nat);
    }
}

/// The offsets of the window-rebuilding reading are those of numbers from
/// 19000000 up to, not including, 21000000: each is below 2000000.
pub proof fn lemma_rebuild_offsets_in_the_date_range(data: Seq<u8>, w: nat)
    ensures
        rebuild_run(data, w) matches Some((_, o)) ==> forall|k: int| 0 <= k < o.len() ==> #[trigger] o[k] < 2_000_000,
    decreases w,
{
    if w > 0 {
        lemma_rebuild_offsets_in_the_date_range(data, (w - 1) as nat);
    }
}

/// The number of windows of eight bytes in `len` bytes.
pub open spec fn window_count(len: nat) -> nat {
    if len >= 8 {
        (len - 7) as nat
    } else {
        0
    }
}

/// Reads each window of eight bytes of `data` in turn, appending all its
/// bytes as digits to a number that keeps what was left of the previous
/// window divided by ten; a number in the date range is kept as its offset
/// from `FIRST_DATE`. Returns the offsets, or the index of the first window
/// whose arithmetic faults.
pub fn rebuild_offsets(data: &[u8]) -> (res: Result<Vec<usize>, usize>)
    ensures
        match res {
            Ok(offsets) => (rebuild_run(data@, window_count(data@.len())) matches Some((_, o))
                && offsets@.map_values(|x: usize| x as nat) == o),
            Err(k) => {
                &&& k < window_count(data@.len())
                &&& rebuild_run(data@, k as nat) is Some
                &&& rebuild_run(data@, (k + 1) as nat) is None
            },
        },
{
    let mut offsets: Vec<usize> = Vec::new();
    let mut number: usize = 0;
    if data.len() < 8 {
        return Ok(offsets);
    }
    let len = data.len();
    let windows = len - 7;
    let mut k: usize = 0;
    while k < windows
        invariant
            windows == window_count(data@.len()),
            data@.len() >= 8,
            len == data@.len(),
            k <= windows,
            rebuild_run(data@, k as nat) == Some((number as nat, offsets@.map_values(|x: usize| x as nat))),
        decreases windows - k,
    {
        let ghost start = number as nat;
        let mut j: usize = 0;
        while j < 8
            invariant
                j <= 8,
                k < windows,
                windows == window_count(data@.len()),
                data@.len() >= 8,
                len == data@.len(),
                k + 8 <= data@.len(),
                rebuild_run(data@, k as nat) == Some((start, offsets@.map_values(|x: usize| x as nat))),
                rebuild_digits(data@, k as nat, j as nat, start) == Some(number as nat),
            decreases 8 - j,
        {
            let byte = data[k + j];
            if byte < ZERO {
                proof {
                    lemma_rebuild_digits_stays_none(data@, k as nat, (j + 1) as nat, start);
                }
                return Err(k);
            }
            let d = (byte - ZERO) as usize;
            if number > usize::MAX / 10 {
                proof {
                    lemma_rebuild_digits_stays_none(data@, k as nat, (j + 1) as nat, start);
                }
                return Err(k);
            }
            if number * 10 > usize::MAX - d {
                proof {
                    lemma_rebuild_digits_stays_none(data@, k as nat, (j + 1) as nat, start);
                }
                return Err(k);
            }
            number = number * 10 + d;
            j += 1;
        }
        if number >= FIRST_DATE && number < DATE_END {
            offsets.push(number - FIRST_DATE);
        }
        number = number / 10;
        assert(offsets@.map_values(|x: usize| x as nat) =~= (rebuild_run(data@, (k + 1) as nat)->0).1);
        k += 1;
    }
    Ok(offsets)
}

} // verus!
