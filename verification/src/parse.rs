use vstd::prelude::*;
use vstd::string::StringSliceAdditionalSpecFns;

use crate::overlap::all_digits;
use crate::rolling::{digits_value, is_digit, ZERO};

verus! {

/// The byte `+`, which may lead a number.
pub const PLUS: u8 = 43;

/// What `str::parse::<usize>` gives for the UTF-8 bytes `bytes`: an optional
/// leading `+`, then one or more decimal digits whose value fits a `usize`;
/// `None` for anything else.
pub open spec fn parse_decimal(bytes: Seq<u8>) -> Option<nat> {
    let digits = if bytes.len() >= 1 && bytes[0] == PLUS {
        bytes.drop_first()
    } else {
        bytes
    };
    if digits.len() == 0 || !all_digits(digits) || digits_value(digits) > usize::MAX {
        None
    } else {
        Some(digits_value(digits))
    }
}

proof fn lemma_digits_value_grows(t: Seq<u8>, n: nat)
    requires
        n <= t.len(),
        all_digits(t),
    ensures
        digits_value(t.take(n as int)) <= digits_value(t),
    decreases t.len() - n,
{
    if n < t.len() {
        lemma_digits_value_grows(t, n + 1);
        assert(t.take((n + 1) as int).drop_last() =~= t.take(n as int));
        assert(is_digit(t[n as int]));
    } else {
        assert(t.take(n as int) =~= t);
    }
}

/// Reads `s` as a decimal `usize` as `str::parse::<usize>` does: an optional
/// `+`, then digits; `None` when there is no digit, a byte is not a digit,
/// or the value does not fit.
pub fn parse_usize(s: &str) -> (parsed: Option<usize>)
    ensures
        match parsed {
            Some(v) => parse_decimal(s.spec_bytes()) == Some(v as nat),
            None => parse_decimal(s.spec_bytes()) is None,
        },
{
    let bytes = s.as_bytes();
    let ghost all = bytes@;
    let start: usize = if bytes.len() >= 1 && bytes[0] == PLUS { 1 } else { 0 };
    let ghost digits = if all.len() >= 1 && all[0] == PLUS { all.drop_first() } else { all };
    assert(digits =~= all.skip(start as int));
    if start == bytes.len() {
        return None;
    }
    let mut value: usize = 0;
    let mut j: usize = start;
    while j < bytes.len()
        invariant
            bytes@ == all,
            all == s.spec_bytes(),
            digits == all.skip(start as int),
            digits == (if all.len() >= 1 && all[0] == PLUS { all.drop_first() } else { all }),
            start <= j <= all.len(),
            value == digits_value(digits.take(j - start)),
            forall|k: int| 0 <= k < j - start ==> is_digit(#[trigger] digits[k]),
        decreases all.len() - j,
    {
        let b = bytes[j];
        if !(b >= ZERO && b <= ZERO + 9) {
            assert(!is_digit(digits[j - start]));
            assert(!all_digits(digits));
            assert(parse_decimal(s.spec_bytes()) is None);
            return None;
        }
        let d = (b - ZERO) as usize;
        assert(digits.take(j + 1 - start).drop_last() =~= digits.take(j - start));
        if value > (usize::MAX - d) / 10 {
            proof {
                let whole = (j + 1 - start) as nat;
                assert(digits_value(digits.take(whole as int)) == value * 10 + d);
                assert(value * 10 + d > usize::MAX);
                if all_digits(digits) {
                    lemma_digits_value_grows(digits, whole);
                    assert(digits_value(digits) > usize::MAX);
                }
                assert(parse_decimal(s.spec_bytes()) is None);
            }
            return None;
        }
        value = value * 10 + d;
        j += 1;
    }
    assert(digits.take(j - start) =~= digits);
    Some(value)
}

} // verus!
