use vstd::prelude::*;
use vstd::string::StringSliceAdditionalSpecFns;

verus! {

/// The byte `.`, which no date sequence may hold.
pub const DOT: u8 = 46;

/// The UTF-8 bytes of a string contain a `.`.
pub open spec fn has_dot(bytes: Seq<u8>) -> bool {
    bytes.contains(DOT)
}

/// A sequence counts as a date when its text holds no `.` and is exactly
/// eight bytes long.
pub open spec fn spec_is_valid_date(s: &str) -> bool {
    !has_dot(s.spec_bytes()) && s.spec_bytes().len() == 8
}

/// On ASCII text, where each character is one byte, a sequence may be a
/// date exactly when it is eight characters long and none of them is `.`.
pub proof fn lemma_valid_ascii_date_is_eight_chars_without_dot(s: &str)
    requires
        vstd::string::is_ascii(s),
    ensures
        spec_is_valid_date(s) <==> (s@.len() == 8 && !s@.contains('.')),
{
    vstd::string::is_ascii_spec_bytes(s);
    let bytes = s.spec_bytes();
    assert(bytes.len() == s@.len());
    if bytes.contains(DOT) {
        let i = choose|i: int| 0 <= i < bytes.len() && bytes[i] == DOT;
        assert(s@[i] as u8 == DOT);
        assert(s@[i] <= '\u{7f}');
        assert(s@[i] == '.');
    }
    if s@.contains('.') {
        let i = choose|i: int| 0 <= i < s@.len() && s@[i] == '.';
        assert(bytes[i] == DOT);
    }
}

/// Whether `sequence` may be a date: it holds no `.` and is eight bytes long.
pub fn is_valid_date(sequence: &str) -> (valid: bool)
    ensures
        valid == spec_is_valid_date(sequence),
{
    let bytes = sequence.as_bytes();
    let mut i: usize = 0;
    while i < bytes.len()
        invariant
            bytes@ == sequence.spec_bytes(),
            i <= bytes@.len(),
            forall|j: int| 0 <= j < i ==> bytes@[j] != DOT,
        decreases bytes@.len() - i,
    {
        if bytes[i] == DOT {
            assert(bytes@[i as int] == DOT);
            return false;
        }
        i += 1;
    }
    sequence.len() == 8
}

} // verus!
