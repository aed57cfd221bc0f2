use vstd::prelude::*;

verus! {

/// Calls `String::push`, which appends the character `c` to the end of the
/// string. Claimed: the characters afterwards are the old ones followed by `c`.
#[verifier::external_body]
pub(crate) fn string_push(s: &mut String, c: char)
    ensures
        final(s)@ == old(s)@.push(c),
{
    s.push(c);
}

/// Calls `String::drain(..1)` and drops the drained part, which removes the
/// first byte of the string. `drain` panics when the range ends past the
/// string or not on a character boundary; byte 1 is a boundary exactly when the
/// first character is encoded in one byte, that is, when it is below U+0080.
/// Claimed: on such a string the first character is removed and the rest kept.
#[verifier::external_body]
pub(crate) fn string_drop_first_byte(s: &mut String)
    requires
        old(s)@.len() > 0,
        (old(s)@[0] as u32) < 0x80,
    ensures
        final(s)@ == old(s)@.drop_first(),
{
    s.drain(..1);
}

} // verus!
