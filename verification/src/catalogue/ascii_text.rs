//! Contracts for the parts of the `ascii` crate that the codec builds its text codes with.
use ascii::{AsciiString, ToAsciiChar};
use vstd::prelude::*;

verus! {

#[verifier::external_type_specification]
#[verifier::external_body]
pub struct ExAsciiString(AsciiString);

/// The bytes of the ASCII characters that an `AsciiString` holds, in order.
pub uninterp spec fn ascii_bytes(s: AsciiString) -> Seq<u8>;

/// Calls `AsciiString::new`: the new string holds no characters.
#[verifier::external_body]
pub(crate) fn ascii_new() -> (s: AsciiString)
    ensures
        ascii_bytes(s) == Seq::<u8>::empty(),
{
    AsciiString::new()
}

/// Calls `AsciiString::with_capacity`: the new string holds no characters, whatever room it
/// was given.
#[verifier::external_body]
pub(crate) fn ascii_with_capacity(capacity: usize) -> (s: AsciiString)
    ensures
        ascii_bytes(s) == Seq::<u8>::empty(),
{
    AsciiString::with_capacity(capacity)
}

/// Calls `AsciiString::push` with the ASCII character of byte `b`, which `u8::to_ascii_char`
/// gives for every byte below 128: the string gains that character at its end.
#[verifier::external_body]
pub(crate) fn ascii_push_byte(s: &mut AsciiString, b: u8)
    requires
        b < 128,
    ensures
        ascii_bytes(*final(s)) == ascii_bytes(*old(s)).push(b),
{
    s.push(b.to_ascii_char().unwrap());
}

/// Calls `AsciiString::push_str`: the string gains the characters of `other` at its end.
#[verifier::external_body]
pub(crate) fn ascii_push_str(s: &mut AsciiString, other: &AsciiString)
    ensures
        ascii_bytes(*final(s)) == ascii_bytes(*old(s)) + ascii_bytes(*other),
{
    s.push_str(other);
}

} // verus!
