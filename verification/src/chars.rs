//! Character and string-building helpers the parser and serializer share.

use vstd::prelude::*;

verus! {

/// Relies on String::push: appends one character at the end of the string.
#[verifier::external_body]
pub(crate) fn push_char(s: &mut String, c: char)
    ensures
        final(s)@ == old(s)@.push(c),
{
    s.push(c);
}

/// Relies on char::from_u32: a scalar value outside the surrogate range maps
/// to the character with that code, and a surrogate or out-of-range value to
/// nothing.
pub assume_specification[ char::from_u32 ](v: u32) -> (r: Option<char>)
    ensures
        r matches Some(c) ==> c == ((v as int) as char),
        (v < 0xD800 || (0xE000 <= v && v <= 0x10FFFF)) <==> r is Some,
;

} // verus!
