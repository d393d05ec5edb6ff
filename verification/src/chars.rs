//! Bridges to the character and string operations of std that the verifier
//! does not model itself.

use vstd::prelude::*;

verus! {

/// A Unicode scalar value: any code point outside the surrogate block.
pub open spec fn is_scalar(v: int) -> bool {
    0 <= v < 0xD800 || 0xE000 <= v <= 0x10FFFF
}

/// Relies on char::from_u32: it returns `Some` exactly for Unicode scalar
/// values, and then the character with that value.
#[verifier::external_body]
pub(crate) fn char_from_u32(v: u32) -> (r: Option<char>)
    ensures
        r is Some <==> is_scalar(v as int),
        is_scalar(v as int) ==> r == Some(v as char),
        r matches Some(c) ==> c as u32 == v,
{
    char::from_u32(v)
}

/// Relies on String::push: it appends exactly one character.
#[verifier::external_body]
pub(crate) fn push_char(s: &mut String, c: char)
    ensures
        final(s)@ == old(s)@.push(c),
{
    s.push(c);
}

} // verus!
