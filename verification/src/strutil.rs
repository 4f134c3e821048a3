//! Small helpers over `String` used by the codec.

use vstd::prelude::*;

verus! {

/// Appends one character.  Relies on String::push from std, which
/// appends the given char to the end of the string.
#[verifier::external_body]
pub fn push_char(s: &mut String, c: char)
    ensures
        final(s)@ == old(s)@ + seq![c],
{
    s.push(c)
}

/// Decodes UTF-8 bytes into a string.  Relies on String::from_utf8
/// from std, which succeeds exactly on valid UTF-8 and returns the
/// string those bytes encode.
#[verifier::external_body]
pub fn utf8_to_string(bs: &[u8]) -> (r: Option<String>)
    ensures
        match r {
            Some(s) => vstd::utf8::valid_utf8(bs@) && s@ == vstd::utf8::decode_utf8(bs@),
            None => !vstd::utf8::valid_utf8(bs@),
        },
{
    match String::from_utf8(bs.to_vec()) {
        Ok(s) => Some(s),
        Err(_) => None,
    }
}

} // verus!
