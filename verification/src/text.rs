//! Small trusted bridges between `String` and character vectors.

use vstd::prelude::*;

verus! {

/// Relies on `str::chars`: it yields exactly the characters of the string,
/// in order, which is the string's view in the specification world.
#[verifier::external_body]
pub(crate) fn str_to_chars(s: &str) -> (r: Vec<char>)
    ensures
        r@ == s@,
{
    s.chars().collect()
}

/// Relies on `char::from_u32`: it returns `Some` exactly for Unicode
/// scalar values, and the character it returns has the given value.
#[verifier::external_body]
pub(crate) fn char_from_u32(x: u32) -> (r: Option<char>)
    ensures
        r == (if vstd::utf8::is_scalar(x) {
            Some(x as char)
        } else {
            None::<char>
        }),
{
    char::from_u32(x)
}

/// Relies on `String::push`: it appends exactly the given character.
#[verifier::external_body]
pub(crate) fn push_char(s: &mut String, c: char)
    ensures
        final(s)@ == old(s)@.push(c),
{
    s.push(c);
}

} // verus!
