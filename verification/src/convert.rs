//! The boundary between `String` text and the character vectors the verified
//! logic works on.
use vstd::prelude::*;

verus! {

/// Relies on str::chars: the iterator yields exactly the string's characters
/// in order, so collecting them gives the string's character sequence.
#[verifier::external_body]
pub fn chars_of(s: &str) -> (r: Vec<char>)
    ensures
        r@ == s@,
{
    s.chars().collect()
}

/// Relies on String's FromIterator<char>: collecting characters builds the
/// string of exactly those characters in order.
#[verifier::external_body]
pub fn string_from_chars(v: &Vec<char>) -> (r: String)
    ensures
        r@ == v@,
{
    v.iter().collect()
}

} // verus!
