//! The one string-building primitive the library takes on trust.
use vstd::prelude::*;

verus! {

/// Relies on std's `FromIterator<char>` for `String`: collecting an iterator
/// over the characters of a vector yields a string holding exactly those
/// characters in order.
#[verifier::external_body]
pub fn chars_to_string(v: &Vec<char>) -> (s: String)
    ensures
        s@ == v@,
{
    v.iter().collect()
}

} // verus!
