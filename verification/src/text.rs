use vstd::prelude::*;

verus! {

/// Relies on std's `FromIterator` impl for `String`: collecting an iterator of
/// characters yields the string of exactly those characters in order.
#[verifier::external_body]
pub(crate) fn string_from_chars(v: &Vec<char>) -> (r: String)
    ensures
        r@ == v@,
{
    v.iter().collect()
}

} // verus!
