//! Comparison of string slices.

use vstd::prelude::*;

verus! {

/// Whether two string slices hold the same characters.
///
/// Calls `==` of std on `str`, which compares the two slices byte by byte; two
/// slices of valid UTF-8 have the same bytes exactly when they have the same
/// characters.
#[verifier::external_body]
pub(crate) fn str_eq(a: &str, b: &str) -> (r: bool)
    ensures
        r == (a@ == b@),
{
    a == b
}

} // verus!
