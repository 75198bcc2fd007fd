//! Small text helpers shared by the pipeline modules.

use vstd::prelude::*;

verus! {

/// Relies on std's `str` equality: two string slices are equal exactly when
/// their character sequences are.
#[verifier::external_body]
pub(crate) fn str_eq(a: &str, b: &str) -> (r: bool)
    ensures
        r == (a@ == b@),
{
    a == b
}

} // verus!
