//! Case normalisation of team names.

use vstd::prelude::*;

verus! {

/// The lowercase form of a string, as the standard library's Unicode case
/// mapping defines it. The mapping is large and table-driven, so it is named
/// here rather than written out; it depends on the characters alone.
pub uninterp spec fn lowercase(s: Seq<char>) -> Seq<char>;

/// Wraps `str::to_lowercase`. Trusted: the returned string is the lowercase
/// form of `name`, which the contracts of this crate call `lowercase`.
#[verifier::external_body]
pub(crate) fn to_lowercase(name: &String) -> (lowered: String)
    ensures
        lowered@ == lowercase(name@),
{
    name.to_lowercase()
}

} // verus!
