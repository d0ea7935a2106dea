//! Unicode case conversion, done by the standard library.
use vstd::prelude::*;

verus! {

/// What `str::to_uppercase` returns for a string with the given characters.
pub uninterp spec fn upper_case(s: Seq<char>) -> Seq<char>;

/// What `str::to_lowercase` returns for a string with the given characters.
pub uninterp spec fn lower_case(s: Seq<char>) -> Seq<char>;

/// Calls `str::to_uppercase` on the characters of `s`; the contract says only
/// that the result is `upper_case` of them (Unicode's mapping is not restated).
#[verifier::external_body]
pub(crate) fn to_upper(s: &[char]) -> (r: Vec<char>)
    ensures
        r@ == upper_case(s@),
{
    let t: String = s.iter().collect();
    t.to_uppercase().chars().collect()
}

/// Calls `str::to_lowercase` on the characters of `s`; the contract says only
/// that the result is `lower_case` of them (Unicode's mapping is not restated).
#[verifier::external_body]
pub(crate) fn to_lower(s: &[char]) -> (r: Vec<char>)
    ensures
        r@ == lower_case(s@),
{
    let t: String = s.iter().collect();
    t.to_lowercase().chars().collect()
}

} // verus!
