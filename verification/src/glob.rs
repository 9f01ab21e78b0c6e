//! Glob patterns, as the `globset` crate reads and matches them.
//!
//! Nothing in this file is proved: each contract states what the outside
//! function does, as its source shows it.

use vstd::prelude::*;

verus! {

/// A compiled set of glob patterns.
#[verifier::external_type_specification]
#[verifier::external_body]
pub struct ExGlobSet(globset::GlobSet);

/// `pattern` is a glob that compiles.
pub uninterp spec fn glob_valid(pattern: Seq<char>) -> bool;

/// The pattern that a set of one glob was compiled from.
pub uninterp spec fn glob_source(set: globset::GlobSet) -> Seq<char>;

/// The glob `pattern` matches the path `path`.
pub uninterp spec fn glob_matches(pattern: Seq<char>, path: Seq<u8>) -> bool;

/// `globset::Glob::new`, then `globset::GlobSetBuilder::build` on that one
/// glob: the set compiled from `pattern`, or nothing where the crate
/// reports that `pattern` is no glob or could not be compiled.
#[verifier::external_body]
pub(crate) fn glob_compile(pattern: &str) -> (r: Option<globset::GlobSet>)
    ensures
        r is Some <==> glob_valid(pattern@),
        r matches Some(set) ==> glob_source(set) == pattern@,
{
    match globset::Glob::new(pattern) {
        Ok(glob) => match globset::GlobSetBuilder::new().add(glob).build() {
            Ok(set) => Some(set),
            Err(_) => None,
        },
        Err(_) => None,
    }
}

/// `globset::GlobSet::is_match_candidate` on `globset::Candidate::from_bytes`:
/// whether the one glob of the set matches `path`.
#[verifier::external_body]
pub(crate) fn glob_is_match(set: &globset::GlobSet, path: &[u8]) -> (r: bool)
    ensures
        r == glob_matches(glob_source(*set), path@),
{
    set.is_match_candidate(&globset::Candidate::from_bytes(path))
}

} // verus!
