//! Path patterns, as the `globset` crate matches them.

use vstd::prelude::*;
use globset::GlobSet;

verus! {

#[verifier::external_type_specification]
#[verifier::external_body]
pub struct ExGlobSet(GlobSet);

/// The paths that a compiled set of globs matches. Nothing is proved of
/// it: it stands for what `globset` computes.
pub uninterp spec fn matched_paths(set: GlobSet) -> Set<Seq<char>>;

/// `globset::GlobSet::is_match`, on a path given as text. The result is
/// taken to depend on the set and on the path alone; that is all that is
/// claimed of it.
#[verifier::external_body]
fn set_matches(set: &GlobSet, path: &str) -> (r: bool)
    ensures
        r == matched_paths(*set).contains(path@),
{
    set.is_match(path)
}

/// The paths that an optional set of globs picks: none where there is no
/// set.
pub open spec fn picked_paths(set: Option<&GlobSet>) -> Set<Seq<char>> {
    match set {
        Some(globs) => matched_paths(*globs),
        None => Set::empty(),
    }
}

/// Whether an optional set of globs picks `path`.
pub fn picks(set: Option<&GlobSet>, path: &str) -> (r: bool)
    ensures
        r == picked_paths(set).contains(path@),
{
    match set {
        Some(globs) => set_matches(globs, path),
        None => false,
    }
}

} // verus!
