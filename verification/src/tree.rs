//! What is handed to the computation of a directory tree, and what
//! comes back from it.

use vstd::prelude::*;
use crate::error::Error;
use crate::object::ObjectHash;

verus! {

/// What the tree is computed from.
#[derive(Clone, Copy, Debug, PartialEq, Eq)]
pub enum Baseline {
    /// Nothing: the tree holds the given entries and no others.
    Empty,
    /// The stored tree under this digest, or an empty one where there is
    /// none yet.
    Head(Option<ObjectHash>),
}

/// A tree to compute: a baseline, and the entries that change it. An
/// entry without a digest deletes its path.
#[derive(Debug, PartialEq, Eq)]
pub struct DeltaRequest {
    pub baseline: Baseline,
    pub entries: Vec<(String, Option<ObjectHash>)>,
}

/// What a stored list of tree entries stands for.
pub open spec fn ops_of(raw: Seq<(String, Option<ObjectHash>)>) -> Seq<
    (Seq<char>, Option<ObjectHash>),
> {
    raw.map_values(|e: (String, Option<ObjectHash>)| (e.0@, e.1))
}

/// How the computation of a tree ended.
#[derive(Debug, PartialEq, Eq)]
pub enum TreeOutcome {
    /// The tree was computed and stored under this digest.
    Hashed(ObjectHash),
    /// The tree could not be computed.
    DeltaFailed(Error),
    /// The tree was computed and could not be marshalled.
    MarshalFailed(Error),
}

/// What the computation of a tree yields: its digest, or the failure,
/// which is marked as one of the tree where the tree could not be
/// computed.
pub open spec fn subtree_of(outcome: TreeOutcome) -> Result<ObjectHash, Error> {
    match outcome {
        TreeOutcome::Hashed(hash) => Ok(hash),
        TreeOutcome::DeltaFailed(cause) => Err(Error::DirTreeDelta(Box::new(cause))),
        TreeOutcome::MarshalFailed(error) => Err(error),
    }
}

/// Turns the end of a tree's computation into the digest of the tree or
/// into the failure that the operation ends in.
pub fn subtree_result(outcome: TreeOutcome) -> (r: Result<ObjectHash, Error>)
    ensures
        r == subtree_of(outcome),
{
    match outcome {
        TreeOutcome::Hashed(hash) => Ok(hash),
        TreeOutcome::DeltaFailed(cause) => Err(Error::DirTreeDelta(Box::new(cause))),
        TreeOutcome::MarshalFailed(error) => Err(error),
    }
}

} // verus!
