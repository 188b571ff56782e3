//! What an observer is told while files are split and objects written.

use vstd::prelude::*;
use crate::object::ObjectHash;

verus! {

/// One notification for the observer. The engine says which is due and
/// when; the observer's answer is never asked for.
#[derive(Clone, Copy, Debug, PartialEq, Eq)]
pub enum TraceEvent {
    /// A file of `total` bytes is about to be split.
    SplitBegin { total: u64 },
    /// A chunk of `length` bytes was cut at `offset`.
    SplitChunk { offset: u64, length: u64 },
    /// The object is about to be written.
    WriteObjectStart { hash: ObjectHash },
    /// The object was written; `fresh` says whether the store lacked it.
    WriteObjectFinish { hash: ObjectHash, fresh: bool },
}

} // verus!
