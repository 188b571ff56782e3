//! Keeping count while a file is split into chunks.

use vstd::prelude::*;
use crate::trace::TraceEvent;

verus! {

/// The place in a file up to which chunks were cut.
#[derive(Clone, Copy, Debug, PartialEq, Eq)]
pub struct Splitter {
    offset: u64,
}

impl Splitter {
    /// The number of bytes that the chunks cut so far hold together.
    pub closed spec fn offset(&self) -> u64 {
        self.offset
    }

    /// Starts at the beginning of a file of `total_length` bytes, and
    /// yields the notification that says so.
    pub fn begin(total_length: u64) -> (r: (Splitter, TraceEvent))
        ensures
            r.0.offset() == 0,
            r.1 == (TraceEvent::SplitBegin { total: total_length }),
    {
        (Splitter { offset: 0 }, TraceEvent::SplitBegin { total: total_length })
    }

    /// The number of bytes that the chunks cut so far hold together.
    pub fn position(&self) -> (r: u64)
        ensures
            r == self.offset(),
    {
        self.offset
    }

    /// Takes note of the next chunk, of `length` bytes, and yields the
    /// notification that tells where it was cut.
    pub fn chunk(&mut self, length: u64) -> (r: TraceEvent)
        requires
            old(self).offset() + length <= u64::MAX,
        ensures
            final(self).offset() == old(self).offset() + length,
            r == (TraceEvent::SplitChunk { offset: old(self).offset(), length }),
    {
        let offset = self.offset;
        self.offset = offset + length;
        TraceEvent::SplitChunk { offset, length }
    }
}

} // verus!
