//! What can go wrong while objects are marshalled.

use vstd::prelude::*;

verus! {

/// The failures that an operation of the engine can end in. An operation
/// either yields its result or ends in the first of these that it meets.
#[derive(Debug, PartialEq, Eq)]
pub enum Error {
    /// A failure described only by its message.
    Msg(String),
    /// A file could not be opened, mapped or read.
    Io(String),
    /// The engine was driven in a way that correct operation never produces.
    Absurd,
    /// The directory tree could not be computed; the cause is kept.
    DirTreeDelta(Box<Error>),
}

impl Clone for Error {
    fn clone(&self) -> (r: Error)
        ensures
            r == *self,
        decreases self,
    {
        match self {
            Error::Msg(message) => Error::Msg(message.clone()),
            Error::Io(message) => Error::Io(message.clone()),
            Error::Absurd => Error::Absurd,
            Error::DirTreeDelta(cause) => {
                let inner: &Error = cause;
                Error::DirTreeDelta(Box::new(inner.clone()))
            },
        }
    }
}

} // verus!
