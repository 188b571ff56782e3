//! The marshalling engine of a content-addressed snapshot store.
//!
//! The engine decides; it performs no I/O of its own. A driver reads and
//! splits files, hashes objects and talks to the store, and reports each
//! outcome back. Every decision is a function with a contract: which paths
//! enter a commit, which of them are read, what is queued for writing and
//! when the local cache may be updated.

pub mod commit;
pub mod context;
pub mod error;
pub mod index;
pub mod object;
pub mod pattern;
pub mod pipeline;
pub mod selection;
pub mod split;
pub mod trace;
pub mod tree;
