//! A verified model of an indexing pipeline that turns a stream of documents
//! into immutable, searchable splits.
//!
//! The pipeline seals documents into splits under a memory budget, commits
//! each split through a two-phase handshake (upload the files, then register
//! the split as published in the metadata store), and supports an overwrite
//! protocol that clears an index by marking, garbage-collecting, and deleting
//! its published splits.  The metadata store and the blob store are external
//! collaborators; the library models their state as plain values and takes
//! the success or failure of each external call as an input, so every
//! decision of the protocol is verified for every outcome of those calls.

pub mod builder;
pub mod channel;
pub mod error;
pub mod finalizer;
pub mod pipeline;
pub mod reset;
pub mod split;
pub mod stats;
pub mod store;
