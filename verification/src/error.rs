//! The error taxonomy of one indexing run.

use vstd::prelude::*;

verus! {

/// A fatal or swallowed failure of an indexing run.
///
/// Every variant but `GarbageCollectionError` aborts the phase that raises
/// it; a garbage-collection failure is reported to the caller of the
/// collector alone and the reset protocol proceeds regardless.
#[derive(Clone, Copy, Debug, PartialEq, Eq, Structural)]
pub enum IndexingError {
    /// The input location could not be opened; nothing was built.
    SourceUnavailable,
    /// A malformed document was met while building a split.
    DocumentError,
    /// The blob store failed to upload a sealed split's files.
    UploadError,
    /// A metadata-store operation (stage, publish, mark, delete) failed.
    MetadataError,
    /// Garbage collection could not remove every marked split's files.
    GarbageCollectionError,
}

impl IndexingError {
    /// A short human-readable description of the error.
    pub fn describe(&self) -> (r: &'static str)
        ensures
            r@.len() > 0,
    {
        let s = match self {
            IndexingError::SourceUnavailable => "input source cannot be opened",
            IndexingError::DocumentError => "malformed document in input",
            IndexingError::UploadError => "split file upload failed",
            IndexingError::MetadataError => "metadata store operation failed",
            IndexingError::GarbageCollectionError => "garbage collection left files behind",
        };
        proof {
            reveal_strlit("input source cannot be opened");
            reveal_strlit("malformed document in input");
            reveal_strlit("split file upload failed");
            reveal_strlit("metadata store operation failed");
            reveal_strlit("garbage collection left files behind");
        }
        s
    }
}

} // verus!
