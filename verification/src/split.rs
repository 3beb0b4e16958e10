//! Splits, split metadata records, and raw document records.

use vstd::prelude::*;

verus! {

/// The lifecycle state of a split.
///
/// A split is accumulated (`New`), fixed and handed to the commit channel
/// (`Sealed`), durably uploaded but not yet visible (`Staged`), visible to
/// search (`Published`), and finally removed from visibility pending the
/// physical removal of its files (`MarkedForDeleted`).
#[derive(Clone, Copy, Debug, PartialEq, Eq, Structural)]
pub enum SplitState {
    New,
    Sealed,
    Staged,
    Published,
    MarkedForDeleted,
}

/// A raw document record, one per input line.
///
/// The wire format of a document is an external concern: the parser reports
/// whether the record is well formed, and the builder only reads that flag
/// and the record's size, which counts against the memory budget.
#[derive(Clone, Copy, Debug, PartialEq, Eq, Structural)]
pub struct Document {
    /// Size of the raw record in bytes.
    pub size_in_bytes: u64,
    /// Whether the external parser accepted the record.
    pub well_formed: bool,
}

/// The metadata record of a split, as the metadata store keeps it.
#[derive(Clone, Copy, Debug, PartialEq, Eq, Structural)]
pub struct SplitRecord {
    /// The split's unique identifier.
    pub split_id: u64,
    /// The split's lifecycle state.
    pub state: SplitState,
    /// Number of documents sealed into the split.
    pub document_count: u64,
    /// Total size in bytes of the split's documents.
    pub size_in_bytes: u64,
}

/// A split owned by the pipeline: an immutable bundle of documents together
/// with the descriptors of its on-storage files.
#[derive(Debug)]
pub struct Split {
    /// The split's unique identifier, assigned at seal time.
    pub split_id: u64,
    /// The split's lifecycle state.
    pub state: SplitState,
    /// Number of documents accumulated into the split.
    pub document_count: u64,
    /// Total size in bytes of the accumulated documents.
    pub size_in_bytes: u64,
    /// Sizes of the files that make up the split's on-storage
    /// representation; fixed once the split is sealed.
    pub files: Vec<u64>,
}

impl Split {
    /// The metadata record describing this split.
    pub open spec fn record_spec(self) -> SplitRecord {
        SplitRecord {
            split_id: self.split_id,
            state: self.state,
            document_count: self.document_count,
            size_in_bytes: self.size_in_bytes,
        }
    }

    /// A sealed split holds at least one document and exactly the files
    /// fixed at seal time: a single bundle of its accumulated bytes.
    pub open spec fn sealed_wf(self) -> bool {
        &&& self.state == SplitState::Sealed
        &&& self.document_count >= 1
        &&& self.files@ =~= seq![self.size_in_bytes]
    }

    /// Builds the metadata record of this split.
    pub fn record(&self) -> (r: SplitRecord)
        ensures
            r == self.record_spec(),
    {
        SplitRecord {
            split_id: self.split_id,
            state: self.state,
            document_count: self.document_count,
            size_in_bytes: self.size_in_bytes,
        }
    }
}

} // verus!
