//! Shared counters of one indexing run.

use vstd::prelude::*;

verus! {

/// Adds two counters, stopping at the largest representable value instead
/// of wrapping.
pub open spec fn sat_add(a: u64, b: u64) -> u64 {
    if a + b <= u64::MAX {
        (a + b) as u64
    } else {
        u64::MAX
    }
}

/// Mutation-only counters updated by the builder and the finalizer.
///
/// Counters only ever grow, and saturate instead of wrapping, so an update
/// can never lose a previously counted event.
#[derive(Clone, Copy, Debug, PartialEq, Eq, Structural)]
pub struct IndexingStatistics {
    /// Documents consumed by the builder.
    pub num_docs: u64,
    /// Splits durably committed by the finalizer.
    pub num_splits_committed: u64,
    /// Fatal errors observed by the run.
    pub num_errors: u64,
}

impl IndexingStatistics {
    /// Fresh counters, all zero.
    pub fn new() -> (r: IndexingStatistics)
        ensures
            r.num_docs == 0,
            r.num_splits_committed == 0,
            r.num_errors == 0,
    {
        IndexingStatistics { num_docs: 0, num_splits_committed: 0, num_errors: 0 }
    }

    /// Counts `n` more documents as indexed.
    pub fn add_docs(&mut self, n: u64)
        ensures
            final(self).num_docs == sat_add(old(self).num_docs, n),
            final(self).num_splits_committed == old(self).num_splits_committed,
            final(self).num_errors == old(self).num_errors,
    {
        self.num_docs = saturating_add(self.num_docs, n);
    }

    /// Counts one more split as committed.
    pub fn add_split_committed(&mut self)
        ensures
            final(self).num_splits_committed == sat_add(old(self).num_splits_committed, 1),
            final(self).num_docs == old(self).num_docs,
            final(self).num_errors == old(self).num_errors,
    {
        self.num_splits_committed = saturating_add(self.num_splits_committed, 1);
    }

    /// Counts one more fatal error.
    pub fn add_error(&mut self)
        ensures
            final(self).num_errors == sat_add(old(self).num_errors, 1),
            final(self).num_docs == old(self).num_docs,
            final(self).num_splits_committed == old(self).num_splits_committed,
    {
        self.num_errors = saturating_add(self.num_errors, 1);
    }
}

/// Adds two counters without wrapping.
fn saturating_add(a: u64, b: u64) -> (r: u64)
    ensures
        r == sat_add(a, b),
{
    if a <= u64::MAX - b {
        a + b
    } else {
        u64::MAX
    }
}

} // verus!
