//! The pipeline orchestrator: one indexing run from documents to
//! published splits.
//!
//! A run optionally resets the index first (overwrite), then builds
//! sealed splits from the document sequence under the memory budget, and
//! finally commits them in order through the bounded channel.  The first
//! error of any phase fails the whole run; splits committed before the
//! failure stay published.  The success or failure of every external call
//! is an input, so the contract states the final store states for every
//! combination of outcomes.

use vstd::prelude::*;

use crate::builder::{build_splits, lemma_plan_len, seal_plan, sizes_of, sum_sizes};
use crate::error::IndexingError;
use crate::finalizer::{finalize_splits, first_bad, upload_count, CommitEvents};
use crate::reset::{gc_storage_after, mark_published, reset_index, ResetEvents};
use crate::split::{Document, SplitRecord, SplitState};
use crate::stats::{sat_add, IndexingStatistics};
use crate::store::{
    has_record, inv_stores, is_published, lemma_filter_membership, meta_wf, published_of,
    storage_wf, stored, MetastoreModel, StorageModel,
};

verus! {

/// The configuration of one indexing run, immutable for its duration.
#[derive(Debug, Clone)]
pub struct IndexDataParams {
    /// Location of the target index.
    pub index_uri: String,
    /// Location of the input documents; absent means standard input.
    pub input_uri: Option<String>,
    /// Scratch directory used while building splits.
    pub temp_dir: String,
    /// Number of concurrent builder workers.
    pub num_threads: usize,
    /// Memory budget shared among the builder workers, in bytes.
    pub heap_size: u64,
    /// Whether to clear previously indexed data before indexing.
    pub overwrite: bool,
}

/// The outcome of every external call one run can make.
pub struct PipelineEvents {
    /// Whether the input location could be opened.
    pub source_ok: bool,
    /// The outcomes of the reset protocol's calls.
    pub reset: ResetEvents,
    /// The outcomes of each split's commit handshake, in commit order.
    pub commits: Vec<CommitEvents>,
}

impl PipelineEvents {
    /// An outcome in which every external call of a run over at most `n`
    /// splits succeeds.
    pub fn all_ok(n: usize) -> (r: PipelineEvents)
        ensures
            r.source_ok,
            r.reset.marks_ok && r.reset.gc_ok && r.reset.deletes_ok,
            r.commits@.len() == n,
            forall|i: int| 0 <= i < n ==> (#[trigger] r.commits@[i]).is_ok(),
    {
        let mut commits: Vec<CommitEvents> = Vec::new();
        let mut i: usize = 0;
        while i < n
            invariant
                i <= n,
                commits@.len() == i,
                forall|j: int| 0 <= j < i ==> (#[trigger] commits@[j]).is_ok(),
            decreases n - i,
        {
            commits.push(CommitEvents::all_ok());
            i += 1;
        }
        PipelineEvents { source_ok: true, reset: ResetEvents::all_ok(), commits }
    }
}

/// Each builder worker's share of the memory budget.
pub open spec fn budget_share(params: IndexDataParams) -> u64 {
    params.heap_size / (params.num_threads as u64)
}

/// The metadata store after the optional reset phase of a successful run:
/// with overwrite, every published record is gone; without, nothing moved.
pub open spec fn meta_after_reset(m: Seq<SplitRecord>, overwrite: bool) -> Seq<SplitRecord> {
    if overwrite {
        m.filter(|r: SplitRecord| r.state != SplitState::Published)
    } else {
        m
    }
}

/// The blob store after the optional reset phase.
pub open spec fn storage_after_reset(
    m: Seq<SplitRecord>,
    s: Seq<u64>,
    overwrite: bool,
    gc_ok: bool,
) -> Seq<u64> {
    if overwrite && gc_ok {
        gc_storage_after(mark_published(m), s)
    } else {
        s
    }
}

/// The identifier assigned to the `i`-th planned split of a run that
/// numbers its splits from `first`.
pub open spec fn planned_id(first: u64, i: int) -> u64 {
    (first + i) as u64
}

/// The record of the `i`-th planned split, in state `st`.
pub open spec fn plan_record(g: Seq<(int, int)>, first: u64, i: int, st: SplitState) -> SplitRecord {
    SplitRecord {
        split_id: (first + i) as u64,
        state: st,
        document_count: g[i].0 as u64,
        size_in_bytes: g[i].1 as u64,
    }
}

/// The published records of every planned split, in plan order.
pub open spec fn plan_published(g: Seq<(int, int)>, first: u64) -> Seq<SplitRecord> {
    Seq::new(g.len(), |i: int| plan_record(g, first, i, SplitState::Published))
}

/// The staged record left behind when commit `k` failed at its publish
/// step.
pub open spec fn plan_staged_tail(
    g: Seq<(int, int)>,
    evs: Seq<CommitEvents>,
    first: u64,
    k: int,
) -> Seq<SplitRecord> {
    if k < g.len() && evs[k].upload_ok && evs[k].stage_ok && !evs[k].publish_ok {
        seq![plan_record(g, first, k, SplitState::Staged)]
    } else {
        Seq::<SplitRecord>::empty()
    }
}

/// The metadata store after one fully successful overwrite run: the
/// published records are replaced by the planned splits' records, and
/// every other record survives untouched.
pub open spec fn run_meta(m: Seq<SplitRecord>, g: Seq<(int, int)>, first: u64) -> Seq<SplitRecord> {
    m.filter(|r: SplitRecord| r.state != SplitState::Published) + plan_published(g, first)
}

/// Whether the reset phase let the run proceed: it was not requested, or
/// every mark and every delete succeeded.
pub open spec fn reset_passed(overwrite: bool, ev: ResetEvents) -> bool {
    !overwrite || (ev.marks_ok && ev.deletes_ok)
}

/// Runs one indexing operation: optionally resets the index, builds
/// sealed splits from the documents, and commits them in order.
///
/// The contract follows the run phase by phase: a reset failure aborts
/// with nothing else changed; a missing source aborts before any split is
/// built; a malformed document aborts the builder phase; and the commit
/// phase publishes a prefix of the planned splits, cut at the first
/// failing commit.  On a fully successful run every planned split is
/// published, and with overwrite the set of visible records afterwards is
/// exactly the planned ones, whatever was visible before.
pub fn index_data(
    meta: &mut MetastoreModel,
    storage: &mut StorageModel,
    params: &IndexDataParams,
    docs: &Vec<Document>,
    first_split_id: u64,
    ev: &PipelineEvents,
    stats: &mut IndexingStatistics,
) -> (r: Result<(), IndexingError>)
    requires
        meta_wf(old(meta)@),
        storage_wf(old(storage)@),
        inv_stores(old(meta)@, old(storage)@),
        params.num_threads >= 1,
        sum_sizes(sizes_of(docs@)) <= u64::MAX,
        first_split_id + docs@.len() <= u64::MAX,
        ev.commits@.len() >= docs@.len(),
        forall|k: int|
            0 <= k < docs@.len() ==> !(#[trigger] has_record(old(meta)@, (first_split_id + k) as u64))
                || (params.overwrite && is_published(old(meta)@, (first_split_id + k) as u64)),
    ensures
        meta_wf(final(meta)@),
        storage_wf(final(storage)@),
        inv_stores(final(meta)@, final(storage)@),
        params.overwrite && !ev.reset.marks_ok ==> r == Err::<(), IndexingError>(
            IndexingError::MetadataError,
        ) && final(meta)@ =~= old(meta)@ && final(storage)@ =~= old(storage)@ && *final(stats)
            == *old(stats),
        params.overwrite && ev.reset.marks_ok && !ev.reset.deletes_ok ==> r == Err::<
            (),
            IndexingError,
        >(IndexingError::MetadataError) && final(meta)@ =~= mark_published(old(meta)@)
            && final(storage)@ =~= storage_after_reset(
            old(meta)@,
            old(storage)@,
            true,
            ev.reset.gc_ok,
        ) && *final(stats) == *old(stats),
        reset_passed(params.overwrite, ev.reset) && !ev.source_ok ==> r == Err::<
            (),
            IndexingError,
        >(IndexingError::SourceUnavailable) && final(meta)@ =~= meta_after_reset(
            old(meta)@,
            params.overwrite,
        ) && final(storage)@ =~= storage_after_reset(
            old(meta)@,
            old(storage)@,
            params.overwrite,
            ev.reset.gc_ok,
        ) && *final(stats) == *old(stats),
        reset_passed(params.overwrite, ev.reset) && ev.source_ok && (exists|i: int|
            0 <= i < docs@.len() && !(#[trigger] docs@[i]).well_formed) ==> r == Err::<
            (),
            IndexingError,
        >(IndexingError::DocumentError) && final(meta)@ =~= meta_after_reset(
            old(meta)@,
            params.overwrite,
        ) && final(storage)@ =~= storage_after_reset(
            old(meta)@,
            old(storage)@,
            params.overwrite,
            ev.reset.gc_ok,
        ) && final(stats).num_errors == sat_add(old(stats).num_errors, 1)
            && final(stats).num_docs == old(stats).num_docs
            && final(stats).num_splits_committed == old(stats).num_splits_committed,
        reset_passed(params.overwrite, ev.reset) && ev.source_ok && (forall|i: int|
            0 <= i < docs@.len() ==> (#[trigger] docs@[i]).well_formed) ==> ({
            let g = seal_plan(sizes_of(docs@), budget_share(*params));
            let n = g.len() as int;
            let k = first_bad(ev.commits@, n);
            &&& final(meta)@ =~= meta_after_reset(old(meta)@, params.overwrite)
                + plan_published(g, first_split_id).subrange(0, k) + plan_staged_tail(
                g,
                ev.commits@,
                first_split_id,
                k,
            )
            &&& forall|x: u64|
                stored(final(storage)@, x) <==> stored(
                    storage_after_reset(
                        old(meta)@,
                        old(storage)@,
                        params.overwrite,
                        ev.reset.gc_ok,
                    ),
                    x,
                ) || exists|i: int|
                    0 <= i < upload_count(ev.commits@, k, n) && x == #[trigger] planned_id(
                        first_split_id,
                        i,
                    )
            &&& k == n ==> r == Ok::<(), IndexingError>(())
            &&& k < n ==> (ev.commits@[k].first_error() matches Some(e) && r == Err::<
                (),
                IndexingError,
            >(e))
            &&& k == n && params.overwrite ==> final(meta)@ =~= run_meta(
                old(meta)@,
                g,
                first_split_id,
            )
            &&& final(stats).num_docs == sat_add(old(stats).num_docs, docs@.len() as u64)
            &&& final(stats).num_splits_committed == sat_add(
                old(stats).num_splits_committed,
                k as u64,
            )
            &&& final(stats).num_errors == old(stats).num_errors
        }),
{
    let ghost m0 = old(meta)@;
    if params.overwrite {
        let reset_res = reset_index(meta, storage, &ev.reset);
        if let Err(e) = reset_res {
            return Err(e);
        }
    }
    if !ev.source_ok {
        return Err(IndexingError::SourceUnavailable);
    }
    let budget = params.heap_size / (params.num_threads as u64);
    let built = build_splits(docs, budget, first_split_id);
    let splits = match built {
        Ok(s) => s,
        Err(e) => {
            stats.add_error();
            return Err(e);
        },
    };
    stats.add_docs(docs.len() as u64);
    let ghost g = seal_plan(sizes_of(docs@), budget_share(*params));
    let ghost base_s = storage@;
    proof {
        lemma_plan_len(sizes_of(docs@), 0, 0, 0, budget);
        assert(splits@.len() == g.len() <= docs@.len());
        assert forall|i: int| 0 <= i < splits@.len() implies !has_record(
            meta@,
            (#[trigger] splits@[i]).split_id,
        ) by {
            let id = (first_split_id + i) as u64;
            assert(splits@[i].split_id == id);
            assert(!has_record(m0, id) || (params.overwrite && is_published(m0, id)));
            if params.overwrite {
                if has_record(meta@, id) {
                    let w = choose|w: int| 0 <= w < meta@.len() && meta@[w].split_id == id;
                    let p2 = |rec: SplitRecord| rec.state != SplitState::Published;
                    lemma_filter_membership(m0, p2, w);
                    let v = choose|v: int| 0 <= v < m0.len() && m0[v] == meta@[w];
                    m0.lemma_filter_pred(p2, w);
                    assert(m0[v].state != SplitState::Published);
                    if !has_record(m0, id) {
                        assert(m0[v].split_id == id);
                        assert(false);
                    } else {
                        let u = choose|u: int|
                            0 <= u < m0.len() && m0[u].split_id == id && m0[u].state
                                == SplitState::Published;
                        assert(u != v ==> m0[u].split_id != m0[v].split_id);
                        assert(false);
                    }
                }
            }
        }
    }
    let fin = finalize_splits(splits, &ev.commits, meta, storage, stats);
    let ghost n = g.len() as int;
    let ghost k = first_bad(ev.commits@, n);
    proof {
        crate::finalizer::lemma_first_bad_range(ev.commits@, n);
        assert(plan_published(g, first_split_id).subrange(0, k) =~= crate::finalizer::committed_records(
            splits@,
            k,
        ));
        assert(plan_staged_tail(g, ev.commits@, first_split_id, k) =~= crate::finalizer::staged_tail(
            splits@,
            ev.commits@,
            k,
        ));
        assert forall|x: u64| #[trigger]
            stored(storage@, x) <==> stored(base_s, x) || (exists|i: int|
                0 <= i < upload_count(ev.commits@, k, n) && x == #[trigger] planned_id(
                    first_split_id,
                    i,
                )) by {
            if exists|i: int|
                0 <= i < upload_count(ev.commits@, k, n) && x == (
                #[trigger] splits@[i]).split_id {
                let i = choose|i: int|
                    0 <= i < upload_count(ev.commits@, k, n) && x == (
                    #[trigger] splits@[i]).split_id;
                assert(x == planned_id(first_split_id, i));
            }
            if exists|i: int|
                0 <= i < upload_count(ev.commits@, k, n) && x == #[trigger] planned_id(
                    first_split_id,
                    i,
                ) {
                let i = choose|i: int|
                    0 <= i < upload_count(ev.commits@, k, n) && x == #[trigger] planned_id(
                        first_split_id,
                        i,
                    );
                assert(x == splits@[i].split_id);
            }
        }
        if k == n && params.overwrite {
            assert(plan_published(g, first_split_id).subrange(0, n) =~= plan_published(
                g,
                first_split_id,
            ));
            assert(meta@ =~= run_meta(m0, g, first_split_id));
        }
    }
    match fin {
        Ok(_) => Ok(()),
        Err(e) => Err(e),
    }
}

/// Every record a successful overwrite run leaves visible is a planned
/// one: the set of searchable records after the run is exactly the plan's
/// published records, whatever the metadata store held before.
pub proof fn lemma_run_visibility(m: Seq<SplitRecord>, g: Seq<(int, int)>, first: u64)
    ensures
        published_of(run_meta(m, g, first)) =~= plan_published(g, first),
{
    let nonpub = |r: SplitRecord| r.state != SplitState::Published;
    let pubp = |r: SplitRecord| r.state == SplitState::Published;
    let p = plan_published(g, first);
    let kept = m.filter(nonpub);
    Seq::filter_distributes_over_add(kept, p, pubp);
    assert forall|i: int| 0 <= i < kept.len() implies !pubp(#[trigger] kept[i]) by {
        m.lemma_filter_pred(nonpub, i);
    }
    lemma_filter_drops_all(kept, pubp);
    assert forall|i: int| 0 <= i < p.len() implies pubp(#[trigger] p[i]) by {}
    lemma_filter_retains_all(p, pubp);
    assert(published_of(run_meta(m, g, first)) =~= kept.filter(pubp) + p.filter(pubp));
}

/// Overwriting twice with the same documents and identifiers leaves
/// exactly the same records visible as overwriting once: the visible set
/// of a successful overwrite run does not depend on the state the run
/// started from.
pub proof fn lemma_overwrite_idempotent(m: Seq<SplitRecord>, g: Seq<(int, int)>, first: u64)
    ensures
        published_of(run_meta(run_meta(m, g, first), g, first)) =~= published_of(
            run_meta(m, g, first),
        ),
{
    lemma_run_visibility(m, g, first);
    lemma_run_visibility(run_meta(m, g, first), g, first);
}

/// A filter that keeps every element returns the sequence unchanged.
proof fn lemma_filter_retains_all(s: Seq<SplitRecord>, p: spec_fn(SplitRecord) -> bool)
    requires
        forall|i: int| 0 <= i < s.len() ==> p(#[trigger] s[i]),
    ensures
        s.filter(p) =~= s,
    decreases s.len(),
{
    reveal(Seq::filter);
    if s.len() > 0 {
        assert forall|i: int| 0 <= i < s.drop_last().len() implies p(
            #[trigger] s.drop_last()[i],
        ) by {
            assert(s.drop_last()[i] == s[i]);
        }
        lemma_filter_retains_all(s.drop_last(), p);
        assert(s[s.len() - 1] == s.last());
    }
}

/// A filter that keeps no element returns the empty sequence.
proof fn lemma_filter_drops_all(s: Seq<SplitRecord>, p: spec_fn(SplitRecord) -> bool)
    requires
        forall|i: int| 0 <= i < s.len() ==> !p(#[trigger] s[i]),
    ensures
        s.filter(p) =~= Seq::<SplitRecord>::empty(),
    decreases s.len(),
{
    reveal(Seq::filter);
    if s.len() > 0 {
        assert forall|i: int| 0 <= i < s.drop_last().len() implies !p(
            #[trigger] s.drop_last()[i],
        ) by {
            assert(s.drop_last()[i] == s[i]);
        }
        lemma_filter_drops_all(s.drop_last(), p);
    }
}

} // verus!
