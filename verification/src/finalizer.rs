//! The split finalizer: commits sealed splits one at a time, in the order
//! they arrive, through a two-phase handshake with the external stores.
//!
//! A commit first uploads the split's files to the blob store, then stages
//! the metadata record, then moves it to `Published`.  The first failing
//! step fails the whole commit, and every later split is abandoned in
//! place: an upload that succeeded without its record being registered
//! leaves orphaned files that only a later garbage-collection pass can
//! reconcile.  The handshake never lets a record reach `Staged` or
//! `Published` before the files are durably stored.

use vstd::prelude::*;

use crate::channel::SplitChannel;
use crate::error::IndexingError;
use crate::split::{Split, SplitRecord, SplitState};
use crate::stats::{sat_add, IndexingStatistics};
use crate::store::{
    has_record, inv_stores, meta_wf, storage_wf, stored, with_state, MetastoreModel, StorageModel,
};

verus! {

/// The capacity of the channel between builder and finalizer: the most
/// sealed-but-uncommitted splits the pipeline ever holds.
pub const SPLIT_CHANNEL_SIZE: usize = 30;

/// The position of the first failing commit outcome among the first `n`,
/// scanning from `j`; `n` when all of them succeed.
pub open spec fn first_bad_from(evs: Seq<CommitEvents>, j: int, n: int) -> int
    decreases n - j when 0 <= j <= n <= evs.len()
{
    if j >= n {
        n
    } else if !evs[j].is_ok() {
        j
    } else {
        first_bad_from(evs, j + 1, n)
    }
}

/// The position of the first failing commit outcome among the first `n`.
pub open spec fn first_bad(evs: Seq<CommitEvents>, n: int) -> int {
    first_bad_from(evs, 0, n)
}

/// The first failure position lies between `j` and `n`, everything
/// before it succeeded, and it is itself a failure unless all succeeded.
proof fn lemma_first_bad_from_range(evs: Seq<CommitEvents>, j: int, n: int)
    requires
        0 <= j <= n <= evs.len(),
    ensures
        j <= first_bad_from(evs, j, n) <= n,
        forall|i: int| j <= i < first_bad_from(evs, j, n) ==> (#[trigger] evs[i]).is_ok(),
        first_bad_from(evs, j, n) < n ==> !evs[first_bad_from(evs, j, n)].is_ok(),
    decreases n - j,
{
    if j < n && evs[j].is_ok() {
        lemma_first_bad_from_range(evs, j + 1, n);
    }
}

/// The first failure position lies between `0` and `n`, everything
/// before it succeeded, and it is itself a failure unless all succeeded.
pub proof fn lemma_first_bad_range(evs: Seq<CommitEvents>, n: int)
    requires
        0 <= n <= evs.len(),
    ensures
        0 <= first_bad(evs, n) <= n,
        forall|i: int| 0 <= i < first_bad(evs, n) ==> (#[trigger] evs[i]).is_ok(),
        first_bad(evs, n) < n ==> !evs[first_bad(evs, n)].is_ok(),
{
    lemma_first_bad_from_range(evs, 0, n);
}

/// Pins `first_bad_from` once the first failure position is known.
proof fn lemma_first_bad_from(evs: Seq<CommitEvents>, j: int, c: int, n: int)
    requires
        0 <= j <= c <= n <= evs.len(),
        forall|i: int| j <= i < c ==> (#[trigger] evs[i]).is_ok(),
        c < n ==> !evs[c].is_ok(),
    ensures
        first_bad_from(evs, j, n) == c,
    decreases c - j,
{
    if j < c {
        lemma_first_bad_from(evs, j + 1, c, n);
    }
}

/// The published records of the first `k` splits, in commit order.
pub open spec fn committed_records(sp: Seq<Split>, k: int) -> Seq<SplitRecord> {
    Seq::new(k as nat, |i: int| with_state(sp[i].record_spec(), SplitState::Published))
}

/// The staged record left behind when commit `k` failed at the publish
/// step, after its upload and staging had already succeeded.
pub open spec fn staged_tail(sp: Seq<Split>, evs: Seq<CommitEvents>, k: int) -> Seq<SplitRecord> {
    if k < sp.len() && evs[k].upload_ok && evs[k].stage_ok && !evs[k].publish_ok {
        seq![with_state(sp[k].record_spec(), SplitState::Staged)]
    } else {
        Seq::<SplitRecord>::empty()
    }
}

/// How many splits had their files uploaded: every committed one, plus
/// the failing one if its upload step succeeded.
pub open spec fn upload_count(evs: Seq<CommitEvents>, k: int, n: int) -> int {
    if k < n && evs[k].upload_ok {
        k + 1
    } else {
        k
    }
}

/// Runs the commit side of the pipeline: feeds the sealed splits through
/// the bounded channel and commits them strictly in arrival order, one at
/// a time, stopping at the first failure.
///
/// The metadata store afterwards holds the committed records appended in
/// exactly their arrival order; splits after the first failure are
/// abandoned.  Throughout the run, at most `SPLIT_CHANNEL_SIZE` sealed
/// splits are in flight between builder and finalizer.
#[verifier::loop_isolation(false)]
pub fn finalize_splits(
    splits: Vec<Split>,
    evs: &Vec<CommitEvents>,
    meta: &mut MetastoreModel,
    storage: &mut StorageModel,
    stats: &mut IndexingStatistics,
) -> (r: Result<usize, IndexingError>)
    requires
        meta_wf(old(meta)@),
        storage_wf(old(storage)@),
        inv_stores(old(meta)@, old(storage)@),
        evs@.len() >= splits@.len(),
        forall|i: int| 0 <= i < splits@.len() ==> (#[trigger] splits@[i]).sealed_wf(),
        forall|i: int|
            0 <= i < splits@.len() ==> !has_record(old(meta)@, (#[trigger] splits@[i]).split_id),
        forall|i: int, j: int|
            0 <= i < splits@.len() && 0 <= j < splits@.len() && i != j ==> splits@[i].split_id
                != splits@[j].split_id,
    ensures
        meta_wf(final(meta)@),
        storage_wf(final(storage)@),
        inv_stores(final(meta)@, final(storage)@),
        ({
            let n = splits@.len() as int;
            let k = first_bad(evs@, n);
            &&& final(meta)@ =~= old(meta)@ + committed_records(splits@, k) + staged_tail(
                splits@,
                evs@,
                k,
            )
            &&& forall|x: u64|
                stored(final(storage)@, x) <==> stored(old(storage)@, x) || exists|i: int|
                    0 <= i < upload_count(evs@, k, n) && x == (#[trigger] splits@[i]).split_id
            &&& k == n ==> r == Ok::<usize, IndexingError>(splits@.len() as usize)
            &&& k < n ==> (evs@[k].first_error() matches Some(e) && r == Err::<
                usize,
                IndexingError,
            >(e))
            &&& final(stats).num_splits_committed == sat_add(
                old(stats).num_splits_committed,
                k as u64,
            )
            &&& final(stats).num_docs == old(stats).num_docs
            &&& final(stats).num_errors == old(stats).num_errors
        }),
{
    let ghost all = splits@;
    let ghost n = splits@.len() as int;
    let mut remaining = splits;
    let total = remaining.len();
    let mut chan = SplitChannel::new(SPLIT_CHANNEL_SIZE);
    let mut committed: usize = 0;
    let mut sent: usize = 0;
    while remaining.len() > 0 || !chan.is_empty()
        invariant
            n == all.len(),
            total == n,
            evs@.len() >= n,
            committed <= sent <= total,
            remaining@ =~= all.subrange(sent as int, n),
            chan.wf(),
            chan.cap() == SPLIT_CHANNEL_SIZE,
            chan@ =~= all.subrange(committed as int, sent as int),
            forall|i: int| 0 <= i < n ==> (#[trigger] all[i]).sealed_wf(),
            forall|i: int, j: int|
                0 <= i < n && 0 <= j < n && i != j ==> all[i].split_id != all[j].split_id,
            forall|i: int|
                0 <= i < n ==> !has_record(old(meta)@, (#[trigger] all[i]).split_id),
            forall|i: int| 0 <= i < committed ==> (#[trigger] evs@[i]).is_ok(),
            meta_wf(meta@),
            storage_wf(storage@),
            inv_stores(meta@, storage@),
            meta@ =~= old(meta)@ + committed_records(all, committed as int),
            forall|x: u64|
                stored(storage@, x) <==> stored(old(storage)@, x) || exists|i: int|
                    0 <= i < committed && x == (#[trigger] all[i]).split_id,
            stats.num_splits_committed == sat_add(old(stats).num_splits_committed, committed as u64),
            stats.num_docs == old(stats).num_docs,
            stats.num_errors == old(stats).num_errors,
        decreases 2 * remaining@.len() + chan@.len(),
    {
        if remaining.len() > 0 && !chan.is_full() {
            let s = remaining.remove(0);
            proof {
                assert(sent < n);
                assert(s == all[sent as int]);
                assert(remaining@ =~= all.subrange(sent as int + 1, n));
                assert(chan@.push(s) =~= all.subrange(committed as int, sent as int + 1));
            }
            chan.send(s);
            sent += 1;
        } else {
            let s = chan.recv();
            proof {
                assert(s == all[committed as int]);
                assert(chan@ =~= all.subrange(committed as int + 1, sent as int));
                assert(!has_record(meta@, s.split_id)) by {
                    if has_record(meta@, s.split_id) {
                        let w = choose|w: int|
                            0 <= w < meta@.len() && meta@[w].split_id == s.split_id;
                        if w < old(meta)@.len() {
                            assert(old(meta)@[w].split_id == all[committed as int].split_id);
                        } else {
                            let c = w - old(meta)@.len();
                            assert(meta@[w] == committed_records(all, committed as int)[c]);
                            assert(all[c].split_id == all[committed as int].split_id);
                        }
                        assert(false);
                    }
                }
            }
            let evc = evs[committed];
            let ghost meta_pre = meta@;
            let ghost storage_pre = storage@;
            let res = commit_split(&s, evc, meta, storage, stats);
            if let Err(e) = res {
                proof {
                    lemma_first_bad_from(evs@, 0, committed as int, n);
                    let k = first_bad(evs@, n);
                    assert(k == committed);
                    assert(meta@ =~= old(meta)@ + committed_records(all, k) + staged_tail(
                        all,
                        evs@,
                        k,
                    )) by {
                        if evc.upload_ok && evc.stage_ok && !evc.publish_ok {
                            assert(meta@ =~= meta_pre.push(
                                with_state(s.record_spec(), SplitState::Staged),
                            ));
                        } else {
                            assert(meta@ =~= meta_pre);
                        }
                    }
                    assert forall|x: u64|
                        stored(storage@, x) <==> stored(old(storage)@, x) || exists|i: int|
                            0 <= i < upload_count(evs@, k, n) && x == (
                            #[trigger] all[i]).split_id by {
                        let uc = upload_count(evs@, k, n);
                        if evc.upload_ok {
                            assert(uc == k + 1);
                            if stored(storage@, x) && !stored(old(storage)@, x) {
                                if stored(storage_pre, x) {
                                    let i = choose|i: int|
                                        0 <= i < k && x == (#[trigger] all[i]).split_id;
                                    assert(0 <= i < uc && x == all[i].split_id);
                                } else {
                                    assert(x == s.split_id);
                                    assert(0 <= k < uc && x == all[k].split_id);
                                }
                            }
                            if stored(old(storage)@, x) {
                                assert(stored(storage_pre, x));
                                assert(stored(storage@, x));
                            }
                            if exists|i: int| 0 <= i < uc && x == (#[trigger] all[i]).split_id {
                                let i = choose|i: int|
                                    0 <= i < uc && x == (#[trigger] all[i]).split_id;
                                if i < k {
                                    assert(stored(storage_pre, x));
                                    assert(stored(storage@, x));
                                } else {
                                    assert(x == s.split_id);
                                    assert(stored(storage@, x));
                                }
                            }
                        } else {
                            assert(uc == k);
                            assert(storage@ =~= storage_pre);
                        }
                    }
                }
                return Err(e);
            }
            proof {
                assert(evc.is_ok());
                assert(meta@ =~= meta_pre.push(
                    with_state(s.record_spec(), SplitState::Published),
                ));
                assert(meta@ =~= old(meta)@ + committed_records(all, committed as int + 1));
                assert(sat_add(sat_add(old(stats).num_splits_committed, committed as u64), 1)
                    == sat_add(old(stats).num_splits_committed, (committed + 1) as u64));
            }
            committed += 1;
        }
    }
    proof {
        assert(committed == n);
        assert(sent == n);
        lemma_first_bad_from(evs@, 0, n, n);
        assert(staged_tail(all, evs@, n) =~= Seq::<SplitRecord>::empty());
        assert(meta@ =~= old(meta)@ + committed_records(all, n) + staged_tail(all, evs@, n));
    }
    Ok(committed)
}

/// The outcome of each external call that one commit makes; handed to the
/// finalizer by whoever drives the external stores.
#[derive(Clone, Copy, Debug, PartialEq, Eq, Structural)]
pub struct CommitEvents {
    /// Whether the blob store accepted the split's files.
    pub upload_ok: bool,
    /// Whether the metadata store accepted the staged record.
    pub stage_ok: bool,
    /// Whether the metadata store moved the record to `Published`.
    pub publish_ok: bool,
}

impl CommitEvents {
    /// An outcome in which every external call succeeds.
    pub fn all_ok() -> (r: CommitEvents)
        ensures
            r.is_ok(),
    {
        CommitEvents { upload_ok: true, stage_ok: true, publish_ok: true }
    }

    /// Whether every step of the commit succeeded.
    pub open spec fn is_ok(self) -> bool {
        self.upload_ok && self.stage_ok && self.publish_ok
    }

    /// The error of the first failing step, if any: an upload failure
    /// fails with `UploadError`, either metadata step with
    /// `MetadataError`.
    pub open spec fn first_error(self) -> Option<IndexingError> {
        if !self.upload_ok {
            Some(IndexingError::UploadError)
        } else if !self.stage_ok || !self.publish_ok {
            Some(IndexingError::MetadataError)
        } else {
            None
        }
    }
}

/// Commits one sealed split: uploads its files, stages its record, then
/// publishes it and counts it in the statistics.
///
/// Whatever the outcome, the durability invariant holds afterwards, the
/// blob store never loses a file, and the metadata store is changed only
/// by appending this split's record.
pub fn commit_split(
    split: &Split,
    ev: CommitEvents,
    meta: &mut MetastoreModel,
    storage: &mut StorageModel,
    stats: &mut IndexingStatistics,
) -> (r: Result<(), IndexingError>)
    requires
        meta_wf(old(meta)@),
        storage_wf(old(storage)@),
        inv_stores(old(meta)@, old(storage)@),
        !has_record(old(meta)@, split.split_id),
        split.sealed_wf(),
    ensures
        meta_wf(final(meta)@),
        storage_wf(final(storage)@),
        inv_stores(final(meta)@, final(storage)@),
        ev.is_ok() ==> r == Ok::<(), IndexingError>(()),
        ev.first_error() matches Some(e) ==> r == Err::<(), IndexingError>(e),
        // the blob store gains at most this split's files, and loses none
        !ev.upload_ok ==> final(storage)@ =~= old(storage)@,
        ev.upload_ok ==> forall|x: u64|
            stored(final(storage)@, x) <==> stored(old(storage)@, x) || x == split.split_id,
        // the metadata store is changed only at this split's record
        !(ev.upload_ok && ev.stage_ok) ==> final(meta)@ =~= old(meta)@,
        ev.upload_ok && ev.stage_ok && !ev.publish_ok ==> final(meta)@ =~= old(meta)@.push(
            with_state(split.record_spec(), SplitState::Staged),
        ),
        ev.is_ok() ==> final(meta)@ =~= old(meta)@.push(
            with_state(split.record_spec(), SplitState::Published),
        ),
        // statistics count exactly the committed split
        ev.is_ok() ==> final(stats).num_splits_committed == sat_add(
            old(stats).num_splits_committed,
            1,
        ),
        !ev.is_ok() ==> final(stats).num_splits_committed == old(stats).num_splits_committed,
        final(stats).num_docs == old(stats).num_docs,
        final(stats).num_errors == old(stats).num_errors,
{
    if !ev.upload_ok {
        return Err(IndexingError::UploadError);
    }
    storage.upload(split.split_id);
    if !ev.stage_ok {
        return Err(IndexingError::MetadataError);
    }
    let mut rec = split.record();
    rec.state = SplitState::Staged;
    meta.insert_record(rec);
    if !ev.publish_ok {
        return Err(IndexingError::MetadataError);
    }
    let ghost staged = meta@;
    meta.set_state(split.split_id, SplitState::Published);
    proof {
        assert forall|i: int| 0 <= i < staged.len() - 1 implies meta@[i] == old(meta)@[i] by {
            assert(staged[i] == old(meta)@[i]);
            assert(staged[i].split_id != split.split_id);
        }
        assert(staged[staged.len() - 1].split_id == split.split_id);
        assert(meta@[staged.len() - 1] == with_state(
            staged[staged.len() - 1],
            SplitState::Published,
        ));
        assert(meta@ =~= old(meta)@.push(
            with_state(split.record_spec(), SplitState::Published),
        ));
    }
    stats.add_split_committed();
    Ok(())
}

} // verus!
