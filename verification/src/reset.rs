//! The reset coordinator: clears an index before an overwrite run.
//!
//! The protocol is mark-before-delete: every published split is first
//! marked as deleted in the metadata store (all marks must succeed, or the
//! reset fails closed with nothing changed), then garbage collection
//! removes the backing files of marked splits — a failure there is
//! deliberately non-fatal — and finally the metadata records of the listed
//! splits are deleted.  A crash after the mark phase can therefore never
//! resurrect stale data: the splits are already invisible to search.

use vstd::prelude::*;

use crate::error::IndexingError;
use crate::split::{SplitRecord, SplitState};
use crate::store::{
    inv_stores, is_marked, is_published, lemma_filter_membership, meta_wf, searchable, storage_wf,
    stored, with_state, MetastoreModel, StorageModel,
};

verus! {

/// The outcome of each external call the reset protocol makes.
#[derive(Clone, Copy, Debug, PartialEq, Eq, Structural)]
pub struct ResetEvents {
    /// Whether every mark-as-deleted call succeeded.
    pub marks_ok: bool,
    /// Whether garbage collection removed every marked split's files.
    pub gc_ok: bool,
    /// Whether every metadata-record deletion succeeded.
    pub deletes_ok: bool,
}

impl ResetEvents {
    /// An outcome in which every external call succeeds.
    pub fn all_ok() -> (r: ResetEvents)
        ensures
            r.marks_ok && r.gc_ok && r.deletes_ok,
    {
        ResetEvents { marks_ok: true, gc_ok: true, deletes_ok: true }
    }
}

/// The metadata store after the mark phase: every published record moved
/// to `MarkedForDeleted`, every other record untouched.
pub open spec fn mark_published(m: Seq<SplitRecord>) -> Seq<SplitRecord> {
    m.map_values(
        |r: SplitRecord|
            if r.state == SplitState::Published {
                with_state(r, SplitState::MarkedForDeleted)
            } else {
                r
            },
    )
}

/// The blob store after a successful garbage collection over `m`: only
/// the files of splits not marked for deletion remain.
pub open spec fn gc_storage_after(m: Seq<SplitRecord>, s: Seq<u64>) -> Seq<u64> {
    s.filter(|id: u64| !is_marked(m, id))
}

/// Garbage collection cannot be undone by running it again: a second pass
/// over the same metadata removes nothing more, so the set of orphaned
/// files only ever shrinks under repetition, and no split becomes visible.
pub proof fn lemma_gc_idempotent(m: Seq<SplitRecord>, s: Seq<u64>)
    ensures
        gc_storage_after(m, gc_storage_after(m, s)) =~= gc_storage_after(m, s),
    decreases s.len(),
{
    reveal(Seq::filter);
    let pred = |id: u64| !is_marked(m, id);
    if s.len() > 0 {
        lemma_gc_idempotent(m, s.drop_last());
        if pred(s.last()) {
            assert(s.filter(pred) =~= s.drop_last().filter(pred).push(s.last()));
            assert(s.filter(pred).drop_last() =~= s.drop_last().filter(pred));
        } else {
            assert(s.filter(pred) =~= s.drop_last().filter(pred));
        }
    }
}

/// Filtering a sequence of pairwise-distinct identifiers keeps them
/// pairwise distinct.
proof fn lemma_filter_unique_ids(s: Seq<u64>, pred: spec_fn(u64) -> bool, i: int, j: int)
    requires
        storage_wf(s),
        0 <= i < s.filter(pred).len(),
        0 <= j < s.filter(pred).len(),
        i != j,
    ensures
        s.filter(pred)[i] != s.filter(pred)[j],
    decreases s.len(),
{
    reveal(Seq::filter);
    if s.len() > 0 {
        let f = s.filter(pred);
        let fd = s.drop_last().filter(pred);
        assert(storage_wf(s.drop_last()));
        if pred(s.last()) && (i == fd.len() || j == fd.len()) {
            let k = if i < fd.len() {
                i
            } else {
                j
            };
            assert(f =~= fd.push(s.last()));
            lemma_filter_membership(s.drop_last(), pred, k);
            let w = choose|w: int| 0 <= w < s.drop_last().len() && s.drop_last()[w] == fd[k];
            assert(s[w] == fd[k]);
            assert(s[w] != s[s.len() - 1]);
        } else {
            if pred(s.last()) {
                assert(f =~= fd.push(s.last()));
            } else {
                assert(f =~= fd);
            }
            lemma_filter_unique_ids(s.drop_last(), pred, i, j);
        }
    }
}

/// Two filters agree when their predicates agree position by position and
/// every kept element is the same in both sequences.
proof fn lemma_filter_pointwise(
    s1: Seq<SplitRecord>,
    s2: Seq<SplitRecord>,
    p1: spec_fn(SplitRecord) -> bool,
    p2: spec_fn(SplitRecord) -> bool,
)
    requires
        s1.len() == s2.len(),
        forall|i: int| 0 <= i < s1.len() ==> (p1(#[trigger] s1[i]) <==> p2(#[trigger] s2[i])),
        forall|i: int| 0 <= i < s1.len() && p1(#[trigger] s1[i]) ==> s1[i] == s2[i],
    ensures
        s1.filter(p1) =~= s2.filter(p2),
    decreases s1.len(),
{
    reveal(Seq::filter);
    if s1.len() > 0 {
        assert forall|i: int| 0 <= i < s1.drop_last().len() implies (p1(
            #[trigger] s1.drop_last()[i],
        ) <==> p2(#[trigger] s2.drop_last()[i])) by {
            assert(s1.drop_last()[i] == s1[i]);
            assert(s2.drop_last()[i] == s2[i]);
        }
        assert forall|i: int|
            0 <= i < s1.drop_last().len() && p1(#[trigger] s1.drop_last()[i]) implies
            s1.drop_last()[i] == s2.drop_last()[i] by {
            assert(s1.drop_last()[i] == s1[i]);
            assert(s2.drop_last()[i] == s2[i]);
        }
        lemma_filter_pointwise(s1.drop_last(), s2.drop_last(), p1, p2);
        assert(s1[s1.len() - 1] == s1.last());
        assert(s2[s2.len() - 1] == s2.last());
    }
}

/// Removes the backing files of every split currently marked for
/// deletion, as a single all-or-nothing pass.
///
/// A failing pass leaves the blob store untouched; a successful pass
/// removes exactly the marked splits' files.  Either way no file of an
/// unmarked split is lost, so the set of searchable splits is unchanged.
pub fn garbage_collect(meta: &MetastoreModel, storage: &mut StorageModel, gc_ok: bool) -> (r:
    Result<(), IndexingError>)
    requires
        meta_wf(meta@),
        storage_wf(old(storage)@),
        inv_stores(meta@, old(storage)@),
    ensures
        storage_wf(final(storage)@),
        inv_stores(meta@, final(storage)@),
        gc_ok ==> r == Ok::<(), IndexingError>(()) && final(storage)@ =~= gc_storage_after(
            meta@,
            old(storage)@,
        ),
        !gc_ok ==> r == Err::<(), IndexingError>(IndexingError::GarbageCollectionError)
            && final(storage)@ =~= old(storage)@,
        forall|id: u64| stored(final(storage)@, id) ==> stored(old(storage)@, id),
        forall|id: u64|
            #[trigger] searchable(meta@, final(storage)@, id) <==> searchable(
                meta@,
                old(storage)@,
                id,
            ),
{
    if !gc_ok {
        return Err(IndexingError::GarbageCollectionError);
    }
    let ghost pred = |id: u64| !is_marked(meta@, id);
    let n = storage.split_ids.len();
    let mut kept: Vec<u64> = Vec::new();
    let mut i: usize = 0;
    proof {
        reveal(Seq::filter);
        assert(old(storage)@.subrange(0, 0).filter(pred) =~= Seq::<u64>::empty());
    }
    while i < n
        invariant
            n == old(storage)@.len(),
            storage@ == old(storage)@,
            i <= n,
            pred == (|id: u64| !is_marked(meta@, id)),
            kept@ =~= old(storage)@.subrange(0, i as int).filter(pred),
        decreases n - i,
    {
        let id = storage.split_ids[i];
        let marked = meta.split_is_marked(id);
        if !marked {
            kept.push(id);
        }
        proof {
            let pre = old(storage)@.subrange(0, i as int);
            let post = old(storage)@.subrange(0, i as int + 1);
            assert(post.drop_last() =~= pre);
            assert(post.last() == id);
            reveal(Seq::filter);
            if pred(id) {
                assert(post.filter(pred) =~= pre.filter(pred).push(id));
            } else {
                assert(post.filter(pred) =~= pre.filter(pred));
            }
        }
        i += 1;
    }
    proof {
        assert(old(storage)@.subrange(0, n as int) =~= old(storage)@);
    }
    storage.split_ids = kept;
    proof {
        broadcast use vstd::seq_lib::group_filter_ensures;

        assert forall|a: int, b: int|
            0 <= a < storage@.len() && 0 <= b < storage@.len() && a != b implies storage@[a]
            != storage@[b] by {
            lemma_filter_unique_ids(old(storage)@, pred, a, b);
        }
        assert forall|j: int|
            0 <= j < meta@.len() && (meta@[j].state == SplitState::Staged || #[trigger] meta@[
                j
            ].state == SplitState::Published) implies stored(storage@, meta@[j].split_id) by {
            let id = meta@[j].split_id;
            assert(!is_marked(meta@, id)) by {
                if is_marked(meta@, id) {
                    let w = choose|w: int|
                        0 <= w < meta@.len() && meta@[w].split_id == id && meta@[w].state
                            == SplitState::MarkedForDeleted;
                    assert(w != j ==> meta@[w].split_id != meta@[j].split_id);
                    assert(false);
                }
            }
            let w = choose|w: int| 0 <= w < old(storage)@.len() && old(storage)@[w] == id;
            old(storage)@.lemma_filter_contains(pred, w);
        }
        assert forall|id: u64|
            stored(old(storage)@, id) && !is_marked(meta@, id) implies stored(
            storage@,
            id,
        ) by {
            let w = choose|w: int| 0 <= w < old(storage)@.len() && old(storage)@[w] == id;
            old(storage)@.lemma_filter_contains(pred, w);
        }
        assert forall|id: u64| #[trigger]
            stored(storage@, id) implies stored(old(storage)@, id) by {
            let w = choose|w: int| 0 <= w < storage@.len() && storage@[w] == id;
            lemma_filter_membership(old(storage)@, pred, w);
        }
        assert forall|id: u64|
            searchable(meta@, old(storage)@, id) implies searchable(meta@, storage@, id) by {
            assert(!is_marked(meta@, id)) by {
                if is_marked(meta@, id) {
                    let a = choose|a: int|
                        0 <= a < meta@.len() && meta@[a].split_id == id && meta@[a].state
                            == SplitState::Published;
                    let b = choose|b: int|
                        0 <= b < meta@.len() && meta@[b].split_id == id && meta@[b].state
                            == SplitState::MarkedForDeleted;
                    assert(a != b ==> meta@[a].split_id != meta@[b].split_id);
                    assert(false);
                }
            }
        }
    }
    Ok(())
}

/// Clears the index: lists the published splits, marks them all as
/// deleted, garbage-collects their files, and deletes their records.
///
/// A mark failure aborts with nothing changed, so previously published
/// data stays visible and intact.  Once the mark phase has completed, no
/// previously published split is visible again, whatever happens to
/// garbage collection or to the deletions.
pub fn reset_index(meta: &mut MetastoreModel, storage: &mut StorageModel, ev: &ResetEvents) -> (r:
    Result<(), IndexingError>)
    requires
        meta_wf(old(meta)@),
        storage_wf(old(storage)@),
        inv_stores(old(meta)@, old(storage)@),
    ensures
        meta_wf(final(meta)@),
        storage_wf(final(storage)@),
        inv_stores(final(meta)@, final(storage)@),
        !ev.marks_ok ==> r == Err::<(), IndexingError>(IndexingError::MetadataError)
            && final(meta)@ =~= old(meta)@ && final(storage)@ =~= old(storage)@,
        ev.marks_ok ==> forall|id: u64| !is_published(final(meta)@, id),
        ev.marks_ok ==> forall|id: u64|
            stored(final(storage)@, id) ==> stored(old(storage)@, id),
        ev.marks_ok && ev.gc_ok ==> final(storage)@ =~= gc_storage_after(
            mark_published(old(meta)@),
            old(storage)@,
        ),
        ev.marks_ok && !ev.gc_ok ==> final(storage)@ =~= old(storage)@,
        ev.marks_ok && ev.deletes_ok ==> r == Ok::<(), IndexingError>(()) && final(meta)@
            =~= old(meta)@.filter(|rec: SplitRecord| rec.state != SplitState::Published),
        ev.marks_ok && !ev.deletes_ok ==> r == Err::<(), IndexingError>(
            IndexingError::MetadataError,
        ) && final(meta)@ =~= mark_published(old(meta)@),
{
    let listed = meta.list_published_ids();
    if !ev.marks_ok {
        return Err(IndexingError::MetadataError);
    }
    meta.mark_splits(&listed);
    proof {
        assert forall|i: int| 0 <= i < old(meta)@.len() implies meta@[i] == mark_published(
            old(meta)@,
        )[i] by {
            let rec = old(meta)@[i];
            if rec.state == SplitState::Published {
                assert(is_published(old(meta)@, rec.split_id));
                assert(listed@.contains(rec.split_id));
            } else {
                if listed@.contains(rec.split_id) {
                    let j = choose|j: int|
                        0 <= j < old(meta)@.len() && old(meta)@[j].split_id == rec.split_id
                            && old(meta)@[j].state == SplitState::Published;
                    assert(j != i ==> old(meta)@[j].split_id != old(meta)@[i].split_id);
                    assert(false);
                }
            }
        }
        assert(meta@ =~= mark_published(old(meta)@));
        assert forall|j: int|
            0 <= j < meta@.len() && (meta@[j].state == SplitState::Staged || #[trigger] meta@[
                j
            ].state == SplitState::Published) implies stored(old(storage)@, meta@[
            j
        ].split_id) by {
            assert(old(meta)@[j].state == SplitState::Staged || old(meta)@[j].state
                == SplitState::Published);
        }
    }
    let gc_result = garbage_collect(meta, storage, ev.gc_ok);
    if gc_result.is_err() {
        // all split files could not be removed; deliberately non-fatal
    }
    if !ev.deletes_ok {
        proof {
            assert forall|id: u64| !is_published(meta@, id) by {
                if is_published(meta@, id) {
                    let j = choose|j: int|
                        0 <= j < meta@.len() && meta@[j].split_id == id && meta@[j].state
                            == SplitState::Published;
                    assert(meta@[j] == mark_published(old(meta)@)[j]);
                    assert(false);
                }
            }
        }
        return Err(IndexingError::MetadataError);
    }
    let ghost marked = meta@;
    meta.delete_records(&listed);
    proof {
        let p1 = |rec: SplitRecord| !listed@.contains(rec.split_id);
        let p2 = |rec: SplitRecord| rec.state != SplitState::Published;
        assert forall|i: int| 0 <= i < marked.len() implies (p1(#[trigger] marked[i]) <==> p2(
            #[trigger] old(meta)@[i],
        )) by {
            assert(listed@.contains(old(meta)@[i].split_id) <==> old(meta)@[i].state
                == SplitState::Published) by {
                if listed@.contains(old(meta)@[i].split_id) && old(meta)@[i].state
                    != SplitState::Published {
                    let j = choose|j: int|
                        0 <= j < old(meta)@.len() && old(meta)@[j].split_id == old(
                            meta,
                        )@[i].split_id && old(meta)@[j].state == SplitState::Published;
                    assert(j != i ==> old(meta)@[j].split_id != old(meta)@[i].split_id);
                    assert(false);
                }
            }
            assert(marked[i].split_id == old(meta)@[i].split_id);
        }
        assert forall|i: int| 0 <= i < marked.len() && p1(#[trigger] marked[i]) implies marked[i]
            == old(meta)@[i] by {
            assert(!listed@.contains(old(meta)@[i].split_id));
        }
        lemma_filter_pointwise(marked, old(meta)@, p1, p2);
        assert(meta@ =~= old(meta)@.filter(p2));
        assert forall|id: u64| !is_published(meta@, id) by {
            if is_published(meta@, id) {
                let j = choose|j: int|
                    0 <= j < meta@.len() && meta@[j].split_id == id && meta@[j].state
                        == SplitState::Published;
                old(meta)@.lemma_filter_pred(p2, j);
                assert(false);
            }
        }
        assert forall|j: int|
            0 <= j < meta@.len() && (meta@[j].state == SplitState::Staged || #[trigger] meta@[
                j
            ].state == SplitState::Published) implies stored(storage@, meta@[j].split_id) by {
            lemma_filter_membership(old(meta)@, p2, j);
            let w = choose|w: int| 0 <= w < old(meta)@.len() && old(meta)@[w] == meta@[j];
            assert(old(meta)@[w].state != SplitState::Published);
            assert(marked[w] == old(meta)@[w]);
            assert(inv_stores(marked, storage@));
            assert(stored(storage@, marked[w].split_id));
        }
    }
    Ok(())
}

} // verus!
