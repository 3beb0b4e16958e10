//! Models of the two external collaborators: the metadata store and the
//! blob store.
//!
//! Both stores are independently failing external systems; the pipeline
//! only ever drives them through single atomic operations and takes the
//! success or failure of each call as an input.  Their state is modelled
//! here as plain values so that every protocol decision around them can be
//! verified: the metadata store as the sequence of split records it keeps,
//! the blob store as the set of split identifiers whose files it holds.

use vstd::prelude::*;

use crate::split::{SplitRecord, SplitState};

verus! {

/// Whether some record in `m` carries `id`.
pub open spec fn has_record(m: Seq<SplitRecord>, id: u64) -> bool {
    exists|i: int| 0 <= i < m.len() && m[i].split_id == id
}

/// Whether `m` carries a `Published` record for `id`.
pub open spec fn is_published(m: Seq<SplitRecord>, id: u64) -> bool {
    exists|i: int|
        0 <= i < m.len() && m[i].split_id == id && m[i].state == SplitState::Published
}

/// Whether `m` carries a `MarkedForDeleted` record for `id`.
pub open spec fn is_marked(m: Seq<SplitRecord>, id: u64) -> bool {
    exists|i: int|
        0 <= i < m.len() && m[i].split_id == id && m[i].state == SplitState::MarkedForDeleted
}

/// Whether the blob store holds the files of split `id`.
pub open spec fn stored(s: Seq<u64>, id: u64) -> bool {
    s.contains(id)
}

/// A split is searchable exactly when its files are durably in the blob
/// store and its metadata record is `Published`.
pub open spec fn searchable(m: Seq<SplitRecord>, s: Seq<u64>, id: u64) -> bool {
    is_published(m, id) && stored(s, id)
}

/// No two records of the metadata store share a split identifier.
pub open spec fn meta_wf(m: Seq<SplitRecord>) -> bool {
    forall|i: int, j: int|
        0 <= i < m.len() && 0 <= j < m.len() && i != j ==> m[i].split_id != m[j].split_id
}

/// The blob store lists each stored split at most once.
pub open spec fn storage_wf(s: Seq<u64>) -> bool {
    forall|i: int, j: int| 0 <= i < s.len() && 0 <= j < s.len() && i != j ==> s[i] != s[j]
}

/// The durability invariant: a record never reaches `Staged` or
/// `Published` before the split's files are in the blob store.
pub open spec fn inv_stores(m: Seq<SplitRecord>, s: Seq<u64>) -> bool {
    forall|i: int|
        0 <= i < m.len() && (m[i].state == SplitState::Staged || #[trigger] m[i].state
            == SplitState::Published) ==> stored(s, m[i].split_id)
}

/// The records of `m` that are visible to search, in store order.
pub open spec fn published_of(m: Seq<SplitRecord>) -> Seq<SplitRecord> {
    m.filter(|r: SplitRecord| r.state == SplitState::Published)
}

/// The record of `rec`, moved to `state`.
pub open spec fn with_state(rec: SplitRecord, state: SplitState) -> SplitRecord {
    SplitRecord {
        split_id: rec.split_id,
        state,
        document_count: rec.document_count,
        size_in_bytes: rec.size_in_bytes,
    }
}

/// Atomic split visibility: while the durability invariant holds, a
/// split is searchable exactly when its metadata record is `Published` —
/// its files are then already durably in the blob store, so no state in
/// which a record is visible without its files is ever observable.
pub proof fn lemma_atomic_split_visibility(m: Seq<SplitRecord>, s: Seq<u64>, id: u64)
    requires
        inv_stores(m, s),
    ensures
        searchable(m, s, id) <==> is_published(m, id),
{
    if is_published(m, id) {
        let w = choose|w: int|
            0 <= w < m.len() && m[w].split_id == id && m[w].state == SplitState::Published;
        assert(stored(s, m[w].split_id));
    }
}

/// The model of the metadata store: the sequence of split records it
/// keeps, in the order they were registered.
pub struct MetastoreModel {
    /// The records, one per known split.
    pub records: Vec<SplitRecord>,
}

/// The model of the blob store: the identifiers of the splits whose files
/// it durably holds.
pub struct StorageModel {
    /// The stored split identifiers, each listed once.
    pub split_ids: Vec<u64>,
}

impl MetastoreModel {
    /// The records the store keeps.
    pub open spec fn view(self) -> Seq<SplitRecord> {
        self.records@
    }

    /// An empty metadata store.
    pub fn new() -> (r: MetastoreModel)
        ensures
            r@ =~= Seq::<SplitRecord>::empty(),
            meta_wf(r@),
    {
        MetastoreModel { records: Vec::new() }
    }

    /// Lists the identifiers of every `Published` split.
    pub fn list_published_ids(&self) -> (r: Vec<u64>)
        requires
            meta_wf(self@),
        ensures
            forall|id: u64| r@.contains(id) <==> is_published(self@, id),
            storage_wf(r@),
    {
        let mut r: Vec<u64> = Vec::new();
        let n = self.records.len();
        let mut i: usize = 0;
        while i < n
            invariant
                n == self@.len(),
                i <= n,
                meta_wf(self@),
                forall|id: u64|
                    r@.contains(id) <==> exists|j: int|
                        0 <= j < i && self@[j].split_id == id && self@[j].state
                            == SplitState::Published,
                storage_wf(r@),
            decreases n - i,
        {
            let rec = self.records[i];
            if rec.state == SplitState::Published {
                proof {
                    if r@.contains(rec.split_id) {
                        let j = choose|j: int|
                            0 <= j < i && self@[j].split_id == rec.split_id && self@[j].state
                                == SplitState::Published;
                        assert(self@[j].split_id == self@[i as int].split_id);
                        assert(false);
                    }
                }
                let ghost r0 = r@;
                r.push(rec.split_id);
                proof {
                    assert forall|id: u64| #[trigger]
                        r@.contains(id) implies r0.contains(id) || id == rec.split_id by {
                        let w = choose|w: int| 0 <= w < r@.len() && r@[w] == id;
                        if w < r0.len() {
                            assert(r0[w] == id);
                        }
                    }
                    assert forall|id: u64| #[trigger]
                        r0.contains(id) implies r@.contains(id) by {
                        let w = choose|w: int| 0 <= w < r0.len() && r0[w] == id;
                        assert(r@[w] == id);
                    }
                    assert(r@[r0.len() as int] == rec.split_id);
                    assert(r@.contains(rec.split_id));
                    assert forall|id: u64| #[trigger]
                        r@.contains(id) implies exists|j: int|
                        0 <= j < i as int + 1 && self@[j].split_id == id && self@[j].state
                            == SplitState::Published by {
                        if id == rec.split_id {
                            assert(self@[i as int].split_id == id && self@[i as int].state
                                == SplitState::Published);
                        } else {
                            assert(r0.contains(id));
                        }
                    }
                    assert forall|id: u64|
                        (exists|j: int|
                            0 <= j < i as int + 1 && self@[j].split_id == id && self@[j].state
                                == SplitState::Published) implies #[trigger] r@.contains(id) by {
                        let j = choose|j: int|
                            0 <= j < i as int + 1 && self@[j].split_id == id && self@[j].state
                                == SplitState::Published;
                        if j < i as int {
                            assert(r0.contains(id));
                        } else {
                            assert(id == rec.split_id);
                        }
                    }
                }
            } else {
                proof {
                    assert forall|id: u64|
                        (exists|j: int|
                            0 <= j < i as int + 1 && self@[j].split_id == id && self@[j].state
                                == SplitState::Published) implies #[trigger] r@.contains(id) by {
                        let j = choose|j: int|
                            0 <= j < i as int + 1 && self@[j].split_id == id && self@[j].state
                                == SplitState::Published;
                        assert(j < i as int);
                    }
                }
            }
            i += 1;
        }
        r
    }

    /// Registers a new record; the identifier must not be taken yet.
    pub fn insert_record(&mut self, rec: SplitRecord)
        requires
            meta_wf(old(self)@),
            !has_record(old(self)@, rec.split_id),
        ensures
            final(self)@ =~= old(self)@.push(rec),
            meta_wf(final(self)@),
    {
        self.records.push(rec);
    }

    /// Moves the record of `id` to `state`, leaving every other record and
    /// the order of records unchanged.
    pub fn set_state(&mut self, id: u64, state: SplitState)
        requires
            meta_wf(old(self)@),
        ensures
            final(self)@.len() == old(self)@.len(),
            forall|i: int|
                0 <= i < old(self)@.len() && old(self)@[i].split_id != id ==> final(self)@[i]
                    == old(self)@[i],
            forall|i: int|
                0 <= i < old(self)@.len() && old(self)@[i].split_id == id ==> final(self)@[i]
                    == with_state(old(self)@[i], state),
            meta_wf(final(self)@),
    {
        let n = self.records.len();
        let mut i: usize = 0;
        while i < n
            invariant
                n == self@.len(),
                n == old(self)@.len(),
                i <= n,
                meta_wf(old(self)@),
                forall|j: int| i <= j < n ==> self@[j] == old(self)@[j],
                forall|j: int|
                    0 <= j < i && old(self)@[j].split_id != id ==> self@[j] == old(self)@[j],
                forall|j: int|
                    0 <= j < i && old(self)@[j].split_id == id ==> self@[j] == with_state(
                        old(self)@[j],
                        state,
                    ),
            decreases n - i,
        {
            let rec = self.records[i];
            if rec.split_id == id {
                let updated = SplitRecord {
                    split_id: rec.split_id,
                    state,
                    document_count: rec.document_count,
                    size_in_bytes: rec.size_in_bytes,
                };
                self.records.set(i, updated);
            }
            i += 1;
        }
        proof {
            assert forall|a: int, b: int|
                0 <= a < self@.len() && 0 <= b < self@.len() && a != b implies self@[a].split_id
                != self@[b].split_id by {
                assert(self@[a].split_id == old(self)@[a].split_id);
                assert(self@[b].split_id == old(self)@[b].split_id);
            }
        }
    }

    /// Whether the record of `id` is `MarkedForDeleted`.
    pub fn split_is_marked(&self, id: u64) -> (r: bool)
        ensures
            r == is_marked(self@, id),
    {
        let n = self.records.len();
        let mut i: usize = 0;
        let mut found = false;
        while i < n
            invariant
                n == self@.len(),
                i <= n,
                found == exists|j: int|
                    0 <= j < i && self@[j].split_id == id && self@[j].state
                        == SplitState::MarkedForDeleted,
            decreases n - i,
        {
            let rec = self.records[i];
            if rec.split_id == id && rec.state == SplitState::MarkedForDeleted {
                found = true;
            }
            i += 1;
        }
        found
    }

    /// Marks every split in `ids` as deleted, leaving every other record
    /// untouched.
    pub fn mark_splits(&mut self, ids: &Vec<u64>)
        requires
            meta_wf(old(self)@),
        ensures
            final(self)@.len() == old(self)@.len(),
            forall|i: int|
                0 <= i < old(self)@.len() && ids@.contains(old(self)@[i].split_id)
                    ==> final(self)@[i] == with_state(old(self)@[i], SplitState::MarkedForDeleted),
            forall|i: int|
                0 <= i < old(self)@.len() && !ids@.contains(old(self)@[i].split_id)
                    ==> final(self)@[i] == old(self)@[i],
            meta_wf(final(self)@),
    {
        let m = ids.len();
        let mut k: usize = 0;
        proof {
            assert(forall|x: u64| !ids@.subrange(0, 0).contains(x));
        }
        while k < m
            invariant
                m == ids@.len(),
                k <= m,
                meta_wf(old(self)@),
                meta_wf(self@),
                self@.len() == old(self)@.len(),
                forall|i: int|
                    0 <= i < old(self)@.len() && ids@.subrange(0, k as int).contains(
                        old(self)@[i].split_id,
                    ) ==> self@[i] == with_state(old(self)@[i], SplitState::MarkedForDeleted),
                forall|i: int|
                    0 <= i < old(self)@.len() && !ids@.subrange(0, k as int).contains(
                        old(self)@[i].split_id,
                    ) ==> self@[i] == old(self)@[i],
            decreases m - k,
        {
            let ghost pre = self@;
            let id = ids[k];
            self.set_state(id, SplitState::MarkedForDeleted);
            proof {
                let sub0 = ids@.subrange(0, k as int);
                let sub1 = ids@.subrange(0, k as int + 1);
                assert forall|x: u64| #[trigger]
                    sub1.contains(x) implies sub0.contains(x) || x == ids@[k as int] by {
                    let w = choose|w: int| 0 <= w < sub1.len() && sub1[w] == x;
                    if w < k as int {
                        assert(sub0[w] == x);
                    }
                }
                assert forall|x: u64|
                    sub0.contains(x) || x == ids@[k as int] implies #[trigger] sub1.contains(
                    x,
                ) by {
                    if sub0.contains(x) {
                        let w = choose|w: int| 0 <= w < sub0.len() && sub0[w] == x;
                        assert(sub1[w] == x);
                    } else {
                        assert(sub1[k as int] == x);
                    }
                }
                assert forall|i: int|
                    0 <= i < old(self)@.len() && ids@.subrange(0, k as int + 1).contains(
                        old(self)@[i].split_id,
                    ) implies self@[i] == with_state(
                    old(self)@[i],
                    SplitState::MarkedForDeleted,
                ) by {
                    assert(pre[i].split_id == old(self)@[i].split_id);
                }
                assert forall|i: int|
                    0 <= i < old(self)@.len() && !ids@.subrange(0, k as int + 1).contains(
                        old(self)@[i].split_id,
                    ) implies self@[i] == old(self)@[i] by {
                    assert(pre[i].split_id == old(self)@[i].split_id);
                    assert(pre[i].split_id != id);
                }
            }
            k += 1;
        }
        proof {
            assert(ids@.subrange(0, m as int) =~= ids@);
        }
    }

    /// Removes every record whose identifier is in `ids`, keeping the
    /// order of the survivors.
    pub fn delete_records(&mut self, ids: &Vec<u64>)
        requires
            meta_wf(old(self)@),
        ensures
            final(self)@ =~= old(self)@.filter(|r: SplitRecord| !ids@.contains(r.split_id)),
            meta_wf(final(self)@),
    {
        let ghost pred = |r: SplitRecord| !ids@.contains(r.split_id);
        let n = self.records.len();
        let mut kept: Vec<SplitRecord> = Vec::new();
        let mut i: usize = 0;
        proof {
            reveal(Seq::filter);
            assert(old(self)@.subrange(0, 0).filter(pred) =~= Seq::<SplitRecord>::empty());
        }
        while i < n
            invariant
                n == old(self)@.len(),
                self@ == old(self)@,
                i <= n,
                pred == (|r: SplitRecord| !ids@.contains(r.split_id)),
                kept@ =~= old(self)@.subrange(0, i as int).filter(pred),
            decreases n - i,
        {
            let rec = self.records[i];
            let mut hit = false;
            let m = ids.len();
            let mut j: usize = 0;
            while j < m
                invariant
                    m == ids@.len(),
                    j <= m,
                    hit == exists|k: int| 0 <= k < j && ids@[k] == rec.split_id,
                decreases m - j,
            {
                if ids[j] == rec.split_id {
                    hit = true;
                }
                j += 1;
            }
            assert(hit == ids@.contains(rec.split_id));
            if !hit {
                kept.push(rec);
            }
            proof {
                let pre = old(self)@.subrange(0, i as int);
                let post = old(self)@.subrange(0, i as int + 1);
                assert(post.drop_last() =~= pre);
                assert(post.last() == rec);
                reveal(Seq::filter);
                if pred(rec) {
                    assert(post.filter(pred) =~= pre.filter(pred).push(rec));
                } else {
                    assert(post.filter(pred) =~= pre.filter(pred));
                }
            }
            i += 1;
        }
        proof {
            assert(old(self)@.subrange(0, n as int) =~= old(self)@);
        }
        self.records = kept;
        proof {
            assert forall|a: int, b: int|
                0 <= a < self@.len() && 0 <= b < self@.len() && a != b implies self@[a].split_id
                != self@[b].split_id by {
                lemma_filter_unique(old(self)@, pred, a, b);
            }
        }
    }
}

/// Every element of a filtered sequence occurs in the sequence it was
/// filtered from.
pub proof fn lemma_filter_membership<A>(m: Seq<A>, pred: spec_fn(A) -> bool, k: int)
    requires
        0 <= k < m.filter(pred).len(),
    ensures
        exists|w: int| 0 <= w < m.len() && m[w] == m.filter(pred)[k],
    decreases m.len(),
{
    reveal(Seq::filter);
    if m.len() > 0 {
        let fd = m.drop_last().filter(pred);
        if pred(m.last()) && k == fd.len() {
            assert(m[m.len() - 1] == m.filter(pred)[k]);
        } else {
            lemma_filter_membership(m.drop_last(), pred, k);
            let w = choose|w: int| 0 <= w < m.drop_last().len() && m.drop_last()[w] == fd[k];
            assert(m[w] == m.filter(pred)[k]);
        }
    }
}

/// Filtering a store with pairwise-distinct identifiers keeps the
/// identifiers pairwise distinct.
pub proof fn lemma_filter_unique(m: Seq<SplitRecord>, pred: spec_fn(SplitRecord) -> bool, i: int, j: int)
    requires
        meta_wf(m),
        0 <= i < m.filter(pred).len(),
        0 <= j < m.filter(pred).len(),
        i != j,
    ensures
        m.filter(pred)[i].split_id != m.filter(pred)[j].split_id,
    decreases m.len(),
{
    reveal(Seq::filter);
    if m.len() > 0 {
        let f = m.filter(pred);
        let fd = m.drop_last().filter(pred);
        assert(meta_wf(m.drop_last()));
        if pred(m.last()) && (i == fd.len() || j == fd.len()) {
            let k = if i < fd.len() {
                i
            } else {
                j
            };
            assert(f =~= fd.push(m.last()));
            lemma_filter_membership(m.drop_last(), pred, k);
            let w = choose|w: int|
                0 <= w < m.drop_last().len() && m.drop_last()[w] == fd[k];
            assert(m[w] == fd[k]);
            assert(m[w].split_id != m[m.len() - 1].split_id);
        } else {
            if pred(m.last()) {
                assert(f =~= fd.push(m.last()));
            } else {
                assert(f =~= fd);
            }
            lemma_filter_unique(m.drop_last(), pred, i, j);
        }
    }
}

impl StorageModel {
    /// The identifiers of the stored splits.
    pub open spec fn view(self) -> Seq<u64> {
        self.split_ids@
    }

    /// An empty blob store.
    pub fn new() -> (r: StorageModel)
        ensures
            r@ =~= Seq::<u64>::empty(),
            storage_wf(r@),
    {
        StorageModel { split_ids: Vec::new() }
    }

    /// Whether the files of split `id` are present.
    pub fn contains(&self, id: u64) -> (r: bool)
        ensures
            r == stored(self@, id),
    {
        let n = self.split_ids.len();
        let mut i: usize = 0;
        let mut found = false;
        while i < n
            invariant
                n == self@.len(),
                i <= n,
                found == exists|j: int| 0 <= j < i && self@[j] == id,
            decreases n - i,
        {
            if self.split_ids[i] == id {
                found = true;
            }
            i += 1;
        }
        found
    }

    /// Records that the files of split `id` are durably written; writing
    /// the same split's files again changes nothing.
    pub fn upload(&mut self, id: u64)
        requires
            storage_wf(old(self)@),
        ensures
            storage_wf(final(self)@),
            stored(final(self)@, id),
            forall|x: u64| stored(final(self)@, x) <==> stored(old(self)@, x) || x == id,
            !stored(old(self)@, id) ==> final(self)@ =~= old(self)@.push(id),
            stored(old(self)@, id) ==> final(self)@ =~= old(self)@,
    {
        if !self.contains(id) {
            let ghost s0 = self@;
            self.split_ids.push(id);
            proof {
                assert forall|x: u64| #[trigger]
                    self@.contains(x) implies s0.contains(x) || x == id by {
                    let w = choose|w: int| 0 <= w < self@.len() && self@[w] == x;
                    if w < s0.len() {
                        assert(s0[w] == x);
                    }
                }
                assert forall|x: u64| #[trigger]
                    s0.contains(x) implies self@.contains(x) by {
                    let w = choose|w: int| 0 <= w < s0.len() && s0[w] == x;
                    assert(self@[w] == x);
                }
                assert(self@[s0.len() as int] == id);
                assert(self@.contains(id));
            }
        }
    }
}

} // verus!
