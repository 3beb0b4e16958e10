//! The split builder: turns the document sequence into sealed splits
//! without exceeding its share of the memory budget.
//!
//! The builder accumulates documents into an in-progress split and seals
//! it as soon as the accumulated bytes reach the budget share, or when the
//! input is exhausted.  Sealing assigns the split the next free identifier
//! and fixes its file set.  A malformed document aborts the whole builder
//! phase; there is no skip-and-continue policy at this layer.

use vstd::prelude::*;

use crate::error::IndexingError;
use crate::split::{Document, Split, SplitState};

verus! {

/// The sizes of the documents, in input order.
pub open spec fn sizes_of(docs: Seq<Document>) -> Seq<u64> {
    docs.map_values(|d: Document| d.size_in_bytes)
}

/// Total number of bytes in `sizes`.
pub open spec fn sum_sizes(sizes: Seq<u64>) -> int
    decreases sizes.len(),
{
    if sizes.len() == 0 {
        0
    } else {
        sum_sizes(sizes.drop_last()) + sizes.last()
    }
}

/// The sealing plan of the builder: scanning the sizes left to right from
/// position `j` with `c` documents and `b` bytes already accumulated,
/// seal whenever the accumulated bytes reach `budget`, and seal whatever
/// is left when the input ends.  Each plan entry is one split's document
/// count and byte size.
pub open spec fn plan_from(sizes: Seq<u64>, j: int, c: int, b: int, budget: u64) -> Seq<(int, int)>
    decreases sizes.len() - j when 0 <= j <= sizes.len()
{
    if j >= sizes.len() {
        if c > 0 {
            seq![(c, b)]
        } else {
            seq![]
        }
    } else {
        if b + sizes[j] >= budget {
            seq![(c + 1, b + sizes[j])] + plan_from(sizes, j + 1, 0, 0, budget)
        } else {
            plan_from(sizes, j + 1, c + 1, b + sizes[j], budget)
        }
    }
}

/// The splits the builder seals for `sizes` under `budget`, as pairs of
/// document count and byte size, in seal order.
pub open spec fn seal_plan(sizes: Seq<u64>, budget: u64) -> Seq<(int, int)> {
    plan_from(sizes, 0, 0, 0, budget)
}

/// A sequence of sealed splits matches the plan `g` when the `i`-th split
/// carries identifier `first_id + i`, the planned document count and byte
/// size, and its single bundle file.
pub open spec fn matches_plan(r: Seq<Split>, g: Seq<(int, int)>, first_id: u64) -> bool {
    &&& r.len() == g.len()
    &&& forall|i: int|
        0 <= i < r.len() ==> {
            &&& (#[trigger] r[i]).split_id == first_id + i
            &&& r[i].document_count == g[i].0
            &&& r[i].size_in_bytes == g[i].1
            &&& r[i].sealed_wf()
        }
}

/// Sums never shrink on a prefix: the bytes of a prefix are at most the
/// bytes of the whole.
proof fn lemma_sum_split(sizes: Seq<u64>, i: int)
    requires
        0 <= i <= sizes.len(),
    ensures
        sum_sizes(sizes) == sum_sizes(sizes.subrange(0, i)) + sum_sizes(
            sizes.subrange(i, sizes.len() as int),
        ),
    decreases sizes.len() - i,
{
    if i == sizes.len() {
        assert(sizes.subrange(0, i) =~= sizes);
        assert(sum_sizes(sizes.subrange(i, sizes.len() as int)) == 0);
    } else {
        lemma_sum_split(sizes, i + 1);
        let tail_i = sizes.subrange(i, sizes.len() as int);
        let pre_i = sizes.subrange(0, i);
        let pre_i1 = sizes.subrange(0, i + 1);
        lemma_sum_first(tail_i);
        assert(tail_i.drop_first() =~= sizes.subrange(i + 1, sizes.len() as int));
        assert(pre_i1.drop_last() =~= pre_i);
        assert(pre_i1.last() == sizes[i]);
        assert(tail_i[0] == sizes[i]);
    }
}

/// Splitting a non-empty sum at its first element.
proof fn lemma_sum_first(sizes: Seq<u64>)
    requires
        sizes.len() > 0,
    ensures
        sum_sizes(sizes) == sizes[0] + sum_sizes(sizes.drop_first()),
    decreases sizes.len(),
{
    if sizes.len() == 1 {
        assert(sizes.drop_first() =~= Seq::<u64>::empty());
        assert(sizes.drop_last() =~= Seq::<u64>::empty());
    } else {
        lemma_sum_first(sizes.drop_last());
        assert(sizes.drop_last()[0] == sizes[0]);
        assert(sizes.drop_last().drop_first() =~= sizes.drop_first().drop_last());
        assert(sizes.drop_first().last() == sizes.last());
    }
}

/// Every size is non-negative, so every sum is.
proof fn lemma_sum_nonneg(sizes: Seq<u64>)
    ensures
        sum_sizes(sizes) >= 0,
    decreases sizes.len(),
{
    if sizes.len() > 0 {
        lemma_sum_nonneg(sizes.drop_last());
    }
}

/// The plan never seals more splits than it has documents left, plus the
/// one split already open.
pub proof fn lemma_plan_len(sizes: Seq<u64>, j: int, c: int, b: int, budget: u64)
    requires
        0 <= j <= sizes.len(),
    ensures
        plan_from(sizes, j, c, b, budget).len() <= sizes.len() - j + if c > 0 {
            1int
        } else {
            0int
        },
    decreases sizes.len() - j,
{
    if j < sizes.len() {
        if b + sizes[j] >= budget {
            lemma_plan_len(sizes, j + 1, 0, 0, budget);
        } else {
            lemma_plan_len(sizes, j + 1, c + 1, b + sizes[j], budget);
        }
    }
}

/// Builds and seals splits for `docs` under the memory budget share
/// `budget`, assigning identifiers consecutively from `first_split_id`.
///
/// On success the sealed splits are exactly the seal plan of the document
/// sizes; a malformed document fails the whole phase instead, and no split
/// is handed out.
pub fn build_splits(docs: &Vec<Document>, budget: u64, first_split_id: u64) -> (r: Result<
    Vec<Split>,
    IndexingError,
>)
    requires
        sum_sizes(sizes_of(docs@)) <= u64::MAX,
        first_split_id + docs@.len() <= u64::MAX,
    ensures
        match r {
            Ok(splits) => {
                &&& forall|i: int| 0 <= i < docs@.len() ==> (#[trigger] docs@[i]).well_formed
                &&& matches_plan(splits@, seal_plan(sizes_of(docs@), budget), first_split_id)
            },
            Err(e) => {
                &&& e == IndexingError::DocumentError
                &&& exists|i: int| 0 <= i < docs@.len() && !(#[trigger] docs@[i]).well_formed
            },
        },
{
    let ghost sizes = sizes_of(docs@);
    let n = docs.len();
    let mut sealed: Vec<Split> = Vec::new();
    let mut cur_count: u64 = 0;
    let mut cur_size: u64 = 0;
    let mut j: usize = 0;
    proof {
        lemma_sum_nonneg(sizes);
    }
    while j < n
        invariant
            n == docs@.len(),
            sizes == sizes_of(docs@),
            sum_sizes(sizes) <= u64::MAX,
            first_split_id + n <= u64::MAX,
            j <= n,
            cur_count <= j,
            sealed@.len() + if cur_count > 0 {
                1int
            } else {
                0int
            } <= j,
            cur_size == sum_sizes(sizes.subrange(j - cur_count, j as int)),
            cur_size <= sum_sizes(sizes.subrange(0, j as int)),
            forall|i: int| 0 <= i < j ==> (#[trigger] docs@[i]).well_formed,
            seal_plan(sizes, budget) =~= sealed@.map_values(
                |s: Split| (s.document_count as int, s.size_in_bytes as int),
            ) + plan_from(sizes, j as int, cur_count as int, cur_size as int, budget),
            matches_plan(
                sealed@,
                sealed@.map_values(|s: Split| (s.document_count as int, s.size_in_bytes as int)),
                first_split_id,
            ),
        decreases n - j,
    {
        let d = docs[j];
        if !d.well_formed {
            return Err(IndexingError::DocumentError);
        }
        proof {
            lemma_sum_split(sizes, j as int);
            lemma_sum_split(sizes, j as int + 1);
            lemma_sum_nonneg(sizes.subrange(j as int + 1, sizes.len() as int));
            lemma_sum_nonneg(sizes.subrange(0, j as int - cur_count as int));
            let pre = sizes.subrange(0, j as int);
            let pre1 = sizes.subrange(0, j as int + 1);
            assert(pre1.drop_last() =~= pre);
            assert(pre1.last() == sizes[j as int]);
            lemma_sum_split_prefix(sizes, j as int - cur_count as int, j as int);
            // cur_size + d.size_in_bytes stays within the total input bytes
            assert(sizes[j as int] == d.size_in_bytes);
            assert(cur_size + d.size_in_bytes <= sum_sizes(pre1));
            assert(sum_sizes(pre1) <= sum_sizes(sizes));
        }
        let new_size = cur_size + d.size_in_bytes;
        let new_count = cur_count + 1;
        let ghost cur_seg = sizes.subrange(j - cur_count, j as int);
        let ghost new_seg = sizes.subrange(j - cur_count, j as int + 1);
        proof {
            assert(new_seg.drop_last() =~= cur_seg);
            assert(new_seg.last() == sizes[j as int]);
        }
        if new_size >= budget {
            let split = Split {
                split_id: first_split_id + sealed.len() as u64,
                state: SplitState::Sealed,
                document_count: new_count,
                size_in_bytes: new_size,
                files: make_bundle(new_size),
            };
            let ghost sealed0 = sealed@;
            sealed.push(split);
            proof {
                assert(sealed@.drop_last() =~= sealed0);
                assert(sealed@.map_values(
                    |s: Split| (s.document_count as int, s.size_in_bytes as int),
                ) =~= sealed0.map_values(
                    |s: Split| (s.document_count as int, s.size_in_bytes as int),
                ).push((new_count as int, new_size as int)));
                assert(plan_from(sizes, j as int, cur_count as int, cur_size as int, budget)
                    =~= seq![(new_count as int, new_size as int)] + plan_from(
                    sizes,
                    j as int + 1,
                    0,
                    0,
                    budget,
                ));
                assert(seal_plan(sizes, budget) =~= sealed@.map_values(
                    |s: Split| (s.document_count as int, s.size_in_bytes as int),
                ) + plan_from(sizes, j as int + 1, 0, 0, budget));
                assert(sizes.subrange(j as int + 1, j as int + 1) =~= Seq::<u64>::empty());
                lemma_sum_nonneg(sizes.subrange(0, j as int + 1));
            }
            cur_count = 0;
            cur_size = 0;
        } else {
            cur_count = new_count;
            cur_size = new_size;
            proof {
                lemma_sum_split_prefix(sizes, j as int + 1 - cur_count as int, j as int + 1);
            }
        }
        j += 1;
    }
    if cur_count > 0 {
        let split = Split {
            split_id: first_split_id + sealed.len() as u64,
            state: SplitState::Sealed,
            document_count: cur_count,
            size_in_bytes: cur_size,
            files: make_bundle(cur_size),
        };
        let ghost sealed0 = sealed@;
        sealed.push(split);
        proof {
            assert(sealed@.drop_last() =~= sealed0);
            assert(sealed@.map_values(
                |s: Split| (s.document_count as int, s.size_in_bytes as int),
            ) =~= sealed0.map_values(
                |s: Split| (s.document_count as int, s.size_in_bytes as int),
            ).push((cur_count as int, cur_size as int)));
        }
    }
    proof {
        assert(plan_from(sizes, n as int, 0, 0, budget) =~= Seq::<(int, int)>::empty());
        assert(seal_plan(sizes, budget) =~= sealed@.map_values(
            |s: Split| (s.document_count as int, s.size_in_bytes as int),
        ));
    }
    Ok(sealed)
}

/// A prefix of the bytes of a longer prefix counts no more bytes.
proof fn lemma_sum_split_prefix(sizes: Seq<u64>, a: int, b: int)
    requires
        0 <= a <= b <= sizes.len(),
    ensures
        sum_sizes(sizes.subrange(a, b)) <= sum_sizes(sizes.subrange(0, b)),
{
    if a == 0 {
        assert(sizes.subrange(0, b) =~= sizes.subrange(a, b));
    } else {
        let whole = sizes.subrange(0, b);
        lemma_sum_split(whole, a);
        lemma_sum_nonneg(whole.subrange(0, a));
        assert(whole.subrange(a, whole.len() as int) =~= sizes.subrange(a, b));
    }
}

/// The single bundle file of a sealed split.
fn make_bundle(size: u64) -> (r: Vec<u64>)
    ensures
        r@ =~= seq![size],
{
    let mut v: Vec<u64> = Vec::new();
    v.push(size);
    v
}

} // verus!
