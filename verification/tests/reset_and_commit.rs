use quickwit_core::error::IndexingError;
use quickwit_core::finalizer::{commit_split, finalize_splits, CommitEvents};
use quickwit_core::reset::{garbage_collect, reset_index, ResetEvents};
use quickwit_core::split::{Split, SplitRecord, SplitState};
use quickwit_core::stats::IndexingStatistics;
use quickwit_core::store::{MetastoreModel, StorageModel};

fn rec(id: u64, state: SplitState) -> SplitRecord {
    SplitRecord { split_id: id, state, document_count: 2, size_in_bytes: 20 }
}

fn sealed(id: u64) -> Split {
    Split {
        split_id: id,
        state: SplitState::Sealed,
        document_count: 2,
        size_in_bytes: 20,
        files: vec![20],
    }
}

#[test]
fn reset_fails_closed_when_a_mark_fails() {
    let mut meta = MetastoreModel { records: vec![rec(1, SplitState::Published)] };
    let mut storage = StorageModel { split_ids: vec![1] };
    let ev = ResetEvents { marks_ok: false, gc_ok: true, deletes_ok: true };
    let r = reset_index(&mut meta, &mut storage, &ev);
    assert_eq!(r, Err(IndexingError::MetadataError));
    assert_eq!(meta.records, vec![rec(1, SplitState::Published)]);
    assert_eq!(storage.split_ids, vec![1]);
}

#[test]
fn reset_after_marks_leaves_nothing_visible_even_if_gc_fails() {
    let mut meta = MetastoreModel {
        records: vec![rec(1, SplitState::Published), rec(2, SplitState::Published)],
    };
    let mut storage = StorageModel { split_ids: vec![1, 2] };
    let ev = ResetEvents { marks_ok: true, gc_ok: false, deletes_ok: true };
    let r = reset_index(&mut meta, &mut storage, &ev);
    // garbage-collection failure is non-fatal: the reset still completes
    assert!(r.is_ok());
    assert!(meta.records.is_empty());
    // the files are orphaned, but no split is visible
    assert_eq!(storage.split_ids, vec![1, 2]);
}

#[test]
fn reset_delete_failure_keeps_splits_marked_not_visible() {
    let mut meta = MetastoreModel { records: vec![rec(1, SplitState::Published)] };
    let mut storage = StorageModel { split_ids: vec![1] };
    let ev = ResetEvents { marks_ok: true, gc_ok: true, deletes_ok: false };
    let r = reset_index(&mut meta, &mut storage, &ev);
    assert_eq!(r, Err(IndexingError::MetadataError));
    assert_eq!(meta.records, vec![rec(1, SplitState::MarkedForDeleted)]);
    assert!(storage.split_ids.is_empty());
}

#[test]
fn reset_spares_records_that_were_never_published() {
    let mut meta = MetastoreModel {
        records: vec![rec(1, SplitState::Published), rec(2, SplitState::Staged)],
    };
    let mut storage = StorageModel { split_ids: vec![1, 2] };
    let ev = ResetEvents { marks_ok: true, gc_ok: true, deletes_ok: true };
    let r = reset_index(&mut meta, &mut storage, &ev);
    assert!(r.is_ok());
    assert_eq!(meta.records, vec![rec(2, SplitState::Staged)]);
    assert_eq!(storage.split_ids, vec![2]);
}

#[test]
fn gc_failure_reports_and_changes_nothing() {
    let meta = MetastoreModel { records: vec![rec(1, SplitState::MarkedForDeleted)] };
    let mut storage = StorageModel { split_ids: vec![1] };
    let r = garbage_collect(&meta, &mut storage, false);
    assert_eq!(r, Err(IndexingError::GarbageCollectionError));
    assert_eq!(storage.split_ids, vec![1]);
}

#[test]
fn gc_removes_marked_files_only_and_is_idempotent() {
    let meta = MetastoreModel {
        records: vec![rec(1, SplitState::MarkedForDeleted), rec(2, SplitState::Published)],
    };
    let mut storage = StorageModel { split_ids: vec![1, 2] };
    assert!(garbage_collect(&meta, &mut storage, true).is_ok());
    assert_eq!(storage.split_ids, vec![2]);
    // a second pass removes nothing more and makes nothing visible
    assert!(garbage_collect(&meta, &mut storage, true).is_ok());
    assert_eq!(storage.split_ids, vec![2]);
}

#[test]
fn commits_happen_in_arrival_order() {
    let mut meta = MetastoreModel::new();
    let mut storage = StorageModel::new();
    let mut stats = IndexingStatistics::new();
    let splits = vec![sealed(3), sealed(1), sealed(2)];
    let evs = vec![CommitEvents::all_ok(), CommitEvents::all_ok(), CommitEvents::all_ok()];
    let r = finalize_splits(splits, &evs, &mut meta, &mut storage, &mut stats);
    assert_eq!(r, Ok(3));
    let ids: Vec<u64> = meta.records.iter().map(|r| r.split_id).collect();
    assert_eq!(ids, vec![3, 1, 2]);
    assert!(meta.records.iter().all(|r| r.state == SplitState::Published));
    assert_eq!(stats.num_splits_committed, 3);
}

#[test]
fn commit_stops_at_first_failure_and_abandons_the_rest() {
    let mut meta = MetastoreModel::new();
    let mut storage = StorageModel::new();
    let mut stats = IndexingStatistics::new();
    let splits = vec![sealed(1), sealed(2), sealed(3)];
    let evs = vec![
        CommitEvents::all_ok(),
        CommitEvents { upload_ok: true, stage_ok: false, publish_ok: true },
        CommitEvents::all_ok(),
    ];
    let r = finalize_splits(splits, &evs, &mut meta, &mut storage, &mut stats);
    assert_eq!(r, Err(IndexingError::MetadataError));
    assert_eq!(meta.records.len(), 1);
    assert_eq!(meta.records[0].split_id, 1);
    // the failing split's files were uploaded before its record failed: orphaned
    assert_eq!(storage.split_ids, vec![1, 2]);
    assert_eq!(stats.num_splits_committed, 1);
}

#[test]
fn commit_publishes_only_after_upload_and_stage() {
    let mut meta = MetastoreModel::new();
    let mut storage = StorageModel::new();
    let mut stats = IndexingStatistics::new();
    let r = commit_split(&sealed(8), CommitEvents::all_ok(), &mut meta, &mut storage, &mut stats);
    assert!(r.is_ok());
    assert_eq!(meta.records, vec![rec(8, SplitState::Published)]);
    assert_eq!(storage.split_ids, vec![8]);
    assert_eq!(stats.num_splits_committed, 1);
}
