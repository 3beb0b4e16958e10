use quickwit_core::error::IndexingError;
use quickwit_core::pipeline::{index_data, IndexDataParams, PipelineEvents};
use quickwit_core::reset::ResetEvents;
use quickwit_core::finalizer::CommitEvents;
use quickwit_core::split::{Document, SplitRecord, SplitState};
use quickwit_core::stats::IndexingStatistics;
use quickwit_core::store::{MetastoreModel, StorageModel};

fn params(num_threads: usize, heap_size: u64, overwrite: bool) -> IndexDataParams {
    IndexDataParams {
        index_uri: String::from("ram:///indexes/wikipedia"),
        input_uri: Some(String::from("wiki-articles.json")),
        temp_dir: String::from("/tmp/quickwit-scratch"),
        num_threads,
        heap_size,
        overwrite,
    }
}

fn docs(n: usize, size: u64) -> Vec<Document> {
    let mut v = Vec::new();
    for _ in 0..n {
        v.push(Document { size_in_bytes: size, well_formed: true });
    }
    v
}

fn published(meta: &MetastoreModel) -> Vec<SplitRecord> {
    meta.records
        .iter()
        .filter(|r| r.state == SplitState::Published)
        .cloned()
        .collect()
}

#[test]
fn hundred_docs_three_seals() {
    // 100 well-formed lines, one worker, a budget that forces 3 seals
    let mut meta = MetastoreModel::new();
    let mut storage = StorageModel::new();
    let mut stats = IndexingStatistics::new();
    let input = docs(100, 10);
    let ev = PipelineEvents::all_ok(input.len());
    let r = index_data(&mut meta, &mut storage, &params(1, 340, false), &input, 1, &ev, &mut stats);
    assert!(r.is_ok());
    let visible = published(&meta);
    assert_eq!(visible.len(), 3);
    let total: u64 = visible.iter().map(|r| r.document_count).sum();
    assert_eq!(total, 100);
    assert_eq!(visible[0].document_count, 34);
    assert_eq!(visible[1].document_count, 34);
    assert_eq!(visible[2].document_count, 32);
    assert_eq!(stats.num_docs, 100);
    assert_eq!(stats.num_splits_committed, 3);
    assert_eq!(stats.num_errors, 0);
    // every published split's files are in the blob store
    for rec in &visible {
        assert!(storage.split_ids.contains(&rec.split_id));
    }
}

#[test]
fn missing_source_fails_with_source_unavailable() {
    let mut meta = MetastoreModel::new();
    let mut storage = StorageModel::new();
    let mut stats = IndexingStatistics::new();
    let input = docs(5, 10);
    let mut ev = PipelineEvents::all_ok(input.len());
    ev.source_ok = false;
    let r = index_data(&mut meta, &mut storage, &params(1, 100, false), &input, 1, &ev, &mut stats);
    assert_eq!(r, Err(IndexingError::SourceUnavailable));
    assert!(meta.records.is_empty());
    assert!(storage.split_ids.is_empty());
    assert_eq!(stats.num_splits_committed, 0);
}

#[test]
fn overwrite_clears_preexisting_published_splits() {
    let mut meta = MetastoreModel::new();
    let mut storage = StorageModel::new();
    for id in [11u64, 12u64] {
        storage.split_ids.push(id);
        meta.records.push(SplitRecord {
            split_id: id,
            state: SplitState::Published,
            document_count: 7,
            size_in_bytes: 70,
        });
    }
    let mut stats = IndexingStatistics::new();
    let input: Vec<Document> = Vec::new();
    let ev = PipelineEvents::all_ok(0);
    let r = index_data(&mut meta, &mut storage, &params(1, 100, true), &input, 100, &ev, &mut stats);
    assert!(r.is_ok());
    assert!(meta.records.is_empty());
    assert!(storage.split_ids.is_empty());
    assert!(published(&meta).is_empty());
}

#[test]
fn upload_failure_on_second_split_keeps_first_published() {
    // 30 docs of 10 bytes under a budget of 100: three sealed splits
    let mut meta = MetastoreModel::new();
    let mut storage = StorageModel::new();
    let mut stats = IndexingStatistics::new();
    let input = docs(30, 10);
    let mut ev = PipelineEvents::all_ok(input.len());
    ev.commits[1] = CommitEvents { upload_ok: false, stage_ok: true, publish_ok: true };
    let r = index_data(&mut meta, &mut storage, &params(1, 100, false), &input, 1, &ev, &mut stats);
    assert_eq!(r, Err(IndexingError::UploadError));
    let visible = published(&meta);
    assert_eq!(visible.len(), 1);
    assert_eq!(visible[0].split_id, 1);
    assert_eq!(visible[0].document_count, 10);
    assert!(!meta.records.iter().any(|rec| rec.split_id == 2));
    assert!(!meta.records.iter().any(|rec| rec.split_id == 3));
    assert_eq!(storage.split_ids, vec![1]);
    assert_eq!(stats.num_splits_committed, 1);
}

#[test]
fn overwrite_twice_leaves_same_visible_records() {
    let mut meta = MetastoreModel::new();
    let mut storage = StorageModel::new();
    meta.records.push(SplitRecord {
        split_id: 55,
        state: SplitState::Published,
        document_count: 3,
        size_in_bytes: 30,
    });
    storage.split_ids.push(55);
    let mut stats = IndexingStatistics::new();
    let input = docs(20, 10);
    let p = params(1, 100, true);
    let ev = PipelineEvents::all_ok(input.len());
    let r1 = index_data(&mut meta, &mut storage, &p, &input, 1, &ev, &mut stats);
    assert!(r1.is_ok());
    let after_once = published(&meta);
    let r2 = index_data(&mut meta, &mut storage, &p, &input, 1, &ev, &mut stats);
    assert!(r2.is_ok());
    let after_twice = published(&meta);
    assert_eq!(after_once, after_twice);
    assert_eq!(after_once.len(), 2);
}

#[test]
fn malformed_document_fails_whole_run() {
    let mut meta = MetastoreModel::new();
    let mut storage = StorageModel::new();
    let mut stats = IndexingStatistics::new();
    let mut input = docs(4, 10);
    input[2].well_formed = false;
    let ev = PipelineEvents::all_ok(input.len());
    let r = index_data(&mut meta, &mut storage, &params(1, 100, false), &input, 1, &ev, &mut stats);
    assert_eq!(r, Err(IndexingError::DocumentError));
    assert!(meta.records.is_empty());
    assert!(storage.split_ids.is_empty());
    assert_eq!(stats.num_errors, 1);
    assert_eq!(stats.num_docs, 0);
}

#[test]
fn publish_failure_leaves_staged_orphan() {
    let mut meta = MetastoreModel::new();
    let mut storage = StorageModel::new();
    let mut stats = IndexingStatistics::new();
    let input = docs(3, 10);
    let mut ev = PipelineEvents::all_ok(input.len());
    ev.commits[0] = CommitEvents { upload_ok: true, stage_ok: true, publish_ok: false };
    let r = index_data(&mut meta, &mut storage, &params(1, 1000, false), &input, 9, &ev, &mut stats);
    assert_eq!(r, Err(IndexingError::MetadataError));
    assert_eq!(meta.records.len(), 1);
    assert_eq!(meta.records[0].state, SplitState::Staged);
    assert_eq!(meta.records[0].split_id, 9);
    // the files were uploaded, but the split never became visible
    assert_eq!(storage.split_ids, vec![9]);
    assert!(published(&meta).is_empty());
    assert_eq!(stats.num_splits_committed, 0);
}

#[test]
fn reset_mark_failure_aborts_run_with_stores_intact() {
    let mut meta = MetastoreModel::new();
    let mut storage = StorageModel::new();
    meta.records.push(SplitRecord {
        split_id: 4,
        state: SplitState::Published,
        document_count: 1,
        size_in_bytes: 10,
    });
    storage.split_ids.push(4);
    let mut stats = IndexingStatistics::new();
    let input = docs(2, 10);
    let mut ev = PipelineEvents::all_ok(input.len());
    ev.reset = ResetEvents { marks_ok: false, gc_ok: true, deletes_ok: true };
    let r = index_data(&mut meta, &mut storage, &params(1, 100, true), &input, 10, &ev, &mut stats);
    assert_eq!(r, Err(IndexingError::MetadataError));
    // fails closed: the published split is still visible and its files intact
    assert_eq!(meta.records.len(), 1);
    assert_eq!(meta.records[0].state, SplitState::Published);
    assert_eq!(storage.split_ids, vec![4]);
}
