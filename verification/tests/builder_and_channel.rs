use quickwit_core::builder::build_splits;
use quickwit_core::channel::SplitChannel;
use quickwit_core::error::IndexingError;
use quickwit_core::split::{Document, Split, SplitState};
use quickwit_core::stats::IndexingStatistics;

fn doc(size: u64) -> Document {
    Document { size_in_bytes: size, well_formed: true }
}

#[test]
fn builder_seals_greedily_under_budget() {
    let mut input = Vec::new();
    for _ in 0..100 {
        input.push(doc(10));
    }
    let splits = build_splits(&input, 340, 7).unwrap();
    assert_eq!(splits.len(), 3);
    assert_eq!(splits[0].document_count, 34);
    assert_eq!(splits[0].size_in_bytes, 340);
    assert_eq!(splits[0].split_id, 7);
    assert_eq!(splits[1].split_id, 8);
    assert_eq!(splits[2].split_id, 9);
    assert_eq!(splits[2].document_count, 32);
    assert_eq!(splits[2].size_in_bytes, 320);
    for s in &splits {
        assert_eq!(s.state, SplitState::Sealed);
        assert_eq!(s.files, vec![s.size_in_bytes]);
    }
}

#[test]
fn builder_empty_input_seals_nothing() {
    let input: Vec<Document> = Vec::new();
    let splits = build_splits(&input, 100, 1).unwrap();
    assert!(splits.is_empty());
}

#[test]
fn builder_oversized_document_gets_its_own_split() {
    let input = vec![doc(5000), doc(1)];
    let splits = build_splits(&input, 10, 1).unwrap();
    assert_eq!(splits.len(), 2);
    assert_eq!(splits[0].document_count, 1);
    assert_eq!(splits[0].size_in_bytes, 5000);
    assert_eq!(splits[1].document_count, 1);
    assert_eq!(splits[1].size_in_bytes, 1);
}

#[test]
fn builder_zero_budget_seals_every_document() {
    let input = vec![doc(3), doc(4), doc(5)];
    let splits = build_splits(&input, 0, 1).unwrap();
    assert_eq!(splits.len(), 3);
    for (i, s) in splits.iter().enumerate() {
        assert_eq!(s.document_count, 1);
        assert_eq!(s.split_id, 1 + i as u64);
    }
}

#[test]
fn builder_rejects_malformed_document() {
    let input = vec![doc(10), Document { size_in_bytes: 10, well_formed: false }];
    let r = build_splits(&input, 100, 1);
    assert_eq!(r.unwrap_err(), IndexingError::DocumentError);
}

#[test]
fn channel_holds_at_most_its_capacity() {
    let mut chan = SplitChannel::new(2);
    assert!(chan.is_empty());
    chan.send(sealed(1));
    chan.send(sealed(2));
    assert_eq!(chan.len(), 2);
    assert!(chan.is_full());
    let first = chan.recv();
    assert_eq!(first.split_id, 1);
    assert_eq!(chan.len(), 1);
    chan.send(sealed(3));
    assert!(chan.is_full());
    assert_eq!(chan.recv().split_id, 2);
    assert_eq!(chan.recv().split_id, 3);
    assert!(chan.is_empty());
}

fn sealed(id: u64) -> Split {
    Split {
        split_id: id,
        state: SplitState::Sealed,
        document_count: 1,
        size_in_bytes: 10,
        files: vec![10],
    }
}

#[test]
fn statistics_saturate_instead_of_wrapping() {
    let mut stats = IndexingStatistics::new();
    stats.add_docs(u64::MAX - 5);
    stats.add_docs(10);
    assert_eq!(stats.num_docs, u64::MAX);
    stats.add_split_committed();
    assert_eq!(stats.num_splits_committed, 1);
    stats.add_error();
    assert_eq!(stats.num_errors, 1);
}

#[test]
fn every_error_has_a_description() {
    let all = [
        IndexingError::SourceUnavailable,
        IndexingError::DocumentError,
        IndexingError::UploadError,
        IndexingError::MetadataError,
        IndexingError::GarbageCollectionError,
    ];
    for e in all {
        assert!(!e.describe().is_empty());
    }
}
