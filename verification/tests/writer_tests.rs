use iroh_bytes::batch::{BaoContentItem, HashPair, ParentStore, lookup_merged, verify_path};
use iroh_bytes::error::StoreError;
use iroh_bytes::events::{Event, ExportMode, ImportMode};
use iroh_bytes::hash::BlobHash;
use iroh_bytes::tree::compute_outboard;
use iroh_bytes::writer::{BaoBatchWriter, BoundedProgress, CombinedBatchWriter,
    FallibleProgressBatchWriter, MemDataSink, MemOutboardSink, ProgressHook, UnifiedBatchWriter,
    VecProgress};

fn sample_pair() -> HashPair {
    HashPair { left: BlobHash::from_bytes([1u8; 32]), right: BlobHash::from_bytes([2u8; 32]) }
}

/// A real two-chunk blob: its bytes, root hash and the root node's pair.
fn two_chunk_blob() -> (Vec<u8>, BlobHash, HashPair) {
    let data: Vec<u8> = (0..2048usize).map(|i| (i % 199) as u8).collect();
    let (ob, root) = compute_outboard(&data);
    let mut left = [0u8; 32];
    let mut right = [0u8; 32];
    left.copy_from_slice(&ob[8..40]);
    right.copy_from_slice(&ob[40..72]);
    let pair = HashPair { left: BlobHash::from_bytes(left), right: BlobHash::from_bytes(right) };
    (data, root, pair)
}

#[test]
fn progress_writer_reports_first_leaf() {
    let (data, root, pair) = two_chunk_blob();
    let inner = UnifiedBatchWriter::new(root, 2048);
    let mut w = FallibleProgressBatchWriter::new(inner, VecProgress::new());
    let batch = vec![
        BaoContentItem::Parent { start: 0, count: 2, pair },
        BaoContentItem::Leaf { offset: 1024, data: data[1024..2048].to_vec() },
    ];
    w.write_batch(2048, &batch).unwrap();
    assert_eq!(w.1.entries().as_slice(), &[(1024u64, 1024u64)]);

    // a batch without leaves reports nothing
    let parents_only = vec![BaoContentItem::Parent { start: 0, count: 2, pair }];
    w.write_batch(2048, &parents_only).unwrap();
    assert_eq!(w.1.entries().len(), 1);

    w.sync().unwrap();
    let _inner = w.into_inner();
}

#[test]
fn bounded_progress_fails_when_spent() {
    let mut hook = BoundedProgress::new(0);
    assert_eq!(hook.on_write(0, 1).unwrap_err(), StoreError::Cancelled);
}

#[test]
fn failing_progress_hook_aborts() {
    let (data, root, pair) = two_chunk_blob();
    let inner = UnifiedBatchWriter::new(root, 2048);
    let mut w = FallibleProgressBatchWriter::new(inner, BoundedProgress::new(1));
    let first = vec![
        BaoContentItem::Parent { start: 0, count: 2, pair },
        BaoContentItem::Leaf { offset: 0, data: data[0..1024].to_vec() },
    ];
    w.write_batch(2048, &first).unwrap();
    assert_eq!(w.1.entries().len(), 1);
    // the budget is spent: the next acceptable write is refused through the hook
    let second = vec![BaoContentItem::Leaf { offset: 1024, data: data[1024..2048].to_vec() }];
    assert_eq!(w.write_batch(2048, &second).unwrap_err(), StoreError::Cancelled);
    assert_eq!(w.1.entries().len(), 1);
}

#[test]
fn combined_writer_splits_regions() {
    let (data, root, pair) = two_chunk_blob();
    let mut w = CombinedBatchWriter {
        data: MemDataSink::new(),
        outboard: MemOutboardSink::new(),
        hash: root,
        size: 2048,
    };
    let batch = vec![
        BaoContentItem::Parent { start: 0, count: 2, pair },
        BaoContentItem::Leaf { offset: 0, data: data[0..1024].to_vec() },
        BaoContentItem::Leaf { offset: 1024, data: data[1024..2048].to_vec() },
    ];
    w.write_batch(2048, &batch).unwrap();
    w.sync().unwrap();
}

#[test]
fn layout_writers_reject_bad_batches() {
    let (data, root, pair) = two_chunk_blob();
    let mut w = UnifiedBatchWriter::new(root, 2048);

    // a declared-size change is refused
    let leaf0 = vec![
        BaoContentItem::Parent { start: 0, count: 2, pair },
        BaoContentItem::Leaf { offset: 0, data: data[0..1024].to_vec() },
    ];
    assert_eq!(w.write_batch(4096, &leaf0).unwrap_err(), StoreError::InvalidArgument);

    // a leaf whose bytes do not chain to the root is refused
    let mut wrong = data[0..1024].to_vec();
    wrong[3] ^= 0x80;
    let forged = vec![
        BaoContentItem::Parent { start: 0, count: 2, pair },
        BaoContentItem::Leaf { offset: 0, data: wrong },
    ];
    assert_eq!(w.write_batch(2048, &forged).unwrap_err(), StoreError::InvalidData);

    // after both rejections the same offsets still take a correct batch
    w.write_batch(2048, &leaf0).unwrap();

    // the combined layout rejects the same batches the same way
    let mut c = CombinedBatchWriter {
        data: MemDataSink::new(),
        outboard: MemOutboardSink::new(),
        hash: root,
        size: 2048,
    };
    assert_eq!(c.write_batch(4096, &leaf0).unwrap_err(), StoreError::InvalidArgument);
    let mut wrong2 = data[0..1024].to_vec();
    wrong2[3] ^= 0x80;
    let forged2 = vec![
        BaoContentItem::Parent { start: 0, count: 2, pair },
        BaoContentItem::Leaf { offset: 0, data: wrong2 },
    ];
    assert_eq!(c.write_batch(2048, &forged2).unwrap_err(), StoreError::InvalidData);
    c.write_batch(2048, &leaf0).unwrap();
}

#[test]
fn parent_store_lookup_last_wins() {
    let mut parents = ParentStore::new();
    assert!(parents.get(0, 2).is_none());
    parents.insert(0, 2, sample_pair());
    let other = HashPair {
        left: BlobHash::from_bytes([3u8; 32]),
        right: BlobHash::from_bytes([4u8; 32]),
    };
    parents.insert(0, 2, other);
    let got = parents.get(0, 2).unwrap();
    assert_eq!(got.left, other.left);
    assert_eq!(got.right, other.right);

    // a batch parent shadows the stored one
    let batch = vec![BaoContentItem::Parent { start: 0, count: 2, pair: sample_pair() }];
    let merged = lookup_merged(&parents, &batch, 0, 2).unwrap();
    assert_eq!(merged.left, sample_pair().left);
}

#[test]
fn verify_path_accepts_real_tree_and_rejects_forgery() {
    let data: Vec<u8> = (0..2048usize).map(|i| (i % 199) as u8).collect();
    let (ob, root) = compute_outboard(&data);
    let mut left = [0u8; 32];
    let mut right = [0u8; 32];
    left.copy_from_slice(&ob[8..40]);
    right.copy_from_slice(&ob[40..72]);
    let pair = HashPair {
        left: BlobHash::from_bytes(left),
        right: BlobHash::from_bytes(right),
    };
    let mut parents = ParentStore::new();
    parents.insert(0, 2, pair);
    let empty: Vec<BaoContentItem> = Vec::new();
    // the true left chunk hash chains to the root; a corrupted one does not
    let ok = verify_path(&parents, &empty, &root, 0, 2, true, 0, &pair.left);
    assert!(ok);
    let forged = BlobHash::from_bytes([0xEE; 32]);
    assert!(!verify_path(&parents, &empty, &root, 0, 2, true, 0, &forged));
}

#[test]
fn mode_defaults_and_events() {
    assert_eq!(ImportMode::default(), ImportMode::Copy);
    assert_eq!(ExportMode::default(), ExportMode::Copy);
    assert_ne!(Event::GcStarted, Event::GcCompleted);
    assert_eq!(Event::GcStarted.clone(), Event::GcStarted);
}
