use iroh_bytes::batch::{BaoContentItem, HashPair};
use iroh_bytes::error::StoreError;
use iroh_bytes::events::ValidateProgress;
use iroh_bytes::hash::{BlobFormat, BlobHash, HashAndFormat};
use iroh_bytes::store::{EntryStatus, PossiblyPartialEntry, Store};
use iroh_bytes::tags::Tag;
use iroh_bytes::tree::compute_outboard;

fn pair_at(outboard: &[u8], at: usize) -> HashPair {
    let mut left = [0u8; 32];
    let mut right = [0u8; 32];
    left.copy_from_slice(&outboard[at..at + 32]);
    right.copy_from_slice(&outboard[at + 32..at + 64]);
    HashPair { left: BlobHash::from_bytes(left), right: BlobHash::from_bytes(right) }
}

#[test]
fn import_bytes_round_trip() {
    let mut store = Store::new();
    let data = b"hello world".to_vec();
    let tag = store.import_bytes(data.clone(), BlobFormat::Raw).unwrap();
    let h = *tag.hash();
    assert_eq!(store.entry_status(&h), EntryStatus::Complete);
    let back = store.export_bytes(&h).unwrap();
    assert_eq!(back, data);
    // the returned hash is the BLAKE3 hash of the bytes
    assert_eq!(h.as_bytes(), blake3::hash(&data).as_bytes());
}

#[test]
fn import_empty_blob() {
    let mut store = Store::new();
    let tag = store.import_bytes(Vec::new(), BlobFormat::Raw).unwrap();
    let h = *tag.hash();
    assert_eq!(h.as_bytes(), blake3::hash(b"").as_bytes());
    assert_eq!(store.export_bytes(&h).unwrap(), Vec::<u8>::new());
    // the outboard of an empty blob is just the zero size prefix
    let (ob, _) = compute_outboard(&Vec::new());
    assert_eq!(ob, vec![0u8; 8]);
}

#[test]
fn root_hash_matches_blake3_many_sizes() {
    for size in [0usize, 1, 1023, 1024, 1025, 2048, 4096, 5000, 70000] {
        let data: Vec<u8> = (0..size).map(|i| (i % 251) as u8).collect();
        let (_ob, root) = compute_outboard(&data);
        assert_eq!(root.as_bytes(), blake3::hash(&data).as_bytes(), "size {}", size);
    }
}

#[test]
fn outboard_matches_bao_tree() {
    for size in [0usize, 1, 1024, 2048, 4096, 5000, 70000] {
        let data: Vec<u8> = (0..size).map(|i| (i % 241) as u8).collect();
        let (ob, root) = compute_outboard(&data);
        let (expected_ob, expected_root) = bao_tree::io::outboard(&data, bao_tree::BlockSize::ZERO);
        assert_eq!(ob, expected_ob, "outboard for size {}", size);
        assert_eq!(root.as_bytes(), expected_root.as_bytes(), "root for size {}", size);
    }
}

#[test]
fn read_at_clamps_to_end() {
    let mut store = Store::new();
    let data = b"0123456789".to_vec();
    let tag = store.import_bytes(data.clone(), BlobFormat::Raw).unwrap();
    let entry = store.get(tag.hash()).unwrap();
    assert_eq!(entry.read_at(0, 4), b"0123".to_vec());
    assert_eq!(entry.read_at(6, 100), b"6789".to_vec());
    assert_eq!(entry.read_at(100, 4), Vec::<u8>::new());
    assert_eq!(entry.size(), 10);
    assert!(entry.is_complete());
}

#[test]
fn export_missing_is_not_found() {
    let store = Store::new();
    let h = BlobHash::from_bytes([7u8; 32]);
    assert_eq!(store.export_bytes(&h).unwrap_err(), StoreError::NotFound);
    assert_eq!(store.entry_status(&h), EntryStatus::NotFound);
    assert!(matches!(store.get_possibly_partial(&h), PossiblyPartialEntry::NotFound));
}

#[test]
fn partial_fill_and_promote() {
    // a four-chunk blob, filled through verified batches
    let data: Vec<u8> = (0..4096usize).map(|i| (i % 239) as u8).collect();
    let (ob, root) = compute_outboard(&data);
    // pre-order pairs: node (0,4) at 8, node (0,2) at 72, node (2,2) at 136
    let p04 = pair_at(&ob, 8);
    let p02 = pair_at(&ob, 72);
    let p22 = pair_at(&ob, 136);

    let mut store = Store::new();
    store.get_or_create_partial(root, 4096).unwrap();
    assert_eq!(store.entry_status(&root), EntryStatus::Partial);

    // first batch: the parents on chunk 0's path plus the chunk itself
    let batch1 = vec![
        BaoContentItem::Parent { start: 0, count: 4, pair: p04 },
        BaoContentItem::Parent { start: 0, count: 2, pair: p02 },
        BaoContentItem::Leaf { offset: 0, data: data[0..1024].to_vec() },
    ];
    store.write_batch(&root, 4096, &batch1).unwrap();
    match store.get_possibly_partial(&root) {
        PossiblyPartialEntry::Partial(e) => {
            let ranges = e.available_ranges();
            assert!(ranges.contains(&0));
            assert!(!ranges.contains(&1));
        }
        _ => panic!("expected a partial entry"),
    }

    // promotion is refused while chunks are missing
    assert_eq!(store.insert_complete(&root).unwrap_err(), StoreError::InvalidArgument);

    // remaining chunks
    let batch2 = vec![BaoContentItem::Leaf { offset: 1024, data: data[1024..2048].to_vec() }];
    store.write_batch(&root, 4096, &batch2).unwrap();
    let batch3 = vec![
        BaoContentItem::Parent { start: 2, count: 2, pair: p22 },
        BaoContentItem::Leaf { offset: 2048, data: data[2048..3072].to_vec() },
        BaoContentItem::Leaf { offset: 3072, data: data[3072..4096].to_vec() },
    ];
    store.write_batch(&root, 4096, &batch3).unwrap();

    store.insert_complete(&root).unwrap();
    assert_eq!(store.entry_status(&root), EntryStatus::Complete);
    assert_eq!(store.export_bytes(&root).unwrap(), data);
}

#[test]
fn bad_batch_is_rejected_and_retryable() {
    let data: Vec<u8> = (0..2048usize).map(|i| (i % 233) as u8).collect();
    let (ob, root) = compute_outboard(&data);
    let p02 = pair_at(&ob, 8);

    let mut store = Store::new();
    store.get_or_create_partial(root, 2048).unwrap();

    // a leaf whose bytes do not match the declared root is refused
    let mut wrong = data[0..1024].to_vec();
    wrong[17] ^= 0xff;
    let bad = vec![
        BaoContentItem::Parent { start: 0, count: 2, pair: p02 },
        BaoContentItem::Leaf { offset: 0, data: wrong },
    ];
    assert_eq!(store.write_batch(&root, 2048, &bad).unwrap_err(), StoreError::InvalidData);
    match store.get_possibly_partial(&root) {
        PossiblyPartialEntry::Partial(e) => assert!(e.available_ranges().is_empty()),
        _ => panic!("expected a partial entry"),
    }

    // a declared size that disagrees with the entry is refused
    let one = vec![BaoContentItem::Leaf { offset: 0, data: data[0..1024].to_vec() }];
    assert_eq!(store.write_batch(&root, 4096, &one).unwrap_err(), StoreError::InvalidArgument);

    // a correct batch for the same offsets is then accepted
    let good = vec![
        BaoContentItem::Parent { start: 0, count: 2, pair: p02 },
        BaoContentItem::Leaf { offset: 0, data: data[0..1024].to_vec() },
        BaoContentItem::Leaf { offset: 1024, data: data[1024..2048].to_vec() },
    ];
    store.write_batch(&root, 2048, &good).unwrap();
    store.insert_complete(&root).unwrap();
    assert_eq!(store.export_bytes(&root).unwrap(), data);
}

#[test]
fn write_batch_unknown_hash_is_not_found() {
    let mut store = Store::new();
    let h = BlobHash::from_bytes([9u8; 32]);
    let batch = vec![BaoContentItem::Leaf { offset: 0, data: vec![1, 2, 3] }];
    assert_eq!(store.write_batch(&h, 3, &batch).unwrap_err(), StoreError::NotFound);
}

#[test]
fn partial_size_must_stay_put() {
    let mut store = Store::new();
    let h = BlobHash::from_bytes([3u8; 32]);
    store.get_or_create_partial(h, 1000).unwrap();
    // same size again is fine
    store.get_or_create_partial(h, 1000).unwrap();
    // another size is refused
    assert_eq!(store.get_or_create_partial(h, 2000).unwrap_err(), StoreError::InvalidArgument);
}

#[test]
fn partial_over_complete_is_refused() {
    let mut store = Store::new();
    let tag = store.import_bytes(b"abc".to_vec(), BlobFormat::Raw).unwrap();
    let h = *tag.hash();
    assert_eq!(store.get_or_create_partial(h, 3).unwrap_err(), StoreError::AlreadyExists);
}

#[test]
fn validate_flags_corruption() {
    let mut store = Store::new();
    let tag = store.import_bytes(b"some valuable bytes".to_vec(), BlobFormat::Raw).unwrap();
    let h = *tag.hash();

    // a clean store validates without errors
    let events = store.validate();
    assert!(matches!(events[0], ValidateProgress::Starting { total: 1 }));
    assert!(matches!(events[1], ValidateProgress::Entry { .. }));
    assert!(matches!(events[2], ValidateProgress::Done { error: None, .. }));
    assert!(matches!(events[3], ValidateProgress::AllDone));

    // flip one byte of the stored data: validate reports the entry as bad
    store.set_data_byte(&h, 5, 0xAA).unwrap();
    let events = store.validate();
    match &events[2] {
        ValidateProgress::Done { id: _, error } => assert!(error.is_some()),
        other => panic!("expected a Done event, got {:?}", other),
    }
}

#[test]
fn tags_upsert_and_delete() {
    let mut store = Store::new();
    let target = HashAndFormat { hash: BlobHash::from_bytes([1u8; 32]), format: BlobFormat::Raw };
    let target2 = HashAndFormat {
        hash: BlobHash::from_bytes([2u8; 32]),
        format: BlobFormat::HashSeq,
    };

    // empty and over-long names are refused
    assert_eq!(
        store.set_tag(Tag::new(Vec::new()), Some(target)).unwrap_err(),
        StoreError::InvalidArgument
    );
    assert_eq!(
        store.set_tag(Tag::new(vec![b'x'; 1025]), Some(target)).unwrap_err(),
        StoreError::InvalidArgument
    );
    // a name of exactly the maximum length is accepted
    store.set_tag(Tag::new(vec![b'x'; 1024]), Some(target)).unwrap();

    store.set_tag(Tag::new(b"keep".to_vec()), Some(target)).unwrap();
    // upsert replaces the value under the same name
    store.set_tag(Tag::new(b"keep".to_vec()), Some(target2)).unwrap();
    let tags = store.tags();
    let kept: Vec<_> = tags.iter().filter(|(t, _)| t.name == b"keep".to_vec()).collect();
    assert_eq!(kept.len(), 1);
    assert_eq!(kept[0].1, target2);

    // deleting removes the name
    store.set_tag(Tag::new(b"keep".to_vec()), None).unwrap();
    let tags = store.tags();
    assert!(tags.iter().all(|(t, _)| t.name != b"keep".to_vec()));
}

#[test]
fn create_tag_allocates_fresh_names() {
    let mut store = Store::new();
    let target = HashAndFormat { hash: BlobHash::from_bytes([4u8; 32]), format: BlobFormat::Raw };
    let t1 = store.create_tag(target).unwrap();
    let t2 = store.create_tag(target).unwrap();
    assert_ne!(t1.name, t2.name);
    assert_eq!(store.tags().len(), 2);
}

#[test]
fn temp_tags_count_pins() {
    let mut store = Store::new();
    let target = HashAndFormat { hash: BlobHash::from_bytes([5u8; 32]), format: BlobFormat::Raw };
    let a = store.temp_tag(target);
    let b = store.temp_tag(target);
    // duplicates collapse in the listing
    assert_eq!(store.temp_tags().len(), 1);
    store.drop_temp_tag(a);
    // one pin remains
    assert_eq!(store.temp_tags().len(), 1);
    store.drop_temp_tag(b);
    assert_eq!(store.temp_tags().len(), 0);
}

#[test]
fn hash_and_format_accessors() {
    let target = HashAndFormat {
        hash: BlobHash::from_bytes([6u8; 32]),
        format: BlobFormat::HashSeq,
    };
    let mut store = Store::new();
    let tag = store.temp_tag(target);
    assert_eq!(*tag.hash(), target.hash);
    assert_eq!(tag.format(), BlobFormat::HashSeq);
    assert_eq!(*tag.hash_and_format(), target);
    assert!(!BlobFormat::HashSeq.is_raw());
    assert!(BlobFormat::Raw.is_raw());
}

#[test]
fn partial_writes_are_readable_before_sync() {
    // read-your-writes: a written chunk is visible through the partial entry
    let data: Vec<u8> = (0..2048usize).map(|i| (i % 211) as u8).collect();
    let (ob, root) = compute_outboard(&data);
    let p02 = pair_at(&ob, 8);
    let mut store = Store::new();
    store.get_or_create_partial(root, 2048).unwrap();
    let batch = vec![
        BaoContentItem::Parent { start: 0, count: 2, pair: p02 },
        BaoContentItem::Leaf { offset: 1024, data: data[1024..2048].to_vec() },
    ];
    store.write_batch(&root, 2048, &batch).unwrap();
    match store.get_possibly_partial(&root) {
        PossiblyPartialEntry::Partial(e) => {
            assert_eq!(e.chunks.get(1).unwrap(), &data[1024..2048].to_vec());
            assert!(e.chunks.get(0).is_none());
            assert_eq!(e.size(), 2048);
            assert!(!e.is_complete());
        }
        _ => panic!("expected a partial entry"),
    }
}

#[test]
fn set_data_byte_error_arms() {
    let mut store = Store::new();
    let missing = BlobHash::from_bytes([13u8; 32]);
    assert_eq!(store.set_data_byte(&missing, 0, 1).unwrap_err(), StoreError::NotFound);
    let tag = store.import_bytes(b"xy".to_vec(), BlobFormat::Raw).unwrap();
    assert_eq!(
        store.set_data_byte(tag.hash(), 2, 1).unwrap_err(),
        StoreError::InvalidArgument
    );
}
