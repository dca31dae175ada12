use iroh_bytes::error::StoreError;
use iroh_bytes::events::GcMarkEvent;
use iroh_bytes::hash::{BlobFormat, BlobHash, HashAndFormat};
use iroh_bytes::hashseq::{encode_hash_seq, parse_hash_seq};
use iroh_bytes::store::{EntryStatus, Store};
use iroh_bytes::tags::Tag;

fn import(store: &mut Store, data: &[u8]) -> BlobHash {
    let tag = store.import_bytes(data.to_vec(), BlobFormat::Raw).unwrap();
    let h = *tag.hash();
    // release the import pin so that only explicit roots protect the blob
    store.drop_temp_tag(tag);
    h
}

#[test]
fn hash_seq_round_trip() {
    let hashes = vec![
        BlobHash::from_bytes([1u8; 32]),
        BlobHash::from_bytes([2u8; 32]),
        BlobHash::from_bytes([3u8; 32]),
    ];
    let encoded = encode_hash_seq(&hashes);
    assert_eq!(encoded.len(), 8 + 3 * 32);
    // little-endian count up front
    assert_eq!(&encoded[0..8], &[3, 0, 0, 0, 0, 0, 0, 0]);
    let decoded = parse_hash_seq(&encoded).unwrap();
    assert_eq!(decoded.len(), 3);
    for (a, b) in decoded.iter().zip(hashes.iter()) {
        assert_eq!(a, b);
    }
}

#[test]
fn hash_seq_rejects_malformed_bytes() {
    // too short for a count
    assert_eq!(parse_hash_seq(&vec![1, 2, 3]).unwrap_err(), StoreError::InvalidData);
    // count disagrees with the remaining length
    let mut bad = encode_hash_seq(&vec![BlobHash::from_bytes([1u8; 32])]);
    bad[0] = 2;
    assert_eq!(parse_hash_seq(&bad).unwrap_err(), StoreError::InvalidData);
    // trailing garbage
    let mut longer = encode_hash_seq(&vec![BlobHash::from_bytes([1u8; 32])]);
    longer.push(0);
    assert_eq!(parse_hash_seq(&longer).unwrap_err(), StoreError::InvalidData);
}

#[test]
fn gc_keeps_tagged_and_pinned_blobs() {
    let mut store = Store::new();
    let a = import(&mut store, b"blob a");
    let b = import(&mut store, b"blob b");
    let c = import(&mut store, b"blob c");

    store
        .set_tag(Tag::new(b"keep".to_vec()), Some(HashAndFormat { hash: a, format: BlobFormat::Raw }))
        .unwrap();
    let pin = store.temp_tag(HashAndFormat { hash: b, format: BlobFormat::Raw });

    store.clear_live();
    store.gc_mark(&Vec::new());
    store.gc_sweep();

    assert_eq!(store.entry_status(&a), EntryStatus::Complete);
    assert_eq!(store.entry_status(&b), EntryStatus::Complete);
    assert_eq!(store.entry_status(&c), EntryStatus::NotFound);
    assert!(store.is_live(&a));
    assert!(store.is_live(&b));
    assert!(!store.is_live(&c));
    store.drop_temp_tag(pin);
}

#[test]
fn gc_traverses_hash_sequences_one_level() {
    let mut store = Store::new();
    let x = import(&mut store, b"child x");
    let y = import(&mut store, b"child y");
    let loose = import(&mut store, b"unreferenced");

    // a hash-sequence blob listing x and y, tagged as a collection
    let seq_bytes = encode_hash_seq(&vec![x, y]);
    let tag = store.import_bytes(seq_bytes, BlobFormat::HashSeq).unwrap();
    let col = *tag.hash();
    store.drop_temp_tag(tag);
    store
        .set_tag(
            Tag::new(b"collection".to_vec()),
            Some(HashAndFormat { hash: col, format: BlobFormat::HashSeq }),
        )
        .unwrap();

    store.clear_live();
    store.gc_mark(&Vec::new());
    store.gc_sweep();

    // the collection and both children survive, the loose blob goes
    assert_eq!(store.entry_status(&col), EntryStatus::Complete);
    assert_eq!(store.entry_status(&x), EntryStatus::Complete);
    assert_eq!(store.entry_status(&y), EntryStatus::Complete);
    assert_eq!(store.entry_status(&loose), EntryStatus::NotFound);
}

#[test]
fn gc_mark_honours_extra_roots() {
    let mut store = Store::new();
    let a = import(&mut store, b"extra root target");
    let b = import(&mut store, b"collateral");

    store.clear_live();
    let extra = vec![Ok(HashAndFormat { hash: a, format: BlobFormat::Raw })];
    store.gc_mark(&extra);
    store.gc_sweep();

    assert_eq!(store.entry_status(&a), EntryStatus::Complete);
    assert_eq!(store.entry_status(&b), EntryStatus::NotFound);
}

#[test]
fn gc_mark_events_report_bad_roots() {
    let mut store = Store::new();
    // a tag pointing at a hash-sequence blob that was never imported
    let ghostly = BlobHash::from_bytes([42u8; 32]);
    store
        .set_tag(
            Tag::new(b"dangling".to_vec()),
            Some(HashAndFormat { hash: ghostly, format: BlobFormat::HashSeq }),
        )
        .unwrap();
    store.clear_live();
    let events = store.gc_mark(&Vec::new());
    // a warning for the missing root, a summary at the end, no error
    assert!(events.iter().any(|e| matches!(e, GcMarkEvent::CustomWarning(..))));
    assert!(matches!(events.last().unwrap(), GcMarkEvent::CustomDebug(_)));
    assert!(events.iter().all(|e| !matches!(e, GcMarkEvent::Error(_))));
    // the root's own hash is still marked
    assert!(store.is_live(&ghostly));
}

#[test]
fn gc_mark_publishes_exactly_the_reached_set() {
    let mut store = Store::new();
    let kept = import(&mut store, b"kept");
    let other = import(&mut store, b"other");
    store
        .set_tag(Tag::new(b"k".to_vec()), Some(HashAndFormat { hash: kept, format: BlobFormat::Raw }))
        .unwrap();
    store.clear_live();
    store.gc_mark(&Vec::new());
    // only the root is live: mark adds nothing beyond what the roots reach
    assert!(store.is_live(&kept));
    assert!(!store.is_live(&other));
}

#[test]
fn gc_sweep_emits_one_summary() {
    let mut store = Store::new();
    store.clear_live();
    store.gc_mark(&Vec::new());
    let events = store.gc_sweep();
    assert_eq!(events.len(), 1);
    assert!(matches!(events[0], iroh_bytes::events::GcSweepEvent::CustomDebug(_)));
}

#[test]
fn gc_mark_aborts_on_bad_extra_root() {
    let mut store = Store::new();
    let a = import(&mut store, b"anything");
    store.clear_live();
    let extra = vec![Err(StoreError::Io)];
    let events = store.gc_mark(&extra);
    assert!(matches!(events.last().unwrap(), GcMarkEvent::Error(StoreError::Io)));
    // the live set was not published: nothing is live
    assert!(!store.is_live(&a));
}

#[test]
fn sweep_deletes_in_batches_over_one_hundred() {
    let mut store = Store::new();
    let mut hashes = Vec::new();
    for i in 0..101u32 {
        let data = i.to_le_bytes().to_vec();
        hashes.push(import(&mut store, &data));
    }
    assert_eq!(store.blobs().len(), 101);
    store.clear_live();
    store.gc_mark(&Vec::new());
    store.gc_sweep();
    assert_eq!(store.blobs().len(), 0);
    for h in &hashes {
        assert_eq!(store.entry_status(h), EntryStatus::NotFound);
    }
}

#[test]
fn live_set_controls() {
    let mut store = Store::new();
    let h = BlobHash::from_bytes([8u8; 32]);
    assert!(!store.is_live(&h));
    store.add_live(&vec![h]);
    assert!(store.is_live(&h));
    store.clear_live();
    assert!(!store.is_live(&h));
}

#[test]
fn partial_blobs_are_listed_and_swept() {
    let mut store = Store::new();
    let h = BlobHash::from_bytes([11u8; 32]);
    store.get_or_create_partial(h, 5000).unwrap();
    assert_eq!(store.partial_blobs().len(), 1);
    assert_eq!(store.entry_status(&h), EntryStatus::Partial);
    store.clear_live();
    store.gc_mark(&Vec::new());
    store.gc_sweep();
    assert_eq!(store.entry_status(&h), EntryStatus::NotFound);
    assert_eq!(store.partial_blobs().len(), 0);
}

#[test]
fn delete_removes_both_sections() {
    let mut store = Store::new();
    let a = import(&mut store, b"to delete");
    let p = BlobHash::from_bytes([12u8; 32]);
    store.get_or_create_partial(p, 10).unwrap();
    store.delete(&vec![a, p]).unwrap();
    assert_eq!(store.entry_status(&a), EntryStatus::NotFound);
    assert_eq!(store.entry_status(&p), EntryStatus::NotFound);
}
