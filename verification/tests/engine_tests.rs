//! The counters that drive compaction, the segment naming, the identifier
//! counter, and the sled-backed adapter.

use kvs::codec::Command;
use kvs::codec::encode_command;
use kvs::engine::KvsEngine;
use kvs::kvstore::{CycleCounter, DiskImage, KvStoreInner, Segment, file_name_from_id};
use kvs::persist::PersistentStruct;
use kvs::sled_store::SledAdapter;

fn fresh_image() -> DiskImage {
    DiskImage { segments: Vec::new(), metadata: None }
}

// A fresh insert leaves no dead record; an overwrite leaves one; a remove
// leaves two; compaction resets the count to zero.
#[test]
fn uncompacted_accounting() {
    let mut store = KvStoreInner::open(fresh_image()).unwrap();
    assert_eq!(store.uncompacted_record_num(), 0);

    store.set("key1", "value1").unwrap();
    assert_eq!(store.uncompacted_record_num(), 0);

    store.set("key1", "value2").unwrap();
    assert_eq!(store.uncompacted_record_num(), 1);

    store.set("key1", "value3").unwrap();
    assert_eq!(store.uncompacted_record_num(), 2);

    store.set("key2", "value1").unwrap();
    assert_eq!(store.uncompacted_record_num(), 2);

    store.remove("key2").unwrap();
    assert_eq!(store.uncompacted_record_num(), 4);

    store.compaction().unwrap();
    assert_eq!(store.uncompacted_record_num(), 0);
    assert_eq!(store.get("key1").unwrap(), Some("value3".to_string()));
    assert_eq!(store.get("key2").unwrap(), None);
}

// Compaction never grows the directory and keeps the mapping.
#[test]
fn compaction_shrinks_disk() {
    let mut store = KvStoreInner::open(fresh_image()).unwrap();
    for i in 0..100 {
        store.set("key1", &format!("value{}", i)).unwrap();
        store.set("key2", &format!("value{}", i)).unwrap();
    }
    let before = store.total_disk_size();
    store.compaction().unwrap();
    let after = store.total_disk_size();
    assert!(after <= before);
    assert_eq!(store.get("key1").unwrap(), Some("value99".to_string()));
    assert_eq!(store.get("key2").unwrap(), Some("value99".to_string()));
}

// Replay counts dead records the same way the live engine did.
#[test]
fn reopen_recounts_uncompacted() {
    let mut store = KvStoreInner::open(fresh_image()).unwrap();
    store.set("key1", "value1").unwrap();
    store.set("key1", "value2").unwrap();
    store.set("key2", "value1").unwrap();
    store.remove("key2").unwrap();
    assert_eq!(store.uncompacted_record_num(), 3);
    let image = store.snapshot();
    drop(store);
    let store = KvStoreInner::open(image).unwrap();
    assert_eq!(store.uncompacted_record_num(), 3);
}

// Opening a directory whose segment bytes are damaged is a distinct
// startup error, not silent data loss.
#[test]
fn reopen_rejects_corrupt_segment() {
    let mut store = KvStoreInner::open(fresh_image()).unwrap();
    store.set("key1", "value1").unwrap();
    let mut image = store.snapshot();
    let tail = image.segments[0].data.len() - 3;
    image.segments[0].data.truncate(tail);
    assert!(KvStoreInner::open(image).is_err());
}

#[test]
fn cycle_counter_wraps() {
    let mut counter = CycleCounter::new(6, 8);
    assert_eq!(counter.next(), 6);
    assert_eq!(counter.next(), 7);
    assert_eq!(counter.next(), 0);
    assert_eq!(counter.next(), 1);
}

#[test]
fn segment_file_names() {
    assert_eq!(file_name_from_id(0), "00000.log".to_string());
    assert_eq!(file_name_from_id(42), "00042.log".to_string());
    assert_eq!(file_name_from_id(65535), "65535.log".to_string());
}

#[test]
fn sled_adapter_round_trip() {
    let dir = tempfile::TempDir::new().expect("unable to create temporary working directory");
    let path = dir.path().to_str().unwrap();
    let store = SledAdapter::open(path).unwrap();
    store.set("key1", "value1").unwrap();
    assert_eq!(store.get("key1").unwrap(), Some("value1".to_string()));
    assert_eq!(store.get("key2").unwrap(), None);
    assert!(store.remove("key2").is_err());
    store.remove("key1").unwrap();
    assert_eq!(store.get("key1").unwrap(), None);
    store.flush().unwrap();
}

// Once the active segment outgrows the size limit, the next write starts
// a fresh segment.
#[test]
fn rotation_starts_new_segment() {
    let mut store = KvStoreInner::open(fresh_image()).unwrap();
    let big = "x".repeat(600000);
    store.set("key1", &big).unwrap();
    store.set("key2", &big).unwrap();
    store.set("key3", "small").unwrap();
    let image = store.snapshot();
    assert!(image.segments.len() >= 2);
    assert_eq!(image.segments[0].id + 1, image.segments[1].id);
    let store = KvStoreInner::open(image).unwrap();
    assert_eq!(store.get("key1").unwrap(), Some(big.clone()));
    assert_eq!(store.get("key3").unwrap(), Some("small".to_string()));
}

// The compaction threshold doubles on compaction and survives a restart
// through the metadata file.
#[test]
fn threshold_survives_reopen() {
    let mut store = KvStoreInner::open(fresh_image()).unwrap();
    store.set("key1", "value1").unwrap();
    store.compaction().unwrap();
    let image = store.snapshot();
    assert!(image.metadata.is_some());
    drop(store);
    let mut store = KvStoreInner::open(image).unwrap();
    // The threshold is now 128; 128 overwrites do not trigger compaction,
    // the 129th does.
    for i in 0..128 {
        store.set("key1", &format!("value{}", i)).unwrap();
    }
    assert_eq!(store.uncompacted_record_num(), 128);
    store.set("key1", "last").unwrap();
    assert_eq!(store.uncompacted_record_num(), 0);
    assert_eq!(store.get("key1").unwrap(), Some("last".to_string()));
}

// A fresh directory starts with exactly one empty segment, numbered 0.
#[test]
fn fresh_store_layout() {
    let store = KvStoreInner::open(fresh_image()).unwrap();
    let image = store.snapshot();
    assert_eq!(image.segments.len(), 1);
    assert_eq!(image.segments[0].id, 0);
    assert!(image.segments[0].data.is_empty());
}

// Writes land at the end of the active segment: a set appends the
// insertion line, a remove appends the tombstone line.
#[test]
fn records_append_to_active_segment() {
    let mut store = KvStoreInner::open(fresh_image()).unwrap();
    store.set("key1", "value1").unwrap();
    let image = store.snapshot();
    assert_eq!(
        image.segments[0].data,
        b"{\"Insertion\":{\"key\":\"key1\",\"value\":\"value1\"}}\n".to_vec()
    );
    store.remove("key1").unwrap();
    let image = store.snapshot();
    assert!(image.segments[0].data.ends_with(b"{\"Discard\":{\"key\":\"key1\"}}\n"));
}

// Compaction renumbers its output from zero, so even a directory whose
// only segment carries the highest legal number compacts and recovers
// the identifier space.
#[test]
fn compaction_recovers_exhausted_identifiers() {
    let line = encode_command(&Command::Insertion {
        key: "key1".to_string(),
        value: "value1".to_string(),
    });
    let meta = PersistentStruct { compaction_threshold: 64, uncompacted_size: 0 }.encode();
    let image = DiskImage {
        segments: vec![Segment { id: 65535, data: line }],
        metadata: Some(meta),
    };
    let mut store = KvStoreInner::open(image).unwrap();
    store.set("key1", "value2").unwrap();
    assert_eq!(store.uncompacted_record_num(), 1);
    store.compaction().unwrap();
    assert_eq!(store.uncompacted_record_num(), 0);
    let image = store.snapshot();
    assert_eq!(image.segments.len(), 1);
    assert_eq!(image.segments[0].id, 0);
    let store = KvStoreInner::open(image).unwrap();
    assert_eq!(store.get("key1").unwrap(), Some("value2".to_string()));
}

// After a compaction the segments are numbered from zero again.
#[test]
fn compaction_renumbers_segments() {
    let mut store = KvStoreInner::open(DiskImage { segments: Vec::new(), metadata: None })
        .unwrap();
    let big = "x".repeat(600000);
    store.set("key1", &big).unwrap();
    store.set("key2", &big).unwrap();
    store.set("key3", &big).unwrap();
    store.compaction().unwrap();
    let image = store.snapshot();
    for (i, seg) in image.segments.iter().enumerate() {
        assert_eq!(seg.id, i);
    }
    assert_eq!(store.get("key2").unwrap(), Some(big));
}
