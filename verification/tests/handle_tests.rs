//! The shared store handle: the same behaviour as the engine underneath,
//! through cloneable handles and the engine trait.

use kvs::engine::KvsEngine;
use kvs::kvstore::{DiskImage, KvStore};

/// An image of a directory nothing has written yet.
fn fresh_image() -> DiskImage {
    DiskImage { segments: Vec::new(), metadata: None }
}

// Should get previously stored value.
#[test]
fn get_stored_value() {
    let store = KvStore::open(fresh_image()).unwrap();

    store.set("key1", "value1").unwrap();
    store.set("key2", "value2").unwrap();

    assert_eq!(store.get("key1").unwrap(), Some("value1").map(str::to_string));
    assert_eq!(store.get("key2").unwrap(), Some("value2").map(str::to_string));

    // Open from disk again and check persistent data.
    let image = store.snapshot();
    drop(store);
    let store = KvStore::open(image).unwrap();
    assert_eq!(store.get("key1").unwrap(), Some("value1").map(str::to_string));
    assert_eq!(store.get("key2").unwrap(), Some("value2").map(str::to_string));
}

// Should overwrite existent value.
#[test]
fn tests_overwrite_value() {
    let store = KvStore::open(fresh_image()).unwrap();

    store.set("key1", "value1").unwrap();
    assert_eq!(store.get("key1").unwrap(), Some("value1").map(str::to_string));
    store.set("key1", "value2").unwrap();
    assert_eq!(store.get("key1").unwrap(), Some("value2").map(str::to_string));

    // Open from disk again and check persistent data.
    let image = store.snapshot();
    drop(store);
    let store = KvStore::open(image).unwrap();
    assert_eq!(store.get("key1").unwrap(), Some("value2").map(str::to_string));
    store.set("key1", "value3").unwrap();
    assert_eq!(store.get("key1").unwrap(), Some("value3").map(str::to_string));
}

// Should get `None` when getting a non-existent key.
#[test]
fn tests_get_non_existent_value() {
    let store = KvStore::open(fresh_image()).unwrap();

    store.set("key1", "value1").unwrap();
    assert_eq!(store.get("key2").unwrap(), None);

    // Open from disk again and check persistent data.
    let image = store.snapshot();
    drop(store);
    let store = KvStore::open(image).unwrap();
    assert_eq!(store.get("key2").unwrap(), None);
}

#[test]
fn tests_remove_non_existent_key() {
    let store = KvStore::open(fresh_image()).unwrap();
    assert!(store.remove("key1").is_err());
}

#[test]
fn tests_remove_key() {
    let store = KvStore::open(fresh_image()).unwrap();
    store.set("key1", "value1").unwrap();
    assert!(store.remove("key1").is_ok());
    assert_eq!(store.get("key1").unwrap(), None);
}

// Insert data until total size of the directory decreases.
// Test data correctness after compaction.
#[test]
fn tests_compaction() {
    let store = KvStore::open(fresh_image()).unwrap();

    let mut current_size = store.total_disk_size();
    for iter in 0..1000 {
        for key_id in 0..1000 {
            let key = format!("key{}", key_id);
            let value = format!("{}", iter);
            store.set(&key, &value).unwrap();
        }

        let new_size = store.total_disk_size();
        if new_size > current_size {
            current_size = new_size;
            continue;
        }
        // Compaction triggered.

        let image = store.snapshot();
        drop(store);
        // reopen and check content.
        let store = KvStore::open(image).unwrap();
        for key_id in 0..1000 {
            let key = format!("key{}", key_id);
            assert_eq!(store.get(&key).unwrap(), Some(format!("{}", iter)));
        }
        return;
    }

    panic!("No compaction detected");
}

// Handles are cheap clones of one engine: a write through one handle is
// visible through another.
#[test]
fn shared_handles_see_one_store() {
    let store = KvStore::open(fresh_image()).unwrap();
    let other = store.clone();
    store.set("key1", "value1").unwrap();
    assert_eq!(other.get("key1").unwrap(), Some("value1".to_string()));
    other.remove("key1").unwrap();
    assert_eq!(store.get("key1").unwrap(), None);
}
