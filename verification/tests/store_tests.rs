//! The storage engine, driven through directory images: persistence,
//! overwrites, removal and compaction.

use kvs::kvstore::{DiskImage, KvStoreInner};
use rand::Rng;

/// An image of a directory nothing has written yet.
fn fresh_image() -> DiskImage {
    DiskImage { segments: Vec::new(), metadata: None }
}

#[test]
fn basic_usage() {
    let mut store = KvStoreInner::open(fresh_image()).unwrap();

    store.set("key1", "value1").unwrap();
    store.set("key2", "value2").unwrap();

    assert_eq!(store.get("key1").unwrap(), Some("value1").map(str::to_string));
    assert_eq!(store.get("key2").unwrap(), Some("value2").map(str::to_string));

    // Open from disk again and check persistent data.
    let image = store.snapshot();
    drop(store);
    let store = KvStoreInner::open(image).unwrap();
    assert_eq!(store.get("key1").unwrap(), Some("value1").map(str::to_string));
    assert_eq!(store.get("key2").unwrap(), Some("value2").map(str::to_string));
}

#[test]
fn kvstore_overwrite_value() {
    let mut store = KvStoreInner::open(fresh_image()).unwrap();

    store.set("key1", "value1").unwrap();
    assert_eq!(store.get("key1").unwrap(), Some("value1").map(str::to_string));
    store.set("key1", "value2").unwrap();
    assert_eq!(store.get("key1").unwrap(), Some("value2").map(str::to_string));

    // Open from disk again and check persistent data.
    let image = store.snapshot();
    drop(store);
    let mut store = KvStoreInner::open(image).unwrap();
    assert_eq!(store.get("key1").unwrap(), Some("value2").map(str::to_string));
    store.set("key1", "value3").unwrap();
    let val = store.get("key1").unwrap();
    let expected = Some("value3").map(str::to_string);
    assert_eq!(expected, val, "Value stored by KvStore: {:?}, expected: {:?}", val, expected);
}

#[test]
fn kvstore_get_non_existent_value() {
    let mut store = KvStoreInner::open(fresh_image()).unwrap();

    store.set("key1", "value1").unwrap();
    assert_eq!(store.get("key2").unwrap(), None);

    // Open from disk again and check persistent data.
    let image = store.snapshot();
    drop(store);
    let store = KvStoreInner::open(image).unwrap();
    assert_eq!(store.get("key2").unwrap(), None);
}

#[test]
fn kvstore_remove_non_existent_key() {
    let mut store = KvStoreInner::open(fresh_image()).unwrap();
    assert!(store.remove("key1").is_err());
}

#[test]
fn kvstore_remove_key() {
    let mut store = KvStoreInner::open(fresh_image()).unwrap();
    store.set("key1", "value1").unwrap();
    assert!(store.remove("key1").is_ok());
    assert_eq!(store.get("key1").unwrap(), None);
}

// Insert data until total size of the directory decreases.
// Test data correctness after compaction.
#[test]
fn kvstore_compaction() {
    let mut store = KvStoreInner::open(fresh_image()).unwrap();

    let mut current_size = store.total_disk_size();
    for iter in 0..1000 {
        for key_id in 0..1000 {
            let key = format!("key{}", key_id);
            let value = format!("{}", iter);
            store.set(&key, &value).unwrap();
        }

        let new_size = store.total_disk_size();
        if new_size > current_size {
            current_size = new_size;
            continue;
        }
        // Compaction triggered.

        let image = store.snapshot();
        drop(store);
        // reopen and check content.
        let store = KvStoreInner::open(image).unwrap();
        for key_id in 0..1000 {
            let key = format!("key{}", key_id);
            assert_eq!(store.get(&key).unwrap(), Some(format!("{}", iter)));
        }
        return;
    }

    panic!("No compaction detected");
}

#[test]
pub fn huge_test() {
    let mut store = KvStoreInner::open(fresh_image()).unwrap();
    for i in 0..9000 {
        store.set(&format!("key{}", i), &format!("key{}", i)).unwrap();
    }
    let image = store.snapshot();
    drop(store);
    let store = KvStoreInner::open(image).unwrap();

    for i in (0..9000).rev() {
        assert_eq!(store.get(&format!("key{}", i)).unwrap(), Some(format!("key{}", i)))
    }
}

#[test]
pub fn stress_test() {
    let test_set: Vec<(String, String)> = {
        let mut rng = rand::thread_rng();
        (1..30)
            .map(move |_| {
                let key = random_string(rng.gen_range(1..100000));
                let value = random_string(rng.gen_range(1..100000));
                (key, value)
            })
            .collect::<Vec<_>>()
    };
    let mut store = KvStoreInner::open(fresh_image()).unwrap();
    let len = 100;
    for _ in 0..len {
        for (key, value) in test_set.iter() {
            store.set(key, value).unwrap();
        }
    }
    for (key, value) in test_set.iter() {
        assert_eq!(store.get(key).unwrap().unwrap(), *value);
    }
}

fn random_string(len: usize) -> String {
    let rng = rand::thread_rng();
    rng.sample_iter(&rand::distributions::Alphanumeric)
        .take(len)
        .map(char::from)
        .collect()
}

// A directory without recovery metadata counts as fresh, whatever stray
// files it holds: the engine starts over with an empty segment.
#[test]
fn missing_metadata_starts_fresh() {
    let mut store = KvStoreInner::open(fresh_image()).unwrap();
    store.set("key1", "value1").unwrap();
    let mut image = store.snapshot();
    image.metadata = None;
    drop(store);
    let store = KvStoreInner::open(image).unwrap();
    assert_eq!(store.get("key1").unwrap(), None);
    assert_eq!(store.uncompacted_record_num(), 0);
}
