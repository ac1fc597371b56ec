//! The request pipeline end to end: raw request lines against a live
//! store, answered exactly as the protocol promises.

use kvs::kvstore::{DiskImage, KvStore};
use kvs::protocol::handle_request_line;
use kvs::{EngineType, KvError, MarkCheck, mark_decision};

fn fresh_store() -> KvStore {
    KvStore::open(DiskImage { segments: Vec::new(), metadata: None }).unwrap()
}

fn ask(store: &KvStore, line: &[u8]) -> Vec<u8> {
    handle_request_line(store, &line.to_vec()).unwrap()
}

#[test]
fn protocol_session() {
    let store = fresh_store();
    assert_eq!(
        ask(&store, b"{\"Set\":{\"key\":\"k\",\"value\":\"v\"}}\n"),
        b"{\"Ok\":\"\"}\n".to_vec()
    );
    assert_eq!(ask(&store, b"{\"Get\":{\"key\":\"k\"}}\n"), b"{\"Ok\":\"v\"}\n".to_vec());
    assert_eq!(
        ask(&store, b"{\"Get\":{\"key\":\"x\"}}\n"),
        b"{\"Ok\":\"Key: x not found\"}\n".to_vec()
    );
    assert_eq!(
        ask(&store, b"{\"Rm\":{\"key\":\"x\"}}\n"),
        b"{\"Error\":\"Key: x not found.\"}\n".to_vec()
    );
    assert_eq!(ask(&store, b"{\"Rm\":{\"key\":\"k\"}}\n"), b"{\"Ok\":\"\"}\n".to_vec());
    assert_eq!(
        ask(&store, b"{\"Get\":{\"key\":\"k\"}}\n"),
        b"{\"Ok\":\"Key: k not found\"}\n".to_vec()
    );
}

#[test]
fn protocol_rejects_malformed_request() {
    let store = fresh_store();
    assert_eq!(handle_request_line(&store, &b"nonsense\n".to_vec()), None);
    assert_eq!(handle_request_line(&store, &b"{\"Set\":{\"key\":\"k\"}}\n".to_vec()), None);
}

#[test]
fn error_messages() {
    let e = KvError::KeyNotFound { key: "key1".to_string() };
    assert_eq!(e.message(), "Key: key1 not found.".to_string());
    assert_eq!(KvError::Protocol.message(), "Malformed request.".to_string());
}

#[test]
fn engine_type_tokens() {
    assert_eq!(EngineType::from_str("kvs"), Some(EngineType::Kvs));
    assert_eq!(EngineType::from_str("SLED"), Some(EngineType::Sled));
    assert_eq!(EngineType::from_str("Mock"), Some(EngineType::Mock));
    assert_eq!(EngineType::from_str("redis"), None);
    assert_eq!(EngineType::from_str(""), None);
    assert_eq!(EngineType::Kvs.token(), "kvs".to_string());
    assert_eq!(EngineType::Sled.token(), "sled".to_string());
}

// The startup guard of the data directory: matching marker proceeds, a
// missing marker is written, a mismatched marker is fatal.
#[test]
fn engine_mark_guard() {
    assert_eq!(mark_decision("kvs", EngineType::Kvs), MarkCheck::Matches);
    assert_eq!(mark_decision("", EngineType::Kvs), MarkCheck::Absent);
    assert_eq!(mark_decision("garbage", EngineType::Sled), MarkCheck::Absent);
    assert_eq!(mark_decision("kvs", EngineType::Sled), MarkCheck::Mismatch);
    assert_eq!(mark_decision("sled", EngineType::Kvs), MarkCheck::Mismatch);
}
