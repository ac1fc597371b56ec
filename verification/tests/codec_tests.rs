//! The record codec, the metadata codec and the wire protocol: exact
//! encodings, round trips, and rejection of malformed input.

use kvs::codec::{Command, decode_command, encode_command};
use kvs::persist::PersistentStruct;
use kvs::protocol::{
    Instruction, Response, decode_instruction, decode_response, encode_instruction,
    encode_response,
};

#[test]
fn record_encoding_is_canonical_json() {
    let cmd = Command::Insertion { key: "key1".to_string(), value: "value1".to_string() };
    let line = encode_command(&cmd);
    assert_eq!(line, b"{\"Insertion\":{\"key\":\"key1\",\"value\":\"value1\"}}\n".to_vec());

    let cmd = Command::Discard { key: "key1".to_string() };
    let line = encode_command(&cmd);
    assert_eq!(line, b"{\"Discard\":{\"key\":\"key1\"}}\n".to_vec());
}

#[test]
fn record_encoding_escapes_quotes_and_backslashes() {
    let cmd = Command::Insertion { key: "a\"b".to_string(), value: "c\\d".to_string() };
    let line = encode_command(&cmd);
    assert_eq!(line, b"{\"Insertion\":{\"key\":\"a\\\"b\",\"value\":\"c\\\\d\"}}\n".to_vec());
    assert_eq!(decode_command(&line), Some(cmd));
}

#[test]
fn record_round_trip() {
    let cases = vec![
        Command::Insertion { key: "k".to_string(), value: "v".to_string() },
        Command::Insertion { key: "key with spaces".to_string(), value: "{}[]:,".to_string() },
        Command::Discard { key: "gone".to_string() },
    ];
    for cmd in cases {
        let line = encode_command(&cmd);
        assert_eq!(decode_command(&line), Some(cmd));
    }
}

#[test]
fn record_decode_rejects_malformed_lines() {
    let bad: Vec<&[u8]> = vec![
        b"",
        b"\n",
        b"{\"Insertion\":{\"key\":\"k\",\"value\":\"v\"}}",
        b"{\"Insertion\":{\"key\":\"\",\"value\":\"v\"}}\n",
        b"{\"Upsert\":{\"key\":\"k\",\"value\":\"v\"}}\n",
        b"{\"Discard\":{\"key\":\"k\"}} \n",
        b"{\"Discard\":{\"key\":\"k\"}}\n\n",
        b"{\"Insertion\":{\"key\":\"k\"}}\n",
    ];
    for line in bad {
        assert_eq!(decode_command(&line.to_vec()), None);
    }
}

#[test]
fn metadata_round_trip() {
    let meta = PersistentStruct { compaction_threshold: 64, uncompacted_size: 0 };
    let bytes = meta.encode();
    assert_eq!(
        bytes,
        b"{\"compaction_threshold\":64,\"frozen_idx_map\":{},\"uncompacted_size\":0}".to_vec()
    );
    assert_eq!(PersistentStruct::decode(&bytes), Some(meta));

    let meta = PersistentStruct { compaction_threshold: 1024, uncompacted_size: 987654321 };
    assert_eq!(PersistentStruct::decode(&meta.encode()), Some(meta));
}

#[test]
fn metadata_rejects_malformed() {
    assert_eq!(PersistentStruct::decode(&b"".to_vec()), None);
    assert_eq!(PersistentStruct::decode(&b"{}".to_vec()), None);
    assert_eq!(
        PersistentStruct::decode(
            &b"{\"compaction_threshold\":,\"frozen_idx_map\":{},\"uncompacted_size\":0}".to_vec()
        ),
        None
    );
    // A threshold too large for a u64 is rejected rather than wrapped.
    assert_eq!(
        PersistentStruct::decode(
            &b"{\"compaction_threshold\":99999999999999999999,\"frozen_idx_map\":{},\"uncompacted_size\":0}"
                .to_vec()
        ),
        None
    );
}

#[test]
fn instruction_encoding_matches_wire_format() {
    let set = Instruction::Put { key: "k".to_string(), value: "v".to_string() };
    assert_eq!(encode_instruction(&set), b"{\"Set\":{\"key\":\"k\",\"value\":\"v\"}}\n".to_vec());
    let get = Instruction::Get { key: "k".to_string() };
    assert_eq!(encode_instruction(&get), b"{\"Get\":{\"key\":\"k\"}}\n".to_vec());
    let rm = Instruction::Rm { key: "k".to_string() };
    assert_eq!(encode_instruction(&rm), b"{\"Rm\":{\"key\":\"k\"}}\n".to_vec());

    assert_eq!(decode_instruction(&encode_instruction(&set)), Some(set));
    assert_eq!(decode_instruction(&encode_instruction(&get)), Some(get));
    assert_eq!(decode_instruction(&encode_instruction(&rm)), Some(rm));
}

#[test]
fn response_encoding_matches_wire_format() {
    let done = Response::Done("value1".to_string());
    assert_eq!(encode_response(&done), b"{\"Ok\":\"value1\"}\n".to_vec());
    let empty = Response::Done("".to_string());
    assert_eq!(encode_response(&empty), b"{\"Ok\":\"\"}\n".to_vec());
    let failed = Response::Failed("Key: key1 not found.".to_string());
    assert_eq!(encode_response(&failed), b"{\"Error\":\"Key: key1 not found.\"}\n".to_vec());

    assert_eq!(decode_response(&encode_response(&done)), Some(done));
    assert_eq!(decode_response(&encode_response(&empty)), Some(empty));
    assert_eq!(decode_response(&encode_response(&failed)), Some(failed));
}

#[test]
fn instruction_decode_rejects_malformed_lines() {
    let bad: Vec<&[u8]> = vec![
        b"",
        b"{\"Set\":{\"key\":\"k\"}}\n",
        b"{\"Get\":{\"key\":\"\"}}\n",
        b"{\"Del\":{\"key\":\"k\"}}\n",
        b"{\"Get\":{\"key\":\"k\"}}",
        b"{\"Get\":{\"key\":\"\xff\"}}\n",
    ];
    for line in bad {
        assert_eq!(decode_instruction(&line.to_vec()), None);
    }
}

// A metadata file whose index snapshot is populated still parses: the
// snapshot is skipped, since recovery recomputes the index by replay.
#[test]
fn metadata_tolerates_index_snapshot() {
    let bytes =
        b"{\"compaction_threshold\":128,\"frozen_idx_map\":{\"key{1}\":{\"file_id\":2,\"pos\":7}},\"uncompacted_size\":5}"
            .to_vec();
    assert_eq!(
        PersistentStruct::decode(&bytes),
        Some(PersistentStruct { compaction_threshold: 128, uncompacted_size: 5 })
    );
    let unbalanced =
        b"{\"compaction_threshold\":1,\"frozen_idx_map\":{,\"uncompacted_size\":2}".to_vec();
    assert_eq!(PersistentStruct::decode(&unbalanced), None);
}
