//! Engine tests: the write path, replay, and durability across reopen.
//!
//! The log file is simulated by a byte vector: every mutation first appends
//! the record's encoding to it (the durability point), then applies the
//! mutation to the engine — the same ordering a caller over a real file
//! follows. "Reopening" recovers the bytes and replays the records.

use lumen_core::wal::{encode_record, recover_records, WalRecord};
use lumen_core::Engine;

fn append(log: &mut Vec<u8>, record: &WalRecord) {
    let bytes = encode_record(record);
    log.extend_from_slice(&bytes);
}

fn put(engine: &mut Engine, log: &mut Vec<u8>, key: &str, value: &[u8]) {
    append(log, &WalRecord::Put { key: key.to_string(), value: value.to_vec() });
    engine.put(key.to_string(), value.to_vec());
}

fn delete(engine: &mut Engine, log: &mut Vec<u8>, key: &str) -> bool {
    append(log, &WalRecord::Delete { key: key.to_string() });
    engine.delete(key)
}

fn reopen(log: &[u8]) -> Engine {
    let records = recover_records(log).expect("the log recovers");
    Engine::replay(&records)
}

#[test]
fn fresh_engine_is_empty() {
    let engine = Engine::new();
    assert_eq!(engine.len(), 0);
    assert!(engine.is_empty());
    assert_eq!(engine.get("anything"), None);
}

#[test]
fn put_get_delete_reopen_cycle() {
    let mut log: Vec<u8> = Vec::new();
    let mut engine = reopen(&log);
    assert!(engine.is_empty());

    put(&mut engine, &mut log, "a", &[1, 2, 3]);
    assert_eq!(engine.get("a"), Some(vec![1, 2, 3]));

    assert!(delete(&mut engine, &mut log, "a"));
    assert_eq!(engine.get("a"), None);

    assert!(!delete(&mut engine, &mut log, "a"));

    let reopened = reopen(&log);
    assert_eq!(reopened.len(), 0);
    assert_eq!(reopened.get("a"), None);
}

#[test]
fn empty_value_distinguished_from_missing() {
    let mut log: Vec<u8> = Vec::new();
    let mut engine = reopen(&log);
    put(&mut engine, &mut log, "x", &[]);

    let reopened = reopen(&log);
    assert_eq!(reopened.get("x"), Some(Vec::new()));
    assert_eq!(reopened.get("y"), None);
    assert_eq!(reopened.len(), 1);
}

#[test]
fn replay_last_write_wins() {
    let mut log: Vec<u8> = Vec::new();
    append(&mut log, &WalRecord::Put { key: "k".to_string(), value: vec![1] });
    append(&mut log, &WalRecord::Put { key: "k".to_string(), value: vec![2] });
    append(&mut log, &WalRecord::Delete { key: "k".to_string() });
    append(&mut log, &WalRecord::Put { key: "k".to_string(), value: vec![3] });
    let engine = reopen(&log);
    assert_eq!(engine.get("k"), Some(vec![3]));
    assert_eq!(engine.len(), 1);
}

#[test]
fn replay_put_then_delete_leaves_key_absent() {
    let mut log: Vec<u8> = Vec::new();
    append(&mut log, &WalRecord::Put { key: "k".to_string(), value: vec![1] });
    append(&mut log, &WalRecord::Delete { key: "k".to_string() });
    let engine = reopen(&log);
    assert_eq!(engine.get("k"), None);
    assert!(engine.is_empty());
}

#[test]
fn delete_of_absent_key_still_appends() {
    let mut log: Vec<u8> = Vec::new();
    let mut engine = reopen(&log);
    let before = log.len();
    assert!(!delete(&mut engine, &mut log, "missing"));
    assert!(log.len() > before);
    let reopened = reopen(&log);
    assert_eq!(reopened.len(), 0);
}

#[test]
fn mutation_durable_after_every_acknowledged_call() {
    let mut log: Vec<u8> = Vec::new();
    let mut engine = reopen(&log);

    put(&mut engine, &mut log, "a", &[1]);
    assert_eq!(reopen(&log).get("a"), Some(vec![1]));

    put(&mut engine, &mut log, "b", &[2, 2]);
    assert_eq!(reopen(&log).get("a"), Some(vec![1]));
    assert_eq!(reopen(&log).get("b"), Some(vec![2, 2]));

    put(&mut engine, &mut log, "a", &[9]);
    assert_eq!(reopen(&log).get("a"), Some(vec![9]));

    delete(&mut engine, &mut log, "b");
    let reopened = reopen(&log);
    assert_eq!(reopened.get("b"), None);
    assert_eq!(reopened.len(), 1);
}

#[test]
fn len_tracks_distinct_live_keys() {
    let mut log: Vec<u8> = Vec::new();
    let mut engine = reopen(&log);
    put(&mut engine, &mut log, "a", &[1]);
    put(&mut engine, &mut log, "b", &[2]);
    put(&mut engine, &mut log, "a", &[3]);
    assert_eq!(engine.len(), 2);
    assert!(!engine.is_empty());
    delete(&mut engine, &mut log, "a");
    assert_eq!(engine.len(), 1);
    assert_eq!(reopen(&log).len(), 1);
}

#[test]
fn empty_key_is_ordinary_at_engine_level() {
    // the engine does not special-case empty keys; rejecting them is the
    // service layer's job
    let mut log: Vec<u8> = Vec::new();
    let mut engine = reopen(&log);
    put(&mut engine, &mut log, "", &[7]);
    assert_eq!(engine.get(""), Some(vec![7]));
    assert_eq!(reopen(&log).get(""), Some(vec![7]));
}
