//! Record-format tests: layout, round trips, and corruption detection.

use lumen_core::wal::{encode_record, recover_records, WalRecord};
use lumen_core::WalError;

fn put(key: &str, value: &[u8]) -> WalRecord {
    WalRecord::Put { key: key.to_string(), value: value.to_vec() }
}

fn del(key: &str) -> WalRecord {
    WalRecord::Delete { key: key.to_string() }
}

fn assert_put(record: &WalRecord, key: &str, value: &[u8]) {
    match record {
        WalRecord::Put { key: k, value: v } => {
            assert_eq!(k, key);
            assert_eq!(v.as_slice(), value);
        }
        WalRecord::Delete { .. } => panic!("expected a put record"),
    }
}

fn assert_del(record: &WalRecord, key: &str) {
    match record {
        WalRecord::Delete { key: k } => assert_eq!(k, key),
        WalRecord::Put { .. } => panic!("expected a delete record"),
    }
}

#[test]
fn layout_put_record() {
    let bytes = encode_record(&put("a", &[1, 2, 3]));
    assert_eq!(bytes.len(), 1 + 4 + 8 + 8 + 1 + 3);
    assert_eq!(bytes[0], 0x01);
    // key length, big-endian
    assert_eq!(&bytes[5..13], &[0, 0, 0, 0, 0, 0, 0, 1]);
    // value length, big-endian
    assert_eq!(&bytes[13..21], &[0, 0, 0, 0, 0, 0, 0, 3]);
    assert_eq!(bytes[21], b'a');
    assert_eq!(&bytes[22..25], &[1, 2, 3]);
    // the checksum covers op, key length, value length, key bytes, value bytes
    let mut body: Vec<u8> = Vec::new();
    body.push(0x01);
    body.extend_from_slice(&bytes[5..21]);
    body.extend_from_slice(&bytes[21..25]);
    let expected = crc32fast::hash(&body).to_be_bytes();
    assert_eq!(&bytes[1..5], &expected);
}

#[test]
fn layout_delete_record() {
    let bytes = encode_record(&del("k"));
    assert_eq!(bytes.len(), 1 + 4 + 8 + 8 + 1);
    assert_eq!(bytes[0], 0x02);
    assert_eq!(&bytes[5..13], &[0, 0, 0, 0, 0, 0, 0, 1]);
    assert_eq!(&bytes[13..21], &[0, 0, 0, 0, 0, 0, 0, 0]);
    assert_eq!(bytes[21], b'k');
}

#[test]
fn round_trip_single_put() {
    let bytes = encode_record(&put("hello", &[9, 8, 7]));
    let records = recover_records(&bytes).expect("clean image recovers");
    assert_eq!(records.len(), 1);
    assert_put(&records[0], "hello", &[9, 8, 7]);
}

#[test]
fn round_trip_unicode_key() {
    let bytes = encode_record(&put("clé☃", &[0xff, 0x00]));
    let records = recover_records(&bytes).expect("clean image recovers");
    assert_eq!(records.len(), 1);
    assert_put(&records[0], "clé☃", &[0xff, 0x00]);
}

#[test]
fn round_trip_mixed_records() {
    let mut image: Vec<u8> = Vec::new();
    image.extend_from_slice(&encode_record(&put("a", &[1])));
    image.extend_from_slice(&encode_record(&del("a")));
    image.extend_from_slice(&encode_record(&put("b", &[])));
    image.extend_from_slice(&encode_record(&put("c", &[4, 5])));
    let records = recover_records(&image).expect("clean image recovers");
    assert_eq!(records.len(), 4);
    assert_put(&records[0], "a", &[1]);
    assert_del(&records[1], "a");
    assert_put(&records[2], "b", &[]);
    assert_put(&records[3], "c", &[4, 5]);
}

#[test]
fn recover_empty_image_is_ok() {
    let records = recover_records(&[]).expect("an empty image is a fresh store");
    assert_eq!(records.len(), 0);
}

#[test]
fn flip_any_data_byte_is_detected() {
    // flipping any single byte of the key or value region must surface as a
    // checksum mismatch, never as a silently different record
    let bytes = encode_record(&put("key", &[10, 20, 30, 40]));
    for i in 21..bytes.len() {
        let mut corrupt = bytes.clone();
        corrupt[i] ^= 0xff;
        match recover_records(&corrupt) {
            Err(WalError::ChecksumMismatch { .. }) => {}
            other => panic!("byte {} flip not detected: {:?}", i, other),
        }
    }
}

#[test]
fn flip_length_field_is_detected() {
    let bytes = encode_record(&put("key", &[10, 20, 30]));
    let mut corrupt = bytes.clone();
    // lowest byte of the value length: lengths still fit the image only if
    // smaller, so shrink the value length from 3 to 2
    corrupt[20] = 2;
    match recover_records(&corrupt) {
        Err(e) => match e {
            WalError::ChecksumMismatch { .. } | WalError::Io | WalError::UnknownOperation(_) => {}
            WalError::InvalidKey => panic!("unexpected invalid-key error"),
        },
        Ok(_) => panic!("corrupted length field not detected"),
    }
}

#[test]
fn checksum_error_reports_both_values() {
    let bytes = encode_record(&put("a", &[1]));
    let mut body: Vec<u8> = Vec::new();
    body.push(bytes[0]);
    body.extend_from_slice(&bytes[5..]);
    let actual = crc32fast::hash(&body);
    let mut corrupt = bytes.clone();
    corrupt[4] ^= 0x01;
    let stored = u32::from_be_bytes([corrupt[1], corrupt[2], corrupt[3], corrupt[4]]);
    match recover_records(&corrupt) {
        Err(WalError::ChecksumMismatch { expected, actual: got }) => {
            assert_eq!(expected, stored);
            assert_eq!(got, actual);
        }
        other => panic!("expected a checksum mismatch, got {:?}", other),
    }
}

#[test]
fn unknown_op_byte_rejected() {
    let image = [0x07u8, 0, 0, 0, 0];
    match recover_records(&image) {
        Err(WalError::UnknownOperation(op)) => assert_eq!(op, 0x07),
        other => panic!("expected an unknown-operation error, got {:?}", other),
    }
}

#[test]
fn unknown_op_after_valid_record_rejected() {
    let mut image = encode_record(&put("a", &[1]));
    image.push(0x00);
    match recover_records(&image) {
        Err(WalError::UnknownOperation(op)) => assert_eq!(op, 0x00),
        other => panic!("expected an unknown-operation error, got {:?}", other),
    }
}

#[test]
fn truncated_tail_fails_everywhere() {
    // a log cut anywhere inside its last record must fail with a short read,
    // whatever came before it
    let mut image = encode_record(&put("first", &[1, 2]));
    let last = encode_record(&put("key", &[10, 20, 30]));
    for cut in 1..last.len() {
        let mut truncated = image.clone();
        truncated.extend_from_slice(&last[..cut]);
        match recover_records(&truncated) {
            Err(WalError::Io) => {}
            other => panic!("cut at {} not detected: {:?}", cut, other),
        }
    }
    // and the records before the cut are not silently dropped on success
    image.extend_from_slice(&last);
    assert_eq!(recover_records(&image).expect("whole image recovers").len(), 2);
}

#[test]
fn invalid_utf8_key_rejected() {
    // a record whose checksum is right but whose key bytes are not UTF-8
    let mut body: Vec<u8> = Vec::new();
    body.push(0x01);
    body.extend_from_slice(&2u64.to_be_bytes());
    body.extend_from_slice(&0u64.to_be_bytes());
    body.extend_from_slice(&[0xff, 0xfe]);
    let crc = crc32fast::hash(&body);
    let mut image: Vec<u8> = Vec::new();
    image.push(0x01);
    image.extend_from_slice(&crc.to_be_bytes());
    image.extend_from_slice(&body[1..]);
    match recover_records(&image) {
        Err(WalError::InvalidKey) => {}
        other => panic!("expected an invalid-key error, got {:?}", other),
    }
}
