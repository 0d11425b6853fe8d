use serde_cbor::Value;
use std::collections::BTreeMap;
use transmission_notifier::codec::{decode_snapshot, encode_snapshot};
use transmission_notifier::snapshot::Snapshot;
use transmission_notifier::torrent::TorrentStatus;

fn obs(name: &str, fin: bool) -> TorrentStatus {
    TorrentStatus { name: name.as_bytes().to_vec(), is_finished: fin }
}

fn record_value(name: &str, fin: bool) -> Value {
    let mut m: BTreeMap<Value, Value> = BTreeMap::new();
    m.insert(Value::Text("name".to_string()), Value::Text(name.to_string()));
    m.insert(Value::Text("is_finished".to_string()), Value::Bool(fin));
    Value::Map(m)
}

#[test]
fn exact_bytes_of_one_record() {
    let s = Snapshot::from_observations(&vec![obs("A", false)]);
    let bytes = encode_snapshot(&s);
    let expected: Vec<u8> = vec![
        0x81, // array of one
        0xa2, // map of two
        0x64, b'n', b'a', b'm', b'e', // "name"
        0x61, b'A', // "A"
        0x6b, b'i', b's', b'_', b'f', b'i', b'n', b'i', b's', b'h', b'e', b'd', // "is_finished"
        0xf4, // false
    ];
    assert_eq!(bytes, expected);
}

#[test]
fn empty_snapshot_is_one_byte() {
    let s = Snapshot::new();
    let bytes = encode_snapshot(&s);
    assert_eq!(bytes, vec![0x80]);
    let back = decode_snapshot(&bytes).unwrap();
    assert!(back.is_empty());
}

#[test]
fn round_trip_small() {
    let s = Snapshot::from_observations(&vec![obs("A", false), obs("B", true)]);
    let bytes = encode_snapshot(&s);
    let back = decode_snapshot(&bytes).unwrap();
    assert_eq!(back, vec![obs("A", false), obs("B", true)]);
}

#[test]
fn round_trip_longer_names() {
    // One name beyond the 23-byte short form, one beyond 255 bytes.
    let n1 = "x".repeat(30);
    let n2 = "y".repeat(300);
    let s = Snapshot::from_observations(&vec![obs(&n1, true), obs(&n2, false)]);
    let bytes = encode_snapshot(&s);
    let back = decode_snapshot(&bytes).unwrap();
    assert_eq!(back, vec![obs(&n1, true), obs(&n2, false)]);
}

#[test]
fn round_trip_many_records() {
    // More than 23 records, so the array head takes the two-byte form.
    let mut v = Vec::new();
    for i in 0..30 {
        v.push(obs(&format!("t{}", i), i % 2 == 0));
    }
    let s = Snapshot::from_observations(&v);
    let bytes = encode_snapshot(&s);
    assert_eq!(bytes[0], 0x98);
    assert_eq!(bytes[1], 30);
    let back = decode_snapshot(&bytes).unwrap();
    assert_eq!(back, v);
}

#[test]
fn malformed_bytes_are_rejected() {
    // Truncated: claims one record, holds none.
    assert_eq!(decode_snapshot(&vec![0x81]), None);
    // Not an array at all.
    assert_eq!(decode_snapshot(&vec![0xff]), None);
    assert_eq!(decode_snapshot(&vec![]), None);
    // Trailing garbage after a well-formed snapshot.
    let mut bytes = encode_snapshot(&Snapshot::new());
    bytes.push(0x00);
    assert_eq!(decode_snapshot(&bytes), None);
    // Non-shortest array head.
    assert_eq!(decode_snapshot(&vec![0x98, 0x00]), None);
    // Record with the wrong first key.
    assert_eq!(
        decode_snapshot(&vec![0x81, 0xa2, 0x64, b'n', b'a', b'm', b'x', 0x61, b'A']),
        None
    );
    // Bool byte that is neither true nor false.
    let s = Snapshot::from_observations(&vec![obs("A", false)]);
    let mut bytes = encode_snapshot(&s);
    let last = bytes.len() - 1;
    bytes[last] = 0xf6;
    assert_eq!(decode_snapshot(&bytes), None);
}

#[test]
fn encoding_is_well_formed_cbor() {
    // An independent CBOR reader decodes the bytes to the same data.
    let s = Snapshot::from_observations(&vec![obs("A", false), obs("B", true)]);
    let bytes = encode_snapshot(&s);
    let v: Value = serde_cbor::from_slice(&bytes).unwrap();
    assert_eq!(
        v,
        Value::Array(vec![record_value("A", false), record_value("B", true)])
    );
}
