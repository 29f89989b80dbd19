//! The on-disk record layout, bit for bit, and the decoder's behavior on
//! whole, truncated and hand-crafted byte streams.

use walkv::codec::{encode_delete, encode_set, WalIterator};
use walkv::recovery::decode_segment;

#[test]
fn value_record_layout_is_exact() {
    let enc = encode_set(b"a", b"1", 5);
    let mut expected: Vec<u8> = Vec::new();
    expected.extend_from_slice(&1u64.to_le_bytes()); // key length
    expected.push(0); // flag: value record
    expected.extend_from_slice(&1u64.to_le_bytes()); // value length
    expected.push(b'a');
    expected.push(b'1');
    expected.extend_from_slice(&5u128.to_le_bytes()); // timestamp
    assert_eq!(enc, expected);
}

#[test]
fn tombstone_layout_omits_value_length() {
    let enc = encode_delete(b"key", 9);
    let mut expected: Vec<u8> = Vec::new();
    expected.extend_from_slice(&3u64.to_le_bytes());
    expected.push(1); // flag: tombstone
    expected.extend_from_slice(b"key");
    expected.extend_from_slice(&9u128.to_le_bytes());
    assert_eq!(enc, expected);
    assert_eq!(enc.len(), 8 + 1 + 3 + 16);
}

#[test]
fn round_trip_value_record() {
    let enc = encode_set(b"apple", b"crisp", 123456789012345678901234567890u128);
    let mut it = WalIterator::new(enc);
    let e = it.next().expect("one record");
    assert_eq!(e.key.as_slice(), b"apple");
    assert_eq!(e.value.as_ref().unwrap().as_slice(), b"crisp");
    assert_eq!(e.timestamp, 123456789012345678901234567890u128);
    assert!(!e.deleted);
    assert!(it.next().is_none());
}

#[test]
fn round_trip_tombstone() {
    let enc = encode_delete(b"apple", 42);
    let mut it = WalIterator::new(enc);
    let e = it.next().expect("one record");
    assert_eq!(e.key.as_slice(), b"apple");
    assert!(e.value.is_none());
    assert_eq!(e.timestamp, 42);
    assert!(e.deleted);
    assert!(it.next().is_none());
}

#[test]
fn decoder_reads_records_in_write_order() {
    let mut bytes = encode_set(b"b", b"2", 1);
    bytes.extend_from_slice(&encode_delete(b"b", 2));
    bytes.extend_from_slice(&encode_set(b"a", b"1", 3));
    let entries = decode_segment(bytes);
    assert_eq!(entries.len(), 3);
    assert_eq!(entries[0].key.as_slice(), b"b");
    assert!(!entries[0].deleted);
    assert_eq!(entries[1].key.as_slice(), b"b");
    assert!(entries[1].deleted);
    assert_eq!(entries[2].key.as_slice(), b"a");
    assert_eq!(entries[2].timestamp, 3);
}

#[test]
fn truncated_tail_ends_stream_silently() {
    let whole = encode_set(b"k", b"v", 7);
    let mut bytes = whole.clone();
    let partial = encode_set(b"lost", b"record", 8);
    bytes.extend_from_slice(&partial[..partial.len() - 1]); // cut mid-record
    let entries = decode_segment(bytes);
    assert_eq!(entries.len(), 1);
    assert_eq!(entries[0].key.as_slice(), b"k");
}

#[test]
fn truncation_inside_every_field_is_tolerated() {
    let whole = encode_set(b"key", b"value", 11);
    for cut in 0..whole.len() {
        let entries = decode_segment(whole[..cut].to_vec());
        assert_eq!(entries.len(), 0, "cut at {cut}");
    }
}

#[test]
fn exhausted_iterator_stays_exhausted() {
    let mut it = WalIterator::new(encode_delete(b"x", 1));
    assert!(it.next().is_some());
    assert!(it.next().is_none());
    assert!(it.next().is_none());
}

#[test]
fn nonzero_flag_byte_reads_as_tombstone() {
    // hand-crafted: key length 1, flag 2, key "z", timestamp 3
    let mut bytes: Vec<u8> = Vec::new();
    bytes.extend_from_slice(&1u64.to_le_bytes());
    bytes.push(2);
    bytes.push(b'z');
    bytes.extend_from_slice(&3u128.to_le_bytes());
    let entries = decode_segment(bytes);
    assert_eq!(entries.len(), 1);
    assert!(entries[0].deleted);
    assert_eq!(entries[0].key.as_slice(), b"z");
}

#[test]
fn empty_segment_decodes_to_nothing() {
    assert_eq!(decode_segment(Vec::new()).len(), 0);
}
