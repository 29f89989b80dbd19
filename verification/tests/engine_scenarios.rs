//! The engine facade's write-ahead behavior and the recovery scenarios:
//! rewrite, delete-then-restart, two segments, and a crash-truncated
//! segment.

use walkv::codec::{encode_delete, encode_set};
use walkv::engine::{Database, ReadOutcome};

#[test]
fn fresh_engine_reads_nothing() {
    let db = Database::new();
    assert!(matches!(db.read(b"a"), ReadOutcome::NotFound));
    assert!(db.log_bytes().is_empty());
}

#[test]
fn write_then_read_returns_value_and_timestamp() {
    let mut db = Database::new();
    db.set(b"a", b"1", 100);
    match db.read(b"a") {
        ReadOutcome::Found(e) => {
            assert_eq!(e.key(), b"a");
            assert_eq!(e.value(), b"1");
            assert_eq!(e.timestamp(), 100);
        }
        _ => panic!("expected a live record"),
    }
}

#[test]
fn rewrite_with_later_timestamp_wins() {
    // fresh engine, write "a"="1" then "a"="2" later: the read yields "2"
    // and the second timestamp, and exactly one record exists for "a".
    let mut db = Database::new();
    db.set(b"a", b"1", 100);
    db.set(b"a", b"2", 200);
    match db.read(b"a") {
        ReadOutcome::Found(e) => {
            assert_eq!(e.value(), b"2");
            assert_eq!(e.timestamp(), 200);
        }
        _ => panic!("expected a live record"),
    }
    assert_eq!(db.size(), 1 + 1 + 17);
}

#[test]
fn deleted_key_reads_as_deleted_not_absent() {
    let mut db = Database::new();
    db.set(b"a", b"1", 1);
    db.delete(b"a", 2);
    assert!(matches!(db.read(b"a"), ReadOutcome::Deleted));
    assert!(matches!(db.read(b"b"), ReadOutcome::NotFound));
}

#[test]
fn log_carries_every_mutation_in_order() {
    let mut db = Database::new();
    db.set(b"a", b"1", 1);
    db.delete(b"a", 2);
    let mut expected = encode_set(b"a", b"1", 1);
    expected.extend_from_slice(&encode_delete(b"a", 2));
    assert_eq!(db.log_bytes().as_slice(), expected.as_slice());
}

#[test]
fn restart_after_delete_keeps_tombstone() {
    // write "a"="1", delete "a", recover over the resulting segment: the
    // rebuilt record for "a" is deleted.
    let mut db = Database::new();
    db.set(b"a", b"1", 1);
    db.delete(b"a", 2);
    let segment = db.log_bytes().clone();
    let recovered = Database::recover(&vec![segment]);
    assert!(matches!(recovered.read(b"a"), ReadOutcome::Deleted));
}

#[test]
fn later_segment_overwrites_earlier() {
    // segment 1 holds "k"="old", segment 2 (later filename) "k"="new":
    // after recovery the read yields "new".
    let seg1 = encode_set(b"k", b"old", 1);
    let seg2 = encode_set(b"k", b"new", 2);
    let db = Database::recover(&vec![seg1, seg2]);
    match db.read(b"k") {
        ReadOutcome::Found(e) => assert_eq!(e.value(), b"new"),
        _ => panic!("expected a live record"),
    }
}

#[test]
fn recovery_tolerates_truncated_segment() {
    // a segment truncated after a partial record: recovery completes and
    // keeps every fully-written record before the truncation point.
    let mut seg = encode_set(b"a", b"1", 1);
    seg.extend_from_slice(&encode_set(b"b", b"2", 2));
    let partial = encode_set(b"c", b"3", 3);
    seg.extend_from_slice(&partial[..partial.len() - 5]);
    let db = Database::recover(&vec![seg]);
    match db.read(b"a") {
        ReadOutcome::Found(e) => assert_eq!(e.value(), b"1"),
        _ => panic!("expected a live record"),
    }
    match db.read(b"b") {
        ReadOutcome::Found(e) => assert_eq!(e.value(), b"2"),
        _ => panic!("expected a live record"),
    }
    assert!(matches!(db.read(b"c"), ReadOutcome::NotFound));
}

#[test]
fn recovery_is_replay_of_concatenated_segments() {
    // recovery equals applying every record of every segment, in order, to
    // a fresh engine
    let mut seg1 = encode_set(b"a", b"1", 1);
    seg1.extend_from_slice(&encode_set(b"b", b"2", 2));
    let mut seg2 = encode_delete(b"a", 3);
    seg2.extend_from_slice(&encode_set(b"c", b"3", 4));
    let db = Database::recover(&vec![seg1, seg2]);

    let mut replayed = Database::new();
    replayed.set(b"a", b"1", 1);
    replayed.set(b"b", b"2", 2);
    replayed.delete(b"a", 3);
    replayed.set(b"c", b"3", 4);

    for key in [b"a".as_slice(), b"b", b"c", b"d"] {
        match (db.read(key), replayed.read(key)) {
            (ReadOutcome::Found(x), ReadOutcome::Found(y)) => {
                assert_eq!(x.value(), y.value());
                assert_eq!(x.timestamp(), y.timestamp());
            }
            (ReadOutcome::Deleted, ReadOutcome::Deleted) => {}
            (ReadOutcome::NotFound, ReadOutcome::NotFound) => {}
            _ => panic!("recovered and replayed state disagree on a key"),
        }
    }
    assert_eq!(db.size(), replayed.size());
}

#[test]
fn consolidated_log_reserializes_whole_history() {
    let seg1 = encode_set(b"k", b"old", 1);
    let seg2 = encode_set(b"k", b"new", 2);
    let db = Database::recover(&vec![seg1.clone(), seg2.clone()]);
    let mut expected = seg1;
    expected.extend_from_slice(&seg2);
    assert_eq!(db.log_bytes().as_slice(), expected.as_slice());
}

#[test]
fn recovery_of_no_segments_is_a_fresh_engine() {
    let db = Database::recover(&Vec::new());
    assert!(matches!(db.read(b"a"), ReadOutcome::NotFound));
    assert!(db.log_bytes().is_empty());
    assert_eq!(db.size(), 0);
}
