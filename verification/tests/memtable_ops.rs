//! The sorted record set's observable behavior: latest record per key,
//! replace-in-place on rewrite, tombstones retained, exact size accounting.

use walkv::memtable::MemTable;

#[test]
fn empty_table_finds_nothing() {
    let mem = MemTable::new();
    assert!(mem.get(b"a").is_none());
    assert_eq!(mem.size(), 0);
}

#[test]
fn set_then_get_returns_value_and_timestamp() {
    let mut mem = MemTable::new();
    mem.set(b"a", b"1", 7);
    let e = mem.get(b"a").expect("record present");
    assert_eq!(e.key.as_slice(), b"a");
    assert_eq!(e.value.as_ref().expect("value present").as_slice(), b"1");
    assert_eq!(e.timestamp, 7);
    assert!(!e.deleted);
}

#[test]
fn rewrite_replaces_in_place() {
    let mut mem = MemTable::new();
    mem.set(b"a", b"1", 1);
    mem.set(b"a", b"2", 2);
    let e = mem.get(b"a").expect("record present");
    assert_eq!(e.value.as_ref().expect("value present").as_slice(), b"2");
    assert_eq!(e.timestamp, 2);
    // exactly one record for the key: the size counter shows one footprint
    assert_eq!(mem.size(), 1 + 1 + 17);
}

#[test]
fn delete_leaves_visible_tombstone() {
    let mut mem = MemTable::new();
    mem.set(b"a", b"1", 1);
    mem.delete(b"a", 2);
    let e = mem.get(b"a").expect("tombstone present");
    assert!(e.deleted);
    assert!(e.value.is_none());
    assert_eq!(e.timestamp, 2);
}

#[test]
fn delete_of_unseen_key_inserts_tombstone() {
    let mut mem = MemTable::new();
    mem.delete(b"ghost", 3);
    let e = mem.get(b"ghost").expect("tombstone present");
    assert!(e.deleted);
    assert_eq!(mem.size(), 5 + 17);
}

#[test]
fn size_counter_tracks_value_deltas() {
    let mut mem = MemTable::new();
    mem.set(b"a", b"1", 1);
    assert_eq!(mem.size(), 1 + 1 + 17);
    mem.set(b"a", b"22", 2);
    assert_eq!(mem.size(), 1 + 2 + 17);
    mem.set(b"a", b"", 3);
    assert_eq!(mem.size(), 1 + 0 + 17);
    mem.delete(b"a", 4);
    assert_eq!(mem.size(), 1 + 17);
    mem.set(b"a", b"333", 5);
    assert_eq!(mem.size(), 1 + 3 + 17);
    mem.set(b"b", b"4444", 6);
    assert_eq!(mem.size(), (1 + 3 + 17) + (1 + 4 + 17));
}

#[test]
fn distinct_keys_are_independent() {
    let mut mem = MemTable::new();
    mem.set(b"b", b"2", 1);
    mem.set(b"a", b"1", 2);
    mem.set(b"c", b"3", 3);
    mem.delete(b"b", 4);
    assert_eq!(
        mem.get(b"a").unwrap().value.as_ref().unwrap().as_slice(),
        b"1"
    );
    assert!(mem.get(b"b").unwrap().deleted);
    assert_eq!(
        mem.get(b"c").unwrap().value.as_ref().unwrap().as_slice(),
        b"3"
    );
    assert!(mem.get(b"d").is_none());
}

#[test]
fn empty_key_and_empty_value_are_stored() {
    let mut mem = MemTable::new();
    mem.set(b"", b"", 1);
    let e = mem.get(b"").expect("record present");
    assert_eq!(e.value.as_ref().unwrap().as_slice(), b"");
    assert_eq!(mem.size(), 17);
}
