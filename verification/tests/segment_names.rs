//! The filename convention and the extension check of the directory scan.

use walkv::engine::StorageError;
use walkv::names::{is_segment_name, segment_file_name, sort_names};

#[test]
fn file_name_is_decimal_timestamp_dot_wal() {
    assert_eq!(segment_file_name(0).as_slice(), b"0.wal");
    assert_eq!(segment_file_name(7).as_slice(), b"7.wal");
    assert_eq!(
        segment_file_name(1700000000000001u128).as_slice(),
        b"1700000000000001.wal"
    );
    assert_eq!(
        segment_file_name(u128::MAX).as_slice(),
        b"340282366920938463463374607431768211455.wal"
    );
}

#[test]
fn generated_names_are_recognized() {
    let name = segment_file_name(1234567);
    assert_eq!(is_segment_name(&name), Ok(true));
}

#[test]
fn chronological_order_is_lexicographic_for_equal_width() {
    let a = segment_file_name(1700000000000001u128);
    let b = segment_file_name(1700000000000002u128);
    assert!(a < b);
}

#[test]
fn other_extensions_are_not_segments() {
    assert_eq!(is_segment_name(b"123.tmp"), Ok(false));
    assert_eq!(is_segment_name(b"123.wall"), Ok(false));
    assert_eq!(is_segment_name(b"123.wa"), Ok(false));
    assert_eq!(is_segment_name(b"123."), Ok(false));
}

#[test]
fn missing_extension_is_a_scan_failure() {
    assert_eq!(
        is_segment_name(b"segment"),
        Err(StorageError::DirectoryScanFailed)
    );
    assert_eq!(is_segment_name(b""), Err(StorageError::DirectoryScanFailed));
    // a leading dot alone names a hidden file, not an extension
    assert_eq!(
        is_segment_name(b".wal"),
        Err(StorageError::DirectoryScanFailed)
    );
}

#[test]
fn names_sort_into_lexicographic_order() {
    let names = vec![
        b"30.wal".to_vec(),
        b"10.wal".to_vec(),
        b"20.wal".to_vec(),
        b"10.wal".to_vec(),
    ];
    let sorted = sort_names(names);
    assert_eq!(
        sorted,
        vec![
            b"10.wal".to_vec(),
            b"10.wal".to_vec(),
            b"20.wal".to_vec(),
            b"30.wal".to_vec(),
        ]
    );
}

#[test]
fn sorting_nothing_yields_nothing() {
    assert!(sort_names(Vec::new()).is_empty());
}

#[test]
fn prefix_sorts_before_extension_of_it() {
    let sorted = sort_names(vec![b"ab".to_vec(), b"a".to_vec(), b"".to_vec()]);
    assert_eq!(sorted, vec![b"".to_vec(), b"a".to_vec(), b"ab".to_vec()]);
}

#[test]
fn extension_is_what_follows_the_last_dot() {
    assert_eq!(is_segment_name(b"a.b.wal"), Ok(true));
    assert_eq!(is_segment_name(b"a.wal.tmp"), Ok(false));
}
