use kvs::names::{wal_file_name, wal_file_number};

#[test]
fn segment_file_names() {
    assert_eq!(wal_file_name(0), "kvs_0.wal");
    assert_eq!(wal_file_name(7), "kvs_7.wal");
    assert_eq!(wal_file_name(1234567890), "kvs_1234567890.wal");
    assert_eq!(wal_file_name(u64::MAX), "kvs_18446744073709551615.wal");
}

#[test]
fn segment_file_numbers() {
    assert_eq!(wal_file_number("kvs_0.wal"), Some(0));
    assert_eq!(wal_file_number("kvs_10.wal"), Some(10));
    assert_eq!(wal_file_number("kvs_18446744073709551615.wal"), Some(u64::MAX));
}

#[test]
fn other_names_are_no_segment_files() {
    assert_eq!(wal_file_number("kvs_18446744073709551616.wal"), None);
    assert_eq!(wal_file_number("kvs_99999999999999999999999.wal"), None);
    assert_eq!(wal_file_number("kvs_01.wal"), None);
    assert_eq!(wal_file_number("kvs_+1.wal"), None);
    assert_eq!(wal_file_number("kvs_.wal"), None);
    assert_eq!(wal_file_number("kvs_1.wal.new"), None);
    assert_eq!(wal_file_number("kvs_1x.wal"), None);
    assert_eq!(wal_file_number("kvs.engine"), None);
    assert_eq!(wal_file_number("xkvs_1.wal"), None);
    assert_eq!(wal_file_number("kvs_1.wa"), None);
    assert_eq!(wal_file_number(""), None);
    assert_eq!(wal_file_number("kvs_\u{663}.wal"), None);
}

#[test]
fn number_of_name_of_number() {
    for n in [0u64, 1, 9, 10, 99, 100, 4096, u64::MAX - 1, u64::MAX] {
        assert_eq!(wal_file_number(&wal_file_name(n)), Some(n));
    }
}
