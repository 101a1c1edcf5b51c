use kvs::file_store::{DiskOp, FileStore};
use kvs::log::CommandPosition;
use kvs::record::encode_command;
use kvs::wal::{Segment, Tail};
use kvs::{Command, KvsError};

#[test]
fn a_segment_takes_records_and_gives_them_back() {
    let mut seg = Segment::new(4);
    assert_eq!(seg.num(), 4);
    assert_eq!(seg.pos(), 0);
    assert!(!seg.is_full(1));
    assert!(seg.is_full(0));

    let first = encode_command(&Command::set("a".to_string(), "1".to_string())).unwrap();
    let second = encode_command(&Command::del("a".to_string())).unwrap();
    let at = seg.append(&first);
    assert_eq!(at, CommandPosition { file_num: 4, pos: 0, len: first.len() as u64 });
    let at = seg.append(&second);
    assert_eq!(
        at,
        CommandPosition { file_num: 4, pos: first.len() as u64, len: second.len() as u64 }
    );
    assert_eq!(seg.pos(), (first.len() + second.len()) as u64);
    assert!(seg.is_full(seg.pos()));
    assert!(!seg.is_full(seg.pos() + 1));

    assert_eq!(seg.read(at.pos, at.len).unwrap(), &second[..]);
    assert!(seg.read(at.pos, at.len + 1).is_none());
    assert!(seg.read(u64::MAX, 2).is_none());
    assert_eq!(seg.read(seg.pos(), 0).unwrap().len(), 0);

    let scan = seg.scan();
    assert_eq!(scan.records.len(), 2);
    assert_eq!(scan.end, seg.pos());
    assert_eq!(scan.tail, Tail::Clean);
    assert!(matches!(&scan.records[0].0, Command::Put { key, value } if key == "a" && value == "1"));
    assert!(matches!(&scan.records[1].0, Command::Del { key } if key == "a"));
    assert_eq!(scan.records[1].1, at);
}

#[test]
fn scanning_stops_at_bytes_that_are_no_record() {
    let record = encode_command(&Command::set("a".to_string(), "1".to_string())).unwrap();
    let mut bytes = record.clone();
    bytes.extend_from_slice(&record[..10]);
    let scan = Segment::from_bytes(0, bytes).scan();
    assert_eq!(scan.records.len(), 1);
    assert_eq!(scan.end, record.len() as u64);
    assert_eq!(scan.tail, Tail::Torn);

    let mut bytes = record.clone();
    bytes.extend_from_slice(b"{\"Put\":");
    let scan = Segment::from_bytes(0, bytes).scan();
    assert_eq!(scan.end, record.len() as u64);
    assert_eq!(scan.tail, Tail::Malformed);
}

#[test]
fn a_new_directory_gets_the_first_segment() {
    let mut store = FileStore::new(100);
    assert_eq!(store.segment_count(), 1);
    assert_eq!(store.current_file_num(), 0);
    let ops = store.take_journal();
    assert_eq!(ops.len(), 1);
    assert!(matches!(ops[0], DiskOp::Create { file_num: 0 }));
    assert!(store.take_journal().is_empty());
    assert_eq!(store.files(), vec![("kvs_0.wal".to_string(), Vec::new())]);
}

#[test]
fn writes_go_to_the_last_segment() {
    let mut store = FileStore::new(40);
    store.take_journal();
    let cmd = Command::set("key".to_string(), "value".to_string());
    let record = encode_command(&cmd).unwrap();
    let len = record.len() as u64;

    let at = store.write_command(cmd.clone()).unwrap();
    assert_eq!(at, CommandPosition { file_num: 0, pos: 0, len });
    let at = store.write_command(cmd.clone()).unwrap();
    assert_eq!(at, CommandPosition { file_num: 0, pos: len, len });
    let at = store.write_command(cmd.clone()).unwrap();
    assert_eq!(at, CommandPosition { file_num: 1, pos: 0, len });
    assert_eq!(store.current_file_num(), 1);
    assert_eq!(store.segment_count(), 2);
    assert_eq!(store.segment(0).pos(), 2 * len);

    let ops = store.take_journal();
    assert_eq!(ops.len(), 4);
    assert!(matches!(&ops[0], DiskOp::Append { file_num: 0, data } if data == &record));
    assert!(matches!(&ops[1], DiskOp::Append { file_num: 0, data } if data == &record));
    assert!(matches!(&ops[2], DiskOp::Create { file_num: 1 }));
    assert!(matches!(&ops[3], DiskOp::Append { file_num: 1, data } if data == &record));

    let read = store.read_command_position(&at).unwrap();
    assert!(matches!(read, Command::Put { key, value } if key == "key" && value == "value"));
}

#[test]
fn reading_where_no_record_lies_fails() {
    let mut store = FileStore::new(100);
    let at = store.write_command(Command::del("k".to_string())).unwrap();
    assert!(matches!(
        store.read_command_position(&CommandPosition { file_num: 9, ..at }),
        Err(KvsError::KeyNotFound)
    ));
    assert!(matches!(
        store.read_command_position(&CommandPosition { len: at.len - 1, ..at }),
        Err(KvsError::Decode)
    ));
    assert!(matches!(
        store.read_command_position(&CommandPosition { len: at.len + 1, ..at }),
        Err(KvsError::Decode)
    ));
    assert!(matches!(
        store.read_command_position(&CommandPosition { pos: 1, len: at.len - 1, ..at }),
        Err(KvsError::Decode)
    ));
}

#[test]
fn segments_are_found_by_their_names() {
    let files = vec![
        ("kvs_12.wal".to_string(), b"c".to_vec()),
        ("kvs_2.wal".to_string(), b"a".to_vec()),
        ("notes.txt".to_string(), b"x".to_vec()),
        ("kvs_02.wal".to_string(), b"y".to_vec()),
        ("kvs_3.wal".to_string(), b"b".to_vec()),
        ("kvs_3.wal.new".to_string(), b"z".to_vec()),
    ];
    let mut store = FileStore::open(files).unwrap();
    assert_eq!(store.segment_count(), 3);
    assert_eq!(store.current_file_num(), 12);
    assert_eq!(
        store.files(),
        vec![
            ("kvs_2.wal".to_string(), b"a".to_vec()),
            ("kvs_3.wal".to_string(), b"b".to_vec()),
            ("kvs_12.wal".to_string(), b"c".to_vec()),
        ]
    );
    assert!(store.take_journal().is_empty());
}

#[test]
fn two_files_with_one_number_are_refused() {
    let files = vec![
        ("kvs_1.wal".to_string(), b"a".to_vec()),
        ("kvs_1.wal".to_string(), b"b".to_vec()),
    ];
    assert!(matches!(FileStore::open(files), Err(KvsError::InternalError)));
}
