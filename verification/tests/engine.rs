use kvs::engine::Marker;
use kvs::file_store::DiskOp;
use kvs::{EngineType, KvStore, KvsEngine, KvsError};
use std::collections::BTreeMap;
use std::path::PathBuf;

fn total_bytes(store: &KvStore) -> usize {
    store.files().iter().map(|file| file.1.len()).sum()
}

fn mirror(disk: &mut BTreeMap<u64, Vec<u8>>, ops: Vec<DiskOp>) {
    for op in ops {
        match op {
            DiskOp::Create { file_num } => {
                disk.insert(file_num, Vec::new());
            }
            DiskOp::Append { file_num, data } => {
                disk.get_mut(&file_num).unwrap().extend_from_slice(&data);
            }
            DiskOp::Replace { file_num, data } => {
                disk.insert(file_num, data);
            }
            DiskOp::Remove { file_num } => {
                disk.remove(&file_num);
            }
            DiskOp::Truncate { file_num, len } => {
                disk.get_mut(&file_num).unwrap().truncate(len as usize);
            }
        }
    }
}

fn listing(disk: &BTreeMap<u64, Vec<u8>>) -> Vec<(String, Vec<u8>)> {
    disk.iter().map(|(num, data)| (format!("kvs_{}.wal", num), data.clone())).collect()
}

#[test]
fn test_build_engine() {
    let engine_type = EngineType::Kvs(PathBuf::from("working-directory"));
    assert!(matches!(engine_type.check(None), Ok(Marker::Write(name)) if name == "kvs"));
    let engine = KvStore::open(Vec::new());
    assert!(engine.is_ok());
}

#[test]
fn overwrite_gives_the_later_value() {
    let mut store = KvStore::new();
    store.set("k".to_string(), "1".to_string()).unwrap();
    store.set("k".to_string(), "2".to_string()).unwrap();
    assert_eq!(store.get("k".to_string()).unwrap(), Some("2".to_string()));
}

#[test]
fn a_value_is_read_until_the_key_changes() {
    let mut store = KvStore::new();
    store.set("a".to_string(), "A".to_string()).unwrap();
    store.set("b".to_string(), "B".to_string()).unwrap();
    store.remove("b".to_string()).unwrap();
    store.set("c".to_string(), "C".to_string()).unwrap();
    assert_eq!(store.get("a".to_string()).unwrap(), Some("A".to_string()));
    assert_eq!(store.get("a".to_string()).unwrap(), Some("A".to_string()));
}

#[test]
fn remove_of_a_missing_key_fails() {
    let mut store = KvStore::new();
    assert!(matches!(store.remove("absent".to_string()), Err(KvsError::KeyNotFound)));
    assert!(store.take_journal().len() == 1);
}

#[test]
fn a_removed_key_has_no_value() {
    let mut store = KvStore::new();
    store.set("k".to_string(), "v".to_string()).unwrap();
    store.remove("k".to_string()).unwrap();
    assert_eq!(store.get("k".to_string()).unwrap(), None);
    store.set("other".to_string(), "x".to_string()).unwrap();
    assert_eq!(store.get("k".to_string()).unwrap(), None);
    assert!(matches!(store.remove("k".to_string()), Err(KvsError::KeyNotFound)));
    store.set("k".to_string(), "again".to_string()).unwrap();
    assert_eq!(store.get("k".to_string()).unwrap(), Some("again".to_string()));
}

#[test]
fn values_survive_reopening() {
    let mut store = KvStore::new();
    store.set("a".to_string(), "A".to_string()).unwrap();
    store.set("b".to_string(), "B".to_string()).unwrap();
    let files = store.files();
    drop(store);
    let mut store = KvStore::open(files).unwrap();
    assert_eq!(store.get("a".to_string()).unwrap(), Some("A".to_string()));
    assert_eq!(store.get("b".to_string()).unwrap(), Some("B".to_string()));
    assert_eq!(store.get("c".to_string()).unwrap(), None);
}

#[test]
fn removals_survive_reopening() {
    let mut store = KvStore::open_with(Vec::new(), 64, 5).unwrap();
    for i in 0..40 {
        store.set(format!("key{}", i % 7), format!("value{}", i)).unwrap();
    }
    store.remove("key3".to_string()).unwrap();
    let files = store.files();
    let mut again = KvStore::open_with(files, 64, 5).unwrap();
    for k in 0..7 {
        let key = format!("key{}", k);
        assert_eq!(again.get(key.clone()).unwrap(), store.get(key).unwrap());
    }
    assert_eq!(again.get("key3".to_string()).unwrap(), None);
    assert_eq!(again.get("key4".to_string()).unwrap(), Some("value39".to_string()));
}

#[test]
fn the_journal_leads_the_files_to_the_segments() {
    let mut disk: BTreeMap<u64, Vec<u8>> = BTreeMap::new();
    let mut store = KvStore::open_with(listing(&disk), 100, 7).unwrap();
    mirror(&mut disk, store.take_journal());
    assert_eq!(listing(&disk), store.files());
    for i in 0..60 {
        store.set(format!("key{}", i % 5), format!("value{}", i)).unwrap();
        if i % 4 == 3 {
            store.remove(format!("key{}", i % 5)).unwrap();
        }
        if i % 3 == 0 {
            mirror(&mut disk, store.take_journal());
            assert_eq!(listing(&disk), store.files());
        }
    }
    mirror(&mut disk, store.take_journal());
    assert_eq!(listing(&disk), store.files());
    assert!(store.take_journal().is_empty());

    let mut again = KvStore::open_with(listing(&disk), 100, 7).unwrap();
    for k in 0..5 {
        let key = format!("key{}", k);
        assert_eq!(again.get(key.clone()).unwrap(), store.get(key).unwrap());
    }
}

#[test]
fn compaction_shrinks_the_log() {
    let mut store = KvStore::new();
    for i in 0..10000 {
        store.set("k".to_string(), format!("{}", i)).unwrap();
    }
    assert_eq!(store.get("k".to_string()).unwrap(), Some("9999".to_string()));
    let record = b"{\"Set\":{\"key\":\"k\",\"value\":\"9999\"}}".len();
    assert!(total_bytes(&store) < 8192 + record);
    assert_eq!(store.files().len(), 1);

    let mut again = KvStore::open(store.files()).unwrap();
    assert_eq!(again.get("k".to_string()).unwrap(), Some("9999".to_string()));
}

#[test]
fn compaction_keeps_one_record_for_each_live_key() {
    let mut store = KvStore::open_with(Vec::new(), 1, 4).unwrap();
    store.set("a".to_string(), "1".to_string()).unwrap();
    store.set("b".to_string(), "2".to_string()).unwrap();
    store.set("a".to_string(), "3".to_string()).unwrap();
    store.set("c".to_string(), "4".to_string()).unwrap();
    let files = store.files();
    assert_eq!(files.len(), 3);
    assert_eq!(files[0].0, "kvs_1.wal");
    assert_eq!(files[0].1, b"{\"Set\":{\"key\":\"b\",\"value\":\"2\"}}".to_vec());
    assert_eq!(files[1].0, "kvs_2.wal");
    assert_eq!(files[1].1, b"{\"Set\":{\"key\":\"a\",\"value\":\"3\"}}".to_vec());
    assert_eq!(files[2].0, "kvs_3.wal");
    assert_eq!(files[2].1, b"{\"Set\":{\"key\":\"c\",\"value\":\"4\"}}".to_vec());
    assert_eq!(store.get("a".to_string()).unwrap(), Some("3".to_string()));
    assert_eq!(store.get("b".to_string()).unwrap(), Some("2".to_string()));
}

#[test]
fn compaction_drops_deletions() {
    let mut store = KvStore::open_with(Vec::new(), 1, 3).unwrap();
    store.set("a".to_string(), "1".to_string()).unwrap();
    store.remove("a".to_string()).unwrap();
    store.set("b".to_string(), "2".to_string()).unwrap();
    let files = store.files();
    assert_eq!(files.len(), 1);
    assert_eq!(files[0].0, "kvs_2.wal");
    assert_eq!(store.get("a".to_string()).unwrap(), None);
}

#[test]
fn a_segment_takes_no_record_beyond_its_size() {
    let mut store = KvStore::open_with(Vec::new(), 100, 1000000).unwrap();
    let record = b"{\"Set\":{\"key\":\"key00\",\"value\":\"value00\"}}".len();
    for i in 0..50 {
        store.set(format!("key{:02}", i), format!("value{:02}", i)).unwrap();
    }
    let files = store.files();
    assert!(files.len() > 1);
    for file in files.iter() {
        assert!(file.1.len() < 100 + record);
    }
    assert_eq!(files[0].1.len(), 3 * record);
}

#[test]
fn opening_compacts_the_log() {
    let mut log = Vec::new();
    log.extend_from_slice(b"{\"Set\":{\"key\":\"a\",\"value\":\"1\"}}");
    log.extend_from_slice(b"{\"Set\":{\"key\":\"a\",\"value\":\"2\"}}");
    log.extend_from_slice(b"{\"Del\":{\"key\":\"b\"}}");
    let files = vec![
        ("kvs_3.wal".to_string(), b"{\"Set\":{\"key\":\"c\",\"value\":\"3\"}}".to_vec()),
        ("kvs.engine".to_string(), b"kvs".to_vec()),
        ("kvs_1.wal".to_string(), log),
    ];
    let mut store = KvStore::open(files).unwrap();
    assert_eq!(store.get("a".to_string()).unwrap(), Some("2".to_string()));
    assert_eq!(store.get("b".to_string()).unwrap(), None);
    assert_eq!(store.get("c".to_string()).unwrap(), Some("3".to_string()));
    let files = store.files();
    assert_eq!(files.len(), 2);
    assert_eq!(files[0].1, b"{\"Set\":{\"key\":\"a\",\"value\":\"2\"}}".to_vec());
    let ops = store.take_journal();
    assert_eq!(ops.len(), 1);
    assert!(matches!(&ops[0], DiskOp::Replace { file_num: 1, .. }));
}

#[test]
fn a_torn_tail_of_the_last_segment_is_cut_off() {
    let mut log = b"{\"Set\":{\"key\":\"a\",\"value\":\"1\"}}".to_vec();
    let good = log.len();
    log.extend_from_slice(b"{\"Set\":{\"key\":\"b\",\"val");
    let mut store = KvStore::open(vec![("kvs_0.wal".to_string(), log)]).unwrap();
    assert_eq!(store.get("a".to_string()).unwrap(), Some("1".to_string()));
    assert_eq!(store.get("b".to_string()).unwrap(), None);
    let ops = store.take_journal();
    assert_eq!(ops.len(), 1);
    assert!(matches!(&ops[0], DiskOp::Truncate { file_num: 0, len } if *len == good as u64));
    store.set("b".to_string(), "2".to_string()).unwrap();
    let mut again = KvStore::open(store.files()).unwrap();
    assert_eq!(again.get("b".to_string()).unwrap(), Some("2".to_string()));
}

#[test]
fn a_torn_tail_of_an_earlier_segment_is_an_error() {
    let files = vec![
        ("kvs_0.wal".to_string(), b"{\"Set\":{\"key\":\"a\",\"val".to_vec()),
        ("kvs_1.wal".to_string(), b"{\"Set\":{\"key\":\"a\",\"value\":\"1\"}}".to_vec()),
    ];
    assert!(matches!(KvStore::open(files), Err(KvsError::Decode)));
}

#[test]
fn malformed_bytes_are_an_error() {
    let files = vec![("kvs_0.wal".to_string(), b"{\"Set\":{\"key\":\"a\"}}garbage".to_vec())];
    assert!(matches!(KvStore::open(files), Err(KvsError::Decode)));
    let files = vec![("kvs_0.wal".to_string(), b"{\"Del\":{\"key\":\"a\"}}  ".to_vec())];
    assert!(matches!(KvStore::open(files), Err(KvsError::Decode)));
}

#[test]
fn a_record_in_another_spelling_is_an_error() {
    let files = vec![(
        "kvs_0.wal".to_string(),
        b"{\"Set\":{\"key\":\"\\u0061\",\"value\":\"1\"}}".to_vec(),
    )];
    assert!(matches!(KvStore::open(files), Err(KvsError::Decode)));
}

#[test]
fn the_segment_with_the_last_number_goes_on_taking_records() {
    let files = vec![("kvs_18446744073709551615.wal".to_string(), Vec::new())];
    let mut store = KvStore::open_with(files, 0, 1000).unwrap();
    store.set("k".to_string(), "v".to_string()).unwrap();
    store.set("k".to_string(), "w".to_string()).unwrap();
    assert_eq!(store.get("k".to_string()).unwrap(), Some("w".to_string()));
    let files = store.files();
    assert_eq!(files.len(), 1);
    assert_eq!(files[0].0, "kvs_18446744073709551615.wal");
}

#[test]
fn the_store_serves_as_an_engine() {
    fn exercise<K: KvsEngine>(engine: &mut K) {
        engine.set("k".to_string(), "v".to_string()).unwrap();
        assert_eq!(engine.get("k".to_string()).unwrap(), Some("v".to_string()));
        engine.remove("k".to_string()).unwrap();
        assert_eq!(engine.get("k".to_string()).unwrap(), None);
    }
    let mut store = KvStore::new();
    exercise(&mut store);
}

#[test]
fn the_marker_file_names_one_engine() {
    let kvs = EngineType::Kvs(PathBuf::from("dir"));
    let sled = EngineType::Sled(PathBuf::from("dir"));
    let written = match kvs.check(None).unwrap() {
        Marker::Write(name) => name,
        Marker::Keep => panic!("a new directory gets a marker"),
    };
    assert_eq!(written, "kvs");
    assert!(matches!(kvs.check(Some(written.clone())), Ok(Marker::Keep)));
    assert!(matches!(sled.check(Some(written)), Err(KvsError::InvalidStorageEngineType)));
    assert!(matches!(sled.check(Some("sled".to_string())), Ok(Marker::Keep)));
    assert!(matches!(kvs.check(Some("kvs\n".to_string())), Err(KvsError::InvalidStorageEngineType)));
}

#[test]
fn engines_by_name() {
    let engine = EngineType::from_name("kvs", PathBuf::from("a/b")).unwrap();
    assert!(matches!(&engine, EngineType::Kvs(path) if path == &PathBuf::from("a/b")));
    assert_eq!(engine.get_name(), "kvs");
    assert_eq!(engine.get_path().unwrap(), PathBuf::from("a/b"));
    let engine = EngineType::from_name("sled", PathBuf::from("c")).unwrap();
    assert!(matches!(&engine, EngineType::Sled(_)));
    assert_eq!(engine.get_name(), "sled");
    assert!(matches!(
        EngineType::from_name("rocks", PathBuf::from("c")),
        Err(KvsError::InvalidStorageEngineType)
    ));
}

#[test]
fn errors_have_their_texts() {
    assert_eq!(KvsError::KeyNotFound.message(), "Key not found");
    assert_eq!(KvsError::Io("disk full".to_string()).message(), "disk full");
    assert_eq!(KvsError::FileNotFound.message(), "File not found");
    assert_eq!(KvsError::SerdeJson("bad".to_string()).message(), "bad");
    assert_eq!(KvsError::InternalError.message(), "Internal error");
    assert_eq!(KvsError::CommandLineArgumentError.message(), "Command line argument error");
    assert_eq!(KvsError::InvalidServerResponse.message(), "Invalid server response");
    assert_eq!(KvsError::InvalidRequest.message(), "Invalid request");
    assert_eq!(KvsError::InvalidStorageEngineType.message(), "Invalid storage engine type");
    assert_eq!(KvsError::Decode.message(), "Malformed record");
}

#[test]
fn compaction_tells_the_files_what_to_do() {
    let mut store = KvStore::open_with(Vec::new(), 1, 3).unwrap();
    store.take_journal();
    store.set("a".to_string(), "1".to_string()).unwrap();
    store.set("b".to_string(), "2".to_string()).unwrap();
    store.take_journal();
    store.remove("a".to_string()).unwrap();
    let ops = store.take_journal();
    assert_eq!(ops.len(), 4);
    assert!(matches!(&ops[0], DiskOp::Create { file_num: 2 }));
    assert!(matches!(&ops[1], DiskOp::Append { file_num: 2, .. }));
    assert!(matches!(&ops[2], DiskOp::Remove { file_num: 0 }));
    assert!(matches!(
        &ops[3],
        DiskOp::Replace { file_num: 1, data } if data == b"{\"Set\":{\"key\":\"b\",\"value\":\"2\"}}"
    ));
    let files = store.files();
    assert_eq!(files.len(), 2);
    assert_eq!(files[1].1, b"{\"Del\":{\"key\":\"a\"}}".to_vec());
}

#[test]
fn the_log_is_compacted_after_the_given_number_of_changes() {
    let mut store = KvStore::open_with(Vec::new(), 1, 5).unwrap();
    for round in 0..3 {
        for i in 0..4 {
            store.set("k".to_string(), format!("{}", i)).unwrap();
            assert_eq!(store.files().len(), i + 2 - if round == 0 { 1 } else { 0 });
        }
        store.set("k".to_string(), "last".to_string()).unwrap();
        assert_eq!(store.files().len(), 1);
    }
}

#[test]
fn compaction_on_demand() {
    let mut store = KvStore::open_with(Vec::new(), 1, 1000).unwrap();
    for i in 0..10 {
        store.set("k".to_string(), format!("{}", i)).unwrap();
    }
    assert_eq!(store.files().len(), 10);
    store.take_journal();
    store.compact_now();
    assert_eq!(store.files().len(), 1);
    assert_eq!(store.get("k".to_string()).unwrap(), Some("9".to_string()));
    let ops = store.take_journal();
    assert_eq!(ops.len(), 9);
    assert!(ops.iter().all(|op| matches!(op, DiskOp::Remove { .. })));
    store.compact_now();
    assert!(store.take_journal().is_empty());
}
