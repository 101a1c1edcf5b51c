use kvs::record::{decode_at, decode_command, encode_command, Decoded};
use kvs::Command;

#[test]
fn put_record_has_the_json_form() {
    let cmd = Command::set("k".to_string(), "v".to_string());
    let bytes = encode_command(&cmd).unwrap();
    assert_eq!(bytes, b"{\"Set\":{\"key\":\"k\",\"value\":\"v\"}}".to_vec());
}

#[test]
fn del_record_has_the_json_form() {
    let cmd = Command::del("k".to_string());
    let bytes = encode_command(&cmd).unwrap();
    assert_eq!(bytes, b"{\"Del\":{\"key\":\"k\"}}".to_vec());
}

#[test]
fn record_reads_back() {
    let cmd = Command::set("a \"quoted\" key\\".to_string(), "line\nbreak \u{1F600}".to_string());
    let bytes = encode_command(&cmd).unwrap();
    match decode_command(&bytes).unwrap() {
        Command::Put { key, value } => {
            assert_eq!(key, "a \"quoted\" key\\");
            assert_eq!(value, "line\nbreak \u{1F600}");
        }
        other => panic!("unexpected command {:?}", other),
    }
}

#[test]
fn truncated_and_malformed_records_are_told_apart() {
    let bytes = b"{\"Set\":{\"key\":\"k\",\"val".to_vec();
    assert!(matches!(decode_at(&bytes, 0), Decoded::Truncated));
    let bytes = b"{\"Set\":{\"kex\":\"k\"}}".to_vec();
    assert!(matches!(decode_at(&bytes, 0), Decoded::Malformed));
    let bytes = b"".to_vec();
    assert!(matches!(decode_at(&bytes, 0), Decoded::Truncated));
    assert!(matches!(decode_at(&bytes, 1), Decoded::Truncated));
}
