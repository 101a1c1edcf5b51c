use kvs::client::{
    get_request, get_response, remove_request, remove_response, response_text, set_request,
    set_response, trim,
};
use kvs::codec::{decode, encode};
use kvs::server::{parse_request, Request};
use kvs::file_store::DiskOp;
use kvs::{KvStore, KvsError, KvsServer};

fn server() -> KvsServer<KvStore> {
    KvsServer::new("127.0.0.1:4000".to_string(), KvStore::new()).unwrap()
}

#[test]
fn a_round_trip_over_the_protocol() {
    let mut server = server();
    assert_eq!(server.addr(), "127.0.0.1:4000");

    let line = encode(set_request("foo".to_string(), "bar".to_string())).unwrap();
    let reply = server.respond(line);
    assert_eq!(reply, "OK\n");
    assert!(set_response(response_text(&reply)).is_ok());

    let reply = server.respond(encode(get_request("foo".to_string())).unwrap());
    assert_eq!(reply, "bar\n");
    assert_eq!(get_response(response_text(&reply)).unwrap(), Some("bar".to_string()));

    let reply = server.respond(encode(remove_request("foo".to_string())).unwrap());
    assert_eq!(reply, "OK\n");
    assert!(remove_response(response_text(&reply)).is_ok());

    let reply = server.respond(encode(get_request("foo".to_string())).unwrap());
    assert_eq!(reply, "Key not found\n");
    assert_eq!(get_response(response_text(&reply)).unwrap(), None);

    let reply = server.respond(encode(remove_request("foo".to_string())).unwrap());
    assert_eq!(reply, "Key not found\n");
    assert!(matches!(remove_response(response_text(&reply)), Err(KvsError::KeyNotFound)));
}

#[test]
fn lines_that_are_no_requests() {
    let mut server = server();
    assert_eq!(server.respond("\n".to_string()), "Invalid request\n");
    assert_eq!(server.respond("get\n".to_string()), "Invalid request\n");
    assert_eq!(server.respond("set key\n".to_string()), "Invalid request\n");
    assert_eq!(server.respond("put key value\n".to_string()), "Invalid request\n");
    assert_eq!(server.respond("GET key\n".to_string()), "Invalid request\n");
    assert_eq!(server.respond("set key value\n".to_string()), "OK\n");
    assert_eq!(server.respond("get   key\n".to_string()), "value\n");
    assert_eq!(server.respond("get key and more\n".to_string()), "value\n");
}

#[test]
fn requests_from_tokens() {
    let msg = decode("set a b".to_string()).unwrap();
    assert!(matches!(parse_request(&msg), Request::Put { key, value } if key == "a" && value == "b"));
    let msg = decode("get a".to_string()).unwrap();
    assert!(matches!(parse_request(&msg), Request::Get { key } if key == "a"));
    let msg = decode("rm a".to_string()).unwrap();
    assert!(matches!(parse_request(&msg), Request::Remove { key } if key == "a"));
    let msg = decode("rm".to_string()).unwrap();
    assert!(matches!(parse_request(&msg), Request::Invalid));
}

#[test]
fn requests_of_the_client() {
    assert_eq!(set_request("k".to_string(), "v".to_string()), vec!["set", "k", "v"]);
    assert_eq!(get_request("k".to_string()), vec!["get", "k"]);
    assert_eq!(remove_request("k".to_string()), vec!["rm", "k"]);
}

#[test]
fn responses_as_the_client_reads_them() {
    assert!(set_response(Some("OK".to_string())).is_ok());
    assert!(matches!(
        set_response(Some("Internal error".to_string())),
        Err(KvsError::InvalidServerResponse)
    ));
    assert!(matches!(set_response(None), Err(KvsError::InvalidServerResponse)));
    assert_eq!(get_response(Some("value".to_string())).unwrap(), Some("value".to_string()));
    assert_eq!(get_response(Some("Key not found".to_string())).unwrap(), None);
    assert_eq!(get_response(None).unwrap(), None);
    assert!(remove_response(Some("OK".to_string())).is_ok());
    assert!(matches!(
        remove_response(Some("Key not found".to_string())),
        Err(KvsError::KeyNotFound)
    ));
    assert!(matches!(remove_response(None), Err(KvsError::InvalidServerResponse)));
}

#[test]
fn white_space_around_a_response_is_dropped() {
    assert_eq!(response_text(""), None);
    assert_eq!(response_text("\n"), Some("".to_string()));
    assert_eq!(response_text("OK\n"), Some("OK".to_string()));
    assert_eq!(response_text("  a b \r\n"), Some("a b".to_string()));
    for text in ["", " ", "x", " x", "x ", "\t x y\u{a0}\n", "\u{3000}\u{2003}z\u{85}", "a\u{200b}"] {
        assert_eq!(trim(text), text.trim());
    }
}

#[test]
fn every_reply_is_one_line() {
    let mut server = server();
    for line in ["", "\n", "get\n", "get k\n", "set k v\n", "get k\n", "rm k\n", "rm k\n", "x y z"] {
        let reply = server.respond(line.to_string());
        assert!(reply.ends_with('\n'));
        assert_eq!(reply.matches('\n').count(), 1);
    }
}

#[test]
fn removing_a_missing_key_is_answered_with_key_not_found() {
    let mut server = server();
    assert_eq!(server.respond("rm absent\n".to_string()), "Key not found\n");
    assert_eq!(server.respond("get absent\n".to_string()), "Key not found\n");
}

#[test]
fn a_bad_request_changes_nothing_and_the_next_is_served() {
    let mut server = server();
    assert_eq!(server.respond("set k v\n".to_string()), "OK\n");
    assert_eq!(server.respond("set k\n".to_string()), "Invalid request\n");
    assert_eq!(server.respond("get\n".to_string()), "Invalid request\n");
    assert_eq!(server.respond("drop k\n".to_string()), "Invalid request\n");
    assert_eq!(server.respond("get k\n".to_string()), "v\n");
}

#[test]
fn a_connection_is_closed_at_the_end_of_the_stream() {
    let mut server = server();
    assert_eq!(server.step("set k v\n".to_string()), Some("OK\n".to_string()));
    assert_eq!(server.step("\n".to_string()), Some("Invalid request\n".to_string()));
    assert_eq!(server.step("".to_string()), None);
    assert_eq!(server.step("get k\n".to_string()), Some("v\n".to_string()));
}

#[test]
fn the_server_hands_out_what_the_files_are_to_see() {
    let mut store = KvStore::new();
    store.take_journal();
    let mut server = KvsServer::new("127.0.0.1:4000".to_string(), store).unwrap();

    let (reply, ops) = server.serve("set foo bar\n".to_string());
    assert_eq!(reply, Some("OK\n".to_string()));
    assert_eq!(ops.len(), 1);
    assert!(matches!(
        &ops[0],
        DiskOp::Append { file_num: 0, data } if data == b"{\"Set\":{\"key\":\"foo\",\"value\":\"bar\"}}"
    ));

    let (reply, ops) = server.serve("get foo\n".to_string());
    assert_eq!(reply, Some("bar\n".to_string()));
    assert!(ops.is_empty());

    let (reply, ops) = server.serve("rm foo\n".to_string());
    assert_eq!(reply, Some("OK\n".to_string()));
    assert_eq!(ops.len(), 1);
    assert!(matches!(&ops[0], DiskOp::Append { file_num: 0, data } if data == b"{\"Del\":{\"key\":\"foo\"}}"));

    let (reply, ops) = server.serve("get foo\n".to_string());
    assert_eq!(reply, Some("Key not found\n".to_string()));
    assert!(ops.is_empty());

    let (reply, ops) = server.serve("rm foo\n".to_string());
    assert_eq!(reply, Some("Key not found\n".to_string()));
    assert!(ops.is_empty());

    let (reply, ops) = server.serve("".to_string());
    assert_eq!(reply, None);
    assert!(ops.is_empty());
}
