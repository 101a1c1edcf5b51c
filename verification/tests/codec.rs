use kvs::codec::{decode, encode};

#[test]
fn test_parse_command_from_string() {
    let testcases: Vec<(&str, Vec<&str>)> = vec![
        ("get key", vec!["get", "key"]),
        ("get  key ", vec!["get", "key"]),
        ("get  key11 ", vec!["get", "key11"]),
        ("set  key11 hello", vec!["set", "key11", "hello"]),
    ];

    for i in 0..testcases.len() {
        let testcase = testcases.get(i).unwrap();
        let cmd = decode(testcase.0.to_string()).unwrap();
        for j in 0..testcase.1.len() {
            let a = testcase.1[j].to_string();
            let b = cmd.get(j).unwrap().to_string();
            assert_eq!(a, b);
        }
    }
}

#[test]
fn decode_gives_exactly_the_tokens() {
    assert_eq!(decode("get key".to_string()).unwrap(), vec!["get", "key"]);
    assert_eq!(decode("  set   a  b  ".to_string()).unwrap(), vec!["set", "a", "b"]);
    assert_eq!(decode("".to_string()).unwrap(), Vec::<String>::new());
    assert_eq!(decode("   ".to_string()).unwrap(), Vec::<String>::new());
    assert_eq!(decode("\n".to_string()).unwrap(), Vec::<String>::new());
}

#[test]
fn decode_leaves_the_line_feed_out() {
    assert_eq!(decode("get key\n".to_string()).unwrap(), vec!["get", "key"]);
    assert_eq!(decode("get key \n".to_string()).unwrap(), vec!["get", "key"]);
    assert_eq!(decode("get k\ney\n".to_string()).unwrap(), vec!["get", "k\ney"]);
    assert_eq!(decode("a\tb\n".to_string()).unwrap(), vec!["a\tb"]);
}

#[test]
fn encode_puts_a_space_behind_each_token() {
    let line = encode(vec!["set".to_string(), "foo".to_string(), "bar".to_string()]).unwrap();
    assert_eq!(line, "set foo bar \n");
    assert_eq!(encode(Vec::new()).unwrap(), "\n");
}

#[test]
fn decode_reads_what_encode_wrote() {
    let msg = vec!["set".to_string(), "k\u{e9}y".to_string(), "v\u{1F600}".to_string()];
    let line = encode(msg.clone()).unwrap();
    assert_eq!(decode(line).unwrap(), msg);
}
