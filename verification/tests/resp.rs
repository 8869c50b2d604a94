use lsmrs::resp::{read_command, write_command, ReadStep, Reply, RespError, MAX_BULK_LEN};

// The one command in a connection that ends behind it.
fn parse(input: &[u8]) -> Option<Vec<Vec<u8>>> {
    match read_command(input, true) {
        Ok(ReadStep::Command { args, consumed }) => {
            assert_eq!(consumed, input.len());
            Some(args)
        }
        Ok(ReadStep::Closed) => None,
        Ok(ReadStep::More) => panic!("an ended connection was waited for"),
        Err(e) => panic!("{}", e.message()),
    }
}

fn error(input: &[u8], eof: bool) -> RespError {
    match read_command(input, eof) {
        Err(e) => e,
        Ok(_) => panic!("expected an error"),
    }
}

fn encode(reply: Reply) -> Vec<u8> {
    let mut out = Vec::new();
    reply.write_to(&mut out);
    out
}

#[test]
fn parses_an_array_of_bulk_strings() {
    let args = parse(b"*3\r\n$3\r\nSET\r\n$3\r\nkey\r\n$5\r\nvalue\r\n").unwrap();
    assert_eq!(
        args,
        vec![b"SET".to_vec(), b"key".to_vec(), b"value".to_vec()]
    );
}

#[test]
fn parses_an_inline_command() {
    assert_eq!(
        parse(b"GET  key\r\n").unwrap(),
        vec![b"GET".to_vec(), b"key".to_vec()]
    );
}

#[test]
fn bulk_strings_are_binary_safe() {
    // The length prefix is what allows a value to contain the very delimiter
    // that ends every other part of the protocol.
    let args = parse(b"*2\r\n$3\r\nSET\r\n$4\r\na\r\nb\r\n").unwrap();
    assert_eq!(args[1], b"a\r\nb".to_vec());
}

#[test]
fn closed_connection_reads_as_none() {
    assert!(parse(b"").is_none());
}

#[test]
fn truncated_command_is_an_error() {
    let err = error(b"*2\r\n$3\r\nGET\r\n", true);
    assert_eq!(err, RespError::ConnectionClosed);
    assert!(!err.is_protocol_error());
    assert_eq!(err.message(), "connection closed mid-command");
}

#[test]
fn oversized_bulk_length_is_rejected_before_allocating() {
    let err = error(b"*1\r\n$999999999\r\n", true);
    assert!(err.message().contains("protocol limit"));
}

#[test]
fn encodes_every_reply_shape() {
    assert_eq!(encode(Reply::Simple("OK")), b"+OK\r\n");
    assert_eq!(encode(Reply::Error("ERR nope".into())), b"-ERR nope\r\n");
    assert_eq!(encode(Reply::Integer(-1)), b":-1\r\n");
    assert_eq!(encode(Reply::Nil), b"$-1\r\n");
    assert_eq!(encode(Reply::Bulk(b"hi".to_vec())), b"$2\r\nhi\r\n");
    assert_eq!(
        encode(Reply::Array(vec![Reply::Integer(1), Reply::Nil])),
        b"*2\r\n:1\r\n$-1\r\n"
    );
}

#[test]
fn encodes_nested_arrays_and_extreme_numbers() {
    assert_eq!(
        encode(Reply::Array(vec![
            Reply::Array(vec![]),
            Reply::Array(vec![Reply::Simple("a")]),
            Reply::Bulk(vec![])
        ])),
        b"*3\r\n*0\r\n*1\r\n+a\r\n$0\r\n\r\n"
    );
    assert_eq!(
        encode(Reply::Integer(i64::MIN)),
        b":-9223372036854775808\r\n"
    );
    assert_eq!(
        encode(Reply::Integer(i64::MAX)),
        b":9223372036854775807\r\n"
    );
    assert_eq!(
        encode(Reply::Error("caf\u{e9}".into())),
        "-caf\u{e9}\r\n".as_bytes()
    );
}

#[test]
fn each_error_has_its_input() {
    assert_eq!(error(b"*1\r\n+OK\r\n", false), RespError::ExpectedBulk);
    assert_eq!(error(b"*1\r\n\r\n", false), RespError::ExpectedBulk);
    assert_eq!(error(b"*1\r\n$-1\r\n", false), RespError::NegativeLength);
    assert_eq!(error(b"*\xff\r\n", false), RespError::NotUtf8);
    assert_eq!(error(b"*1\r\n$\xc3\r\n", false), RespError::NotUtf8);
    assert_eq!(error(b"*x\r\n", false), RespError::NotAnInteger);
    assert_eq!(error(b"*\r\n", false), RespError::NotAnInteger);
    assert_eq!(error("*\u{663}\r\n".as_bytes(), false), RespError::NotAnInteger);
    assert_eq!(
        error(b"*9223372036854775808\r\n", false),
        RespError::NotAnInteger
    );
    assert_eq!(error(b"*1025\r\n", false), RespError::OverLimit);
    assert_eq!(error(b"*1\r\n$67108865\r\n", false), RespError::OverLimit);
    assert_eq!(error(b"*1\r\n$5\r\nab", true), RespError::Truncated);
    assert_eq!(error(b"*1\r\n", true), RespError::ConnectionClosed);

    assert_eq!(
        RespError::ExpectedBulk.message(),
        "expected a bulk string argument"
    );
    assert_eq!(
        RespError::NegativeLength.message(),
        "negative bulk string length"
    );
    assert_eq!(RespError::NotUtf8.message(), "length is not valid UTF-8");
    assert_eq!(
        RespError::NotAnInteger.message(),
        "length is not an integer"
    );
    assert!(RespError::NotUtf8.is_protocol_error());
    assert!(!RespError::Truncated.is_protocol_error());
}

#[test]
fn limits_themselves_are_accepted() {
    assert!(matches!(
        read_command(b"*1024\r\n", false),
        Ok(ReadStep::More)
    ));
    let header = format!("*1\r\n${MAX_BULK_LEN}\r\n");
    assert!(matches!(
        read_command(header.as_bytes(), false),
        Ok(ReadStep::More)
    ));
}

#[test]
fn negative_counts_and_signs_are_numbers() {
    assert_eq!(parse(b"*-1\r\n").unwrap().len(), 0);
    assert_eq!(parse(b"*0\r\n").unwrap().len(), 0);
    assert_eq!(
        parse(b"*+1\r\n$+2\r\nhi\r\n").unwrap(),
        vec![b"hi".to_vec()]
    );
}

#[test]
fn the_end_of_a_connection_ends_its_last_line() {
    assert_eq!(parse(b"PING").unwrap(), vec![b"PING".to_vec()]);
    assert!(matches!(read_command(b"PING", false), Ok(ReadStep::More)));
    assert_eq!(parse(b"\r\n").unwrap().len(), 0);
    assert_eq!(
        parse(b" a\tb\x0cc\r \r\n").unwrap(),
        vec![b"a".to_vec(), b"b".to_vec(), b"c".to_vec()]
    );
    // A vertical tab is no space here.
    assert_eq!(parse(b"a\x0bb\n").unwrap(), vec![b"a\x0bb".to_vec()]);
}

#[test]
fn a_command_is_read_as_soon_as_it_is_complete() {
    let whole = b"*2\r\n$3\r\nGET\r\n$1\r\nk\r\n";
    for n in 0..whole.len() {
        assert!(matches!(
            read_command(&whole[..n], false),
            Ok(ReadStep::More)
        ));
    }
    let mut stream = whole.to_vec();
    stream.extend_from_slice(b"*1\r\n$4\r\nPI");
    for eof in [false, true] {
        match read_command(&stream, eof) {
            Ok(ReadStep::Command { args, consumed }) => {
                assert_eq!(args, vec![b"GET".to_vec(), b"k".to_vec()]);
                assert_eq!(consumed, whole.len());
            }
            _ => panic!("expected a command"),
        }
    }
}

#[test]
fn what_a_client_sends_is_read_back() {
    let args = vec![
        b"SET".to_vec(),
        b"k\r\n$3".to_vec(),
        vec![],
        (0..=255u8).collect::<Vec<u8>>(),
    ];
    let mut sent = Vec::new();
    write_command(&mut sent, &args);
    assert_eq!(parse(&sent).unwrap(), args);

    let items = args.iter().map(|a| Reply::Bulk(a.clone())).collect();
    assert_eq!(encode(Reply::Array(items)), sent);
}

#[test]
fn a_command_that_is_cut_off_is_an_error() {
    let args = vec![b"SET".to_vec(), b"k\r\n".to_vec(), vec![]];
    let mut sent = Vec::new();
    write_command(&mut sent, &args);
    for n in 1..sent.len() {
        assert!(read_command(&sent[..n], true).is_err(), "{n} bytes");
        assert!(matches!(
            read_command(&sent[..n], false),
            Ok(ReadStep::More)
        ));
    }
}
