use lsmrs::cli::{execute, parse, scan_output, Command, Executed};
use lsmrs::error::DbError;

#[test]
fn parse_get() {
    match parse("GET foo").unwrap() {
        Command::Get(k) => assert_eq!(k, b"foo"),
        _ => panic!("expected Get"),
    }
}

#[test]
fn parse_put() {
    match parse("PUT foo bar").unwrap() {
        Command::Put(k, v) => {
            assert_eq!(k, b"foo");
            assert_eq!(v, b"bar");
        }
        _ => panic!("expected Put"),
    }
}

#[test]
fn parse_unknown_command_errors() {
    assert!(matches!(
        parse("FROBNICATE x"),
        Err(DbError::InvalidCommand(_))
    ));
}

fn message(line: &str) -> String {
    match parse(line) {
        Err(e) => e.message(),
        Ok(_) => panic!("expected an error"),
    }
}

#[test]
fn each_mistake_has_its_message() {
    assert_eq!(message(""), "key not found");
    assert_eq!(message("  \t "), "key not found");
    assert_eq!(message("GET"), "invalid command: GET requires a key");
    assert_eq!(message("PUT"), "invalid command: PUT requires a key");
    assert_eq!(message("PUT k"), "invalid command: PUT requires a value");
    assert_eq!(message("DEL"), "invalid command: PUT requires a key");
    assert_eq!(message("get k"), "invalid command: get");
    assert_eq!(
        DbError::Io("disk full".to_string()).message(),
        "io error: disk full"
    );
}

#[test]
fn words_are_split_at_any_white_space() {
    match parse("\u{2003}PUT\u{a0}kl\u{fc}ck\u{3000}w\u{e9}rt ignored").unwrap() {
        Command::Put(k, v) => {
            assert_eq!(k, "kl\u{fc}ck".as_bytes());
            assert_eq!(v, "w\u{e9}rt".as_bytes());
        }
        _ => panic!("expected Put"),
    }
    assert!(matches!(parse("DEL k"), Ok(Command::Del(k)) if k == b"k"));
    assert!(matches!(parse(" SCAN "), Ok(Command::Scan)));
    assert!(matches!(parse("EXIT now"), Ok(Command::Exit)));
}

// The words are those that `str::split_whitespace` finds.
#[test]
fn white_space_is_what_the_standard_library_says() {
    for n in 0..0x11_0000u32 {
        if let Some(c) = char::from_u32(n) {
            let split = matches!(parse(&format!("GET{c}k")), Ok(Command::Get(_)));
            assert_eq!(split, c.is_whitespace(), "U+{n:04X}");
        }
    }
}

fn print(result: Executed) -> Option<String> {
    execute(result).unwrap()
}

#[test]
fn results_are_printed() {
    assert_eq!(
        print(Executed::Get(Ok(Some(b"v".to_vec())))),
        Some("v".to_string())
    );
    assert_eq!(
        print(Executed::Get(Ok(Some(b"a\xffb".to_vec())))),
        Some("a\u{fffd}b".to_string())
    );
    assert_eq!(
        print(Executed::Get(Ok(None))),
        Some("(not found)".to_string())
    );
    assert_eq!(print(Executed::Put(Ok(()))), Some("OK".to_string()));
    assert_eq!(print(Executed::Del(Ok(()))), Some("OK".to_string()));
    assert_eq!(print(Executed::Exit), None);
    assert_eq!(
        print(Executed::Scan(Ok(vec![]))),
        Some("(empty)".to_string())
    );
    assert_eq!(
        print(Executed::Scan(Ok(vec![
            (b"a".to_vec(), b"1".to_vec()),
            (b"b".to_vec(), b"2\xfe".to_vec()),
            (b"c".to_vec(), b"".to_vec())
        ]))),
        Some("a 1\nb 2\u{fffd}\nc ".to_string())
    );
}

#[test]
fn failures_are_reported_as_failures() {
    let failed = execute(Executed::Get(Err("disk on fire".to_string())));
    assert!(matches!(failed, Err(DbError::Io(m)) if m == "disk on fire"));
    let failed = execute(Executed::Put(Err("disk on fire".to_string())));
    assert!(matches!(failed, Err(DbError::Io(m)) if m == "disk on fire"));
    let failed = execute(Executed::Scan(Err("disk on fire".to_string())));
    assert!(matches!(failed, Err(DbError::Io(m)) if m == "disk on fire"));
    let failed = execute(Executed::Del(Err("disk on fire".to_string())));
    assert!(matches!(failed, Err(DbError::Io(m)) if m == "disk on fire"));
}

#[test]
fn scans_are_joined_line_by_line() {
    assert_eq!(scan_output(&vec![]), "(empty)");
    let one = vec![("a".to_string(), "1".to_string())];
    assert_eq!(scan_output(&one), "a 1");
    let two = vec![
        ("a".to_string(), "1".to_string()),
        ("b".to_string(), "2".to_string()),
    ];
    assert_eq!(scan_output(&two), "a 1\nb 2");
}
