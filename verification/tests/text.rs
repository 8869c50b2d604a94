use lsmrs::codec::{get_prefixed, get_u32, get_u64, put_prefixed, put_u32, put_u64};
use lsmrs::memtable::Memtable;
use lsmrs::order::{compare, same, KeyOrder};
use lsmrs::text::{
    parse_i64, parse_u64, put_decimal, put_padded, put_signed_decimal, same_text, to_upper,
};

#[test]
fn numbers_are_written_in_decimal() {
    for n in [0, 7, 10, 99, 12345, u64::MAX] {
        let mut out = b"x".to_vec();
        put_decimal(&mut out, n);
        assert_eq!(out, format!("x{n}").as_bytes());
        let mut out = Vec::new();
        put_padded(&mut out, n, 6);
        assert_eq!(out, format!("{n:06}").as_bytes());
    }
    for n in [0, 5, -5, i64::MIN, i64::MAX] {
        let mut out = Vec::new();
        put_signed_decimal(&mut out, n);
        assert_eq!(out, n.to_string().as_bytes());
    }
}

#[test]
fn numbers_are_read_as_the_standard_library_reads_them() {
    for s in [
        "", "0", "7", "007", "+7", "-7", "+", "-", "++1", "--1", "+-1", "1 ", " 1", "1x", "x",
        "18446744073709551615", "18446744073709551616", "9223372036854775807",
        "9223372036854775808", "-9223372036854775808", "-9223372036854775809", "-0", "+0",
        "99999999999999999999999999", "\u{663}",
    ] {
        assert_eq!(parse_u64(s.as_bytes()), s.parse::<u64>().ok(), "{s:?}");
        assert_eq!(parse_i64(s.as_bytes()), s.parse::<i64>().ok(), "{s:?}");
    }
}

#[test]
fn letters_are_raised_to_capitals() {
    let all: Vec<u8> = (0..=255u8).collect();
    assert_eq!(to_upper(&all), all.to_ascii_uppercase());
}

#[test]
fn texts_are_compared_as_wholes() {
    assert!(same_text("GET", "GET"));
    assert!(!same_text("GET", "get"));
    assert!(!same_text("GET", "GETS"));
}

#[test]
fn keys_are_ordered_byte_by_byte() {
    assert_eq!(compare(b"a", b"b"), KeyOrder::Less);
    assert_eq!(compare(b"b", b"a"), KeyOrder::Greater);
    assert_eq!(compare(b"a", b"ab"), KeyOrder::Less);
    assert_eq!(compare(b"", b""), KeyOrder::Equal);
    assert_eq!(compare(b"\xff", b"\x00\xff"), KeyOrder::Greater);
    assert!(same(b"ab", b"ab"));
    assert!(!same(b"ab", b"ac"));
}

#[test]
fn integers_are_little_endian() {
    let mut out = Vec::new();
    put_u32(&mut out, 0x0102_0304);
    put_u64(&mut out, 0x0102_0304_0506_0708);
    assert_eq!(out, [4, 3, 2, 1, 8, 7, 6, 5, 4, 3, 2, 1]);
    assert_eq!(get_u32(&out, 0), 0x0102_0304);
    assert_eq!(get_u64(&out, 4), 0x0102_0304_0506_0708);

    let mut out = Vec::new();
    put_prefixed(&mut out, b"key");
    assert_eq!(out, b"\x03\0\0\0key");
    assert_eq!(get_prefixed(&out, 0), Some((b"key".to_vec(), 7)));
    assert_eq!(get_prefixed(&out[..6], 0), None);
    assert_eq!(get_prefixed(&out, 7), None);
}

#[test]
fn a_memtable_keeps_the_latest_of_each_key() {
    let mut map = Memtable::new();
    for (k, v) in [("b", Some("1")), ("a", Some("2")), ("c", None), ("b", None), ("a", Some("3"))] {
        map.insert(k.as_bytes().to_vec(), v.map(|v| v.as_bytes().to_vec()));
    }
    assert_eq!(map.len(), 3);
    assert_eq!(map.get(b"a"), Some(Some(b"3".to_vec())));
    assert_eq!(map.get(b"b"), Some(None));
    assert_eq!(map.get(b"c"), Some(None));
    assert_eq!(map.get(b"d"), None);
    let keys: Vec<&[u8]> = map.records().iter().map(|r| r.0.as_slice()).collect();
    assert_eq!(keys, [b"a", b"b", b"c"]);
    map.clear();
    assert_eq!(map.len(), 0);
    assert_eq!(map.get(b"a"), None);
}
