use lsmrs::wal::{accept, frame, intact_len, Operation, Record, Wal, WalError};

// A log in memory.
struct Log {
    wal: Wal,
    bytes: Vec<u8>,
}

impl Log {
    fn new() -> Self {
        Log {
            wal: Wal::open(false),
            bytes: Vec::new(),
        }
    }

    fn insert(&mut self, key: &[u8], value: &[u8]) {
        let append = self.wal.insert(key, value);
        self.bytes.extend_from_slice(&append.bytes);
    }

    fn delete(&mut self, key: &[u8]) {
        let append = self.wal.delete(key);
        self.bytes.extend_from_slice(&append.bytes);
    }

    fn read(&self) -> Result<Vec<Record>, WalError> {
        Wal::read(&self.bytes)
    }
}

#[test]
fn write_read_roundtrip() {
    let mut log = Log::new();
    log.insert(b"foo", b"bar");
    log.insert(b"omar", b"ashour");
    log.delete(b"foo");

    let records = log.read().unwrap();

    assert_eq!(records.len(), 3);

    assert_eq!(records[0].key, b"foo");
    assert_eq!(records[0].value, b"bar");
    assert!(matches!(records[0].operation, Operation::Insert));

    assert_eq!(records[1].key, b"omar");
    assert_eq!(records[1].value, b"ashour");
    assert!(matches!(records[1].operation, Operation::Insert));

    assert_eq!(records[2].key, b"foo");
    assert!(records[2].value.is_empty());
    assert!(matches!(records[2].operation, Operation::Delete));
}

#[test]
fn corrupted_record_fails_crc() {
    let mut log = Log::new();
    log.insert(b"foo", b"bar");

    // Flip a byte inside the value, leaving the length header intact. The record
    // is still fully present, so this is corruption, not truncation.
    let value_byte = log.bytes.len() - 2;
    log.bytes[value_byte] ^= 0xFF;

    let err = log.read().unwrap_err();
    assert_eq!(err, WalError::ChecksumMismatch);
    assert_eq!(err.message(), "Checksum mismatch");
}

#[test]
fn torn_write_is_recovered() {
    let mut log = Log::new();
    log.insert(b"foo", b"bar");
    let first_len = log.bytes.len();
    log.insert(b"omar", b"ashour");

    // Simulate a crash mid-append: truncate partway into the second record.
    let full_len = log.bytes.len();
    let torn_len = first_len + (full_len - first_len) / 2;
    log.bytes.truncate(torn_len);

    let records = log.read().unwrap();

    // The complete first record survives; the torn tail is discarded.
    assert_eq!(records.len(), 1);
    assert_eq!(records[0].key, b"foo");
    assert_eq!(records[0].value, b"bar");
}

#[test]
fn every_torn_length_keeps_the_first_record() {
    let mut log = Log::new();
    log.insert(b"foo", b"bar");
    let first_len = log.bytes.len();
    log.insert(b"omar", b"ashour");
    for len in first_len..log.bytes.len() {
        assert_eq!(Wal::read(&log.bytes[..len]).unwrap().len(), 1);
    }
    for len in 0..first_len {
        assert_eq!(Wal::read(&log.bytes[..len]).unwrap().len(), 0);
    }
}

// The checksum is the CRC-32 of the payload, so the frame of a record is known
// byte by byte.
#[test]
fn frames_hold_length_checksum_and_payload() {
    let payload = b"\x01\0\0\0k\x02\0\0\0vv\0";
    let mut expected = vec![16, 0, 0, 0];
    expected.extend_from_slice(&crc32fast::hash(payload).to_le_bytes());
    expected.extend_from_slice(payload);

    let append = Wal::open(true).insert(b"k", b"vv");
    assert_eq!(append.bytes, expected);
    assert!(append.sync);
    assert_eq!(frame(payload, crc32fast::hash(payload)), expected);

    // The check value of this CRC.
    assert_eq!(crc32fast::hash(b"123456789"), 0xcbf4_3926);
    let delete = Wal::open(false).delete(b"k");
    assert_eq!(&delete.bytes[8..], b"\x01\0\0\0k\0\0\0\0\x01");
    assert!(!delete.sync);
}

#[test]
fn records_are_accepted_by_their_checksum() {
    let payload = b"\x01\0\0\0k\x01\0\0\0v\0";
    let record = accept(payload, 7, 7).unwrap();
    assert_eq!(record.key, b"k");
    assert_eq!(record.value, b"v");
    assert!(matches!(
        accept(payload, 7, 8),
        Err(WalError::ChecksumMismatch)
    ));
}

fn framed(payload: &[u8]) -> Vec<u8> {
    frame(payload, crc32fast::hash(payload))
}

#[test]
fn damaged_frames_are_told_apart() {
    // An operation that stands for nothing.
    let bad = framed(b"\x01\0\0\0k\x01\0\0\0v\x02");
    assert_eq!(Wal::read(&bad).unwrap_err(), WalError::InvalidOperation);
    assert_eq!(
        WalError::InvalidOperation.message(),
        "Invalid operation byte"
    );
    // A payload that is too short for its fields.
    let bad = framed(b"\x09\0\0\0k");
    assert_eq!(Wal::read(&bad).unwrap_err(), WalError::Malformed);
    assert_eq!(Wal::read(&framed(b"")).unwrap_err(), WalError::Malformed);
    // A length that leaves no room for the checksum.
    let bad = [3, 0, 0, 0, 0, 0, 0, 0];
    assert_eq!(Wal::read(&bad).unwrap_err(), WalError::Malformed);
    assert_eq!(WalError::Malformed.message(), "Malformed record");
}

#[test]
fn bytes_behind_the_operation_are_ignored() {
    let long = framed(b"\x01\0\0\0k\x01\0\0\0v\x01more");
    let records = Wal::read(&long).unwrap();
    assert_eq!(records.len(), 1);
    assert_eq!(records[0].operation, Operation::Delete);
}

#[test]
fn operations_are_bytes() {
    assert_eq!(u8::from(Operation::Insert), 0);
    assert_eq!(u8::from(Operation::Delete), 1);
    assert_eq!(Operation::try_from(0), Ok(Operation::Insert));
    assert_eq!(Operation::try_from(1), Ok(Operation::Delete));
    assert_eq!(Operation::try_from(2), Err(WalError::InvalidOperation));
}

#[test]
fn empty_keys_and_values_are_kept() {
    let mut log = Log::new();
    log.insert(b"", b"");
    log.delete(b"");
    let records = log.read().unwrap();
    assert_eq!(records.len(), 2);
    assert!(records[0].key.is_empty() && records[0].value.is_empty());
    assert_eq!(records[1].operation, Operation::Delete);
}

#[test]
fn only_whole_records_are_intact() {
    assert_eq!(intact_len(b""), 0);
    let mut log = Log::new();
    log.insert(b"foo", b"bar");
    let first_len = log.bytes.len();
    log.insert(b"omar", b"ashour");
    for len in 0..log.bytes.len() {
        let whole = if len < first_len { 0 } else { first_len };
        assert_eq!(intact_len(&log.bytes[..len]), whole);
    }
    assert_eq!(intact_len(&log.bytes), log.bytes.len());
}

#[test]
fn a_write_after_a_torn_one_is_kept() {
    let mut log = Log::new();
    log.insert(b"foo", b"bar");
    log.insert(b"omar", b"ashour");
    let whole = log.bytes.clone();
    for len in 0..=whole.len() {
        log.bytes = whole[..len].to_vec();
        let before = log.read().unwrap();
        log.bytes.truncate(intact_len(&whole[..len]));
        log.insert(b"k", b"v");

        let records = log.read().unwrap();
        assert_eq!(records.len(), before.len() + 1);
        for (kept, old) in records.iter().zip(&before) {
            assert_eq!(kept.key, old.key);
            assert_eq!(kept.value, old.value);
        }
        assert_eq!(records[before.len()].key, b"k");
        assert_eq!(records[before.len()].value, b"v");
    }
}

// Division of the reversed bits by the reversed polynomial, a bit at a time.
fn crc(bytes: &[u8]) -> u32 {
    let mut state = u32::MAX;
    for b in bytes {
        state ^= u32::from(*b);
        for _ in 0..8 {
            state = if state & 1 == 1 {
                (state >> 1) ^ 0xedb8_8320
            } else {
                state >> 1
            };
        }
    }
    !state
}

#[test]
fn checksums_are_remainders() {
    for (key, value) in [
        (&b""[..], &b""[..]),
        (b"k", b"v"),
        (b"foo", b"bar"),
        (&[0xff; 300], &[0; 70]),
    ] {
        let bytes = Wal::open(false).insert(key, value).bytes;
        assert_eq!(bytes[4..8], crc(&bytes[8..]).to_le_bytes());
    }
}

#[test]
fn one_damaged_byte_of_a_payload_is_reported() {
    let mut log = Log::new();
    log.insert(b"foo", b"bar");
    let first_len = log.bytes.len();
    log.delete(b"foo");
    for at in (8..first_len).chain(first_len + 8..log.bytes.len()) {
        for flip in 1..=255u8 {
            log.bytes[at] ^= flip;
            assert_eq!(log.read().unwrap_err(), WalError::ChecksumMismatch);
            log.bytes[at] ^= flip;
        }
    }
}
