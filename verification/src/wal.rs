//! The write-ahead log: every change is appended to it before it is applied, and
//! reading it gives the changes back.
//!
//! A record is framed as `[length: u32][checksum: u32][payload]`, where the
//! length counts the checksum and the payload, and the payload is
//! `[key_len: u32][key][value_len: u32][value][operation: u8]`.
use crate::checksum;
use crate::codec;
use crate::entries::Entry;
use crate::sstable::layout;
use crate::sstable::table;
use vstd::prelude::*;

verus! {

pub const CRC_SIZE: u32 = 4;

/// What a record does to its key.
#[derive(PartialEq, Eq, Structural, Clone, Copy, Debug)]
pub enum Operation {
    Insert,
    Delete,
}

/// The byte that stands for an operation.
pub open spec fn byte_of(operation: Operation) -> u8 {
    match operation {
        Operation::Insert => 0,
        Operation::Delete => 1,
    }
}

/// The operation that a byte stands for.
pub open spec fn operation_of(byte: u8) -> Result<Operation, WalError> {
    if byte == 0 {
        Ok(Operation::Insert)
    } else if byte == 1 {
        Ok(Operation::Delete)
    } else {
        Err(WalError::InvalidOperation)
    }
}

/// Why a log cannot be read.
#[derive(PartialEq, Eq, Structural, Clone, Copy, Debug)]
pub enum WalError {
    /// A whole record does not match its checksum.
    ChecksumMismatch,
    /// A record has an operation byte that stands for nothing.
    InvalidOperation,
    /// A frame is too short for its checksum, or a payload for its fields.
    Malformed,
}

impl WalError {
    /// The error in words.
    pub fn message(&self) -> (r: &'static str)
        ensures
            r@ == (match *self {
                WalError::ChecksumMismatch => "Checksum mismatch"@,
                WalError::InvalidOperation => "Invalid operation byte"@,
                WalError::Malformed => "Malformed record"@,
            }),
    {
        match self {
            WalError::ChecksumMismatch => "Checksum mismatch",
            WalError::InvalidOperation => "Invalid operation byte",
            WalError::Malformed => "Malformed record",
        }
    }
}

impl From<Operation> for u8 {
    fn from(operation: Operation) -> (r: u8) {
        match operation {
            Operation::Insert => 0,
            Operation::Delete => 1,
        }
    }
}

impl vstd::std_specs::convert::FromSpecImpl<Operation> for u8 {
    open spec fn obeys_from_spec() -> bool {
        true
    }

    open spec fn from_spec(operation: Operation) -> u8 {
        byte_of(operation)
    }
}

impl TryFrom<u8> for Operation {
    type Error = WalError;

    fn try_from(value: u8) -> (r: Result<Operation, WalError>) {
        match value {
            0 => Ok(Operation::Insert),
            1 => Ok(Operation::Delete),
            _ => Err(WalError::InvalidOperation),
        }
    }
}

impl vstd::std_specs::convert::TryFromSpecImpl<u8> for Operation {
    open spec fn obeys_try_from_spec() -> bool {
        true
    }

    open spec fn try_from_spec(value: u8) -> Result<Operation, WalError> {
        operation_of(value)
    }
}

/// One change.
#[derive(Debug)]
pub struct Record {
    pub key: Vec<u8>,
    pub value: Vec<u8>,
    pub operation: Operation,
}

/// One change, as contracts speak of it.
pub struct LogRecord {
    pub key: Seq<u8>,
    pub value: Seq<u8>,
    pub operation: Operation,
}

impl View for Record {
    type V = LogRecord;

    open spec fn view(&self) -> LogRecord {
        LogRecord { key: self.key@, value: self.value@, operation: self.operation }
    }
}

pub open spec fn records_view(rs: Seq<Record>) -> Seq<LogRecord> {
    Seq::new(rs.len(), |i: int| rs[i]@)
}

/// The record that makes an entry.
pub open spec fn record_of(e: Entry) -> LogRecord {
    match e.1 {
        Some(v) => LogRecord { key: e.0, value: v, operation: Operation::Insert },
        None => LogRecord { key: e.0, value: Seq::empty(), operation: Operation::Delete },
    }
}

/// The entry that a record makes.
pub open spec fn entry_of(r: LogRecord) -> Entry {
    (
        r.key,
        match r.operation {
            Operation::Insert => Some(r.value),
            Operation::Delete => None,
        },
    )
}

pub open spec fn entries_of(rs: Seq<LogRecord>) -> Seq<Entry> {
    Seq::new(rs.len(), |i: int| entry_of(rs[i]))
}

/// The length of a record's frame fits its field.
pub open spec fn record_fits(r: LogRecord) -> bool {
    r.key.len() + r.value.len() + 13 <= u32::MAX
}

pub open spec fn records_fit(rs: Seq<LogRecord>) -> bool {
    forall|i: int| 0 <= i < rs.len() ==> record_fits(#[trigger] rs[i])
}

/// The payload of a record.
pub open spec fn payload(r: LogRecord) -> Seq<u8> {
    codec::prefixed(r.key) + codec::prefixed(r.value) + seq![byte_of(r.operation)]
}

/// A payload in its frame.
pub open spec fn frame_bytes(payload: Seq<u8>, checksum: u32) -> Seq<u8> {
    codec::le_bytes(CRC_SIZE as nat + payload.len(), 4) + codec::le_bytes(checksum as nat, 4) + payload
}

/// A record as it stands in the log.
pub open spec fn body(r: LogRecord) -> Seq<u8> {
    frame_bytes(payload(r), checksum::crc32(payload(r)))
}

/// A log of these records.
pub open spec fn log_bytes(rs: Seq<LogRecord>) -> Seq<u8>
    decreases rs.len(),
{
    if rs.len() == 0 {
        Seq::empty()
    } else {
        log_bytes(rs.drop_last()) + body(rs.last())
    }
}

/// The record in a payload.
pub open spec fn parsed(payload: Seq<u8>) -> Result<LogRecord, WalError> {
    match layout::record_at(payload, 0) {
        None => Err(WalError::Malformed),
        Some((raw, _)) => match operation_of(raw.op) {
            Ok(operation) => Ok(LogRecord { key: raw.key, value: raw.value, operation }),
            Err(e) => Err(e),
        },
    }
}

/// The record in a payload whose stored and computed checksums are these.
pub open spec fn accepted(payload: Seq<u8>, stored: u32, computed: u32) -> Result<
    LogRecord,
    WalError,
> {
    if stored != computed {
        Err(WalError::ChecksumMismatch)
    } else {
        parsed(payload)
    }
}

/// The payload of the frame at `at`, its checksum, and the position behind it;
/// nothing where the log ends before the frame does.
pub open spec fn frame_at(s: Seq<u8>, at: int) -> Result<Option<(Seq<u8>, u32, int)>, WalError> {
    if at < 0 || at + 8 > s.len() {
        Ok(None)
    } else {
        let length = codec::le_value(s.subrange(at, at + 4));
        let stored = codec::le_value(s.subrange(at + 4, at + 8)) as u32;
        if length < CRC_SIZE {
            Err(WalError::Malformed)
        } else if at + 4 + length > s.len() {
            Ok(None)
        } else {
            Ok(Some((s.subrange(at + 8, at + 4 + length), stored, at + 4 + length)))
        }
    }
}

/// The records of a log from `at` on. A frame that is cut off ends the log: it is
/// the write that a crash interrupted.
pub open spec fn records_from(s: Seq<u8>, at: int) -> Result<Seq<LogRecord>, WalError>
    decreases s.len() - at,
{
    match frame_at(s, at) {
        Err(e) => Err(e),
        Ok(None) => Ok(Seq::empty()),
        Ok(Some((payload, stored, next))) => match accepted(payload, stored, checksum::crc32(payload)) {
            Err(e) => Err(e),
            Ok(r) => match records_from(s, next) {
                Err(e) => Err(e),
                Ok(rest) => Ok(seq![r] + rest),
            },
        },
    }
}

/// Where the frames that hold records end, from `at` on: behind the last of them,
/// before the one that is cut off or cannot be read.
pub open spec fn intact_end(s: Seq<u8>, at: int) -> int
    decreases s.len() - at,
{
    match frame_at(s, at) {
        Ok(Some((payload, stored, next))) => if accepted(payload, stored, checksum::crc32(payload)) is Ok {
            intact_end(s, next)
        } else {
            at
        },
        _ => at,
    }
}

/// How many bytes of keys and values some records hold.
pub open spec fn records_size(rs: Seq<LogRecord>) -> nat
    decreases rs.len(),
{
    if rs.len() == 0 {
        0
    } else {
        records_size(rs.drop_last()) + rs.last().key.len() + rs.last().value.len()
    }
}

/// What to append to the log, and whether to wait until it is on disk.
pub struct Append {
    pub bytes: Vec<u8>,
    pub sync: bool,
}

/// Frames a payload with its checksum.
pub fn frame(payload: &[u8], checksum: u32) -> (r: Vec<u8>)
    requires
        payload@.len() + CRC_SIZE <= u32::MAX,
    ensures
        r@ == frame_bytes(payload@, checksum),
{
    let length: u32 = CRC_SIZE + payload.len() as u32;
    let mut r: Vec<u8> = Vec::new();
    codec::put_u32(&mut r, length);
    codec::put_u32(&mut r, checksum);
    codec::put_bytes(&mut r, payload);
    assert(r@ =~= frame_bytes(payload@, checksum));
    r
}

/// Reads the record in a payload, given its stored and its computed checksum.
pub fn accept(payload: &[u8], stored: u32, computed: u32) -> (r: Result<Record, WalError>)
    ensures
        match r {
            Ok(record) => accepted(payload@, stored, computed) == Ok::<LogRecord, WalError>(record@),
            Err(e) => accepted(payload@, stored, computed) == Err::<LogRecord, WalError>(e),
        },
{
    if stored != computed {
        return Err(WalError::ChecksumMismatch);
    }
    Wal::parse_record(payload)
}

/// The log of a store.
pub struct Wal {
    /// Whether each record has to be on disk before its change counts.
    pub sync: bool,
}

impl Wal {
    pub fn open(sync: bool) -> (r: Self)
        ensures
            r.sync == sync,
    {
        Wal { sync }
    }

    fn create_body(key: &[u8], value: &[u8], operation: Operation) -> (r: Vec<u8>)
        requires
            key@.len() + value@.len() + 13 <= u32::MAX,
        ensures
            r@ == body((LogRecord { key: key@, value: value@, operation })),
    {
        let operation_byte: u8 = u8::from(operation);
        let mut payload: Vec<u8> = Vec::new();
        codec::put_prefixed(&mut payload, key);
        codec::put_prefixed(&mut payload, value);
        payload.push(operation_byte);
        proof {
            codec::lemma_le_bytes_len(key@.len(), 4);
            codec::lemma_le_bytes_len(value@.len(), 4);
            assert(payload@ =~= self::payload(LogRecord { key: key@, value: value@, operation }));
        }
        let sum: u32 = checksum::checksum(payload.as_slice());
        frame(payload.as_slice(), sum)
    }

    /// What to append before `key` is set to `value`.
    pub fn insert(&self, key: &[u8], value: &[u8]) -> (r: Append)
        requires
            key@.len() + value@.len() + 13 <= u32::MAX,
        ensures
            r.bytes@ == body(record_of((key@, Some(value@)))),
            r.sync == self.sync,
    {
        Append { bytes: Self::create_body(key, value, Operation::Insert), sync: self.sync }
    }

    /// What to append before `key` is deleted.
    pub fn delete(&self, key: &[u8]) -> (r: Append)
        requires
            key@.len() + 13 <= u32::MAX,
        ensures
            r.bytes@ == body(record_of((key@, None))),
            r.sync == self.sync,
    {
        let nothing: Vec<u8> = Vec::new();
        assert(nothing@ =~= Seq::<u8>::empty());
        Append {
            bytes: Self::create_body(key, nothing.as_slice(), Operation::Delete),
            sync: self.sync,
        }
    }

    /// Reads the record in a payload.
    pub fn parse_record(payload: &[u8]) -> (r: Result<Record, WalError>)
        ensures
            match r {
                Ok(record) => parsed(payload@) == Ok::<LogRecord, WalError>(record@),
                Err(e) => parsed(payload@) == Err::<LogRecord, WalError>(e),
            },
    {
        match table::read_record(payload, 0) {
            None => Err(WalError::Malformed),
            Some((key, value, op, _)) => match Operation::try_from(op) {
                Ok(operation) => Ok(Record { key, value, operation }),
                Err(e) => Err(e),
            },
        }
    }

    /// The records of a log whose bytes are `contents`.
    pub fn read(contents: &[u8]) -> (r: Result<Vec<Record>, WalError>)
        ensures
            match r {
                Ok(records) => records_from(contents@, 0) == Ok::<Seq<LogRecord>, WalError>(
                    records_view(records@),
                ),
                Err(e) => records_from(contents@, 0) == Err::<Seq<LogRecord>, WalError>(e),
            },
    {
        read_log(contents).0
    }
}

/// How many bytes of a log are whole records. What follows them in a log that can
/// be read is a write that a crash interrupted. It has to be cut off before the
/// log is written to again: a record behind it would not be found.
pub fn intact_len(log: &[u8]) -> (n: usize)
    ensures
        n == intact_end(log@, 0),
        n <= log@.len(),
        records_from(log@, 0) matches Ok(rs) ==> records_from(log@.take(n as int), 0) == Ok::<
            Seq<LogRecord>,
            WalError,
        >(rs) && intact_end(log@.take(n as int), 0) == n,
{
    let n: usize = read_log(log).1;
    proof {
        if let Ok(rs) = records_from(log@, 0) {
            lemma_intact_part(log@, rs);
        }
    }
    n
}

/// The records of a log, and how far they go.
fn read_log(contents: &[u8]) -> (r: (Result<Vec<Record>, WalError>, usize))
    ensures
        match r.0 {
            Ok(records) => records_from(contents@, 0) == Ok::<Seq<LogRecord>, WalError>(
                records_view(records@),
            ),
            Err(e) => records_from(contents@, 0) == Err::<Seq<LogRecord>, WalError>(e),
        },
        r.1 == intact_end(contents@, 0),
        r.1 <= contents@.len(),
{
    let len: usize = contents.len();
    let mut records: Vec<Record> = Vec::new();
    let mut at: usize = 0;
    let ghost goal = records_from(contents@, 0);
    assert(records_view(records@) =~= Seq::<LogRecord>::empty());
    while len - at >= 8
        invariant
            at <= len == contents@.len(),
            goal == records_from(contents@, 0),
            intact_end(contents@, 0) == intact_end(contents@, at as int),
            match records_from(contents@, at as int) {
                Ok(rest) => goal matches Ok(all) && all =~= records_view(records@) + rest,
                Err(e) => goal == Err::<Seq<LogRecord>, WalError>(e),
            },
        decreases len - at,
    {
        let length: u32 = codec::get_u32(contents, at);
        let stored: u32 = codec::get_u32(contents, at + 4);
        if length < CRC_SIZE {
            return (Err(WalError::Malformed), at);
        }
        if length as u64 > (len - at - 4) as u64 {
            assert(goal->Ok_0 =~= records_view(records@));
            return (Ok(records), at);
        }
        let next: usize = at + 4 + length as usize;
        let payload: Vec<u8> = codec::copy_range(contents, at + 8, next);
        let computed: u32 = checksum::checksum(payload.as_slice());
        let record = match accept(payload.as_slice(), stored, computed) {
            Ok(record) => record,
            Err(e) => return (Err(e), at),
        };
        let ghost before = records@;
        let ghost view = record@;
        records.push(record);
        assert(records_view(records@) =~= records_view(before).push(view));
        at = next;
    }
    assert(goal->Ok_0 =~= records_view(records@));
    (Ok(records), at)
}

pub proof fn lemma_payload(r: LogRecord)
    requires
        record_fits(r),
    ensures
        parsed(payload(r)) == Ok::<LogRecord, WalError>(r),
        payload(r).len() == r.key.len() + r.value.len() + 9,
{
    let k = codec::prefixed(r.key);
    let v = codec::prefixed(r.value);
    let o = seq![byte_of(r.operation)];
    codec::lemma_le_bytes_len(r.key.len(), 4);
    codec::lemma_le_bytes_len(r.value.len(), 4);
    codec::lemma_prefixed_roundtrip(Seq::empty(), r.key, v + o);
    assert(Seq::<u8>::empty() + k + (v + o) =~= payload(r));
    codec::lemma_prefixed_roundtrip(k, r.value, o);
    assert(k + v + o =~= payload(r));
}

/// A whole frame is found where it stands.
proof fn lemma_whole_frame(before: Seq<u8>, payload: Seq<u8>, checksum: u32, after: Seq<u8>)
    requires
        payload.len() + CRC_SIZE <= u32::MAX,
    ensures
        frame_bytes(payload, checksum).len() == payload.len() + 8,
        frame_at(before + frame_bytes(payload, checksum) + after, before.len() as int) == Ok::<
            Option<(Seq<u8>, u32, int)>,
            WalError,
        >(Some((payload, checksum, (before.len() + payload.len() + 8) as int))),
{
    let l = codec::le_bytes(CRC_SIZE as nat + payload.len(), 4);
    let x = codec::le_bytes(checksum as nat, 4);
    codec::lemma_pow256_values();
    codec::lemma_le_roundtrip(CRC_SIZE as nat + payload.len(), 4);
    codec::lemma_le_roundtrip(checksum as nat, 4);
    let at = before.len() as int;
    let s = before + frame_bytes(payload, checksum) + after;
    assert(s.subrange(at, at + 4) =~= l);
    assert(s.subrange(at + 4, at + 8) =~= x);
    assert(s.subrange(at + 8, at + 8 + payload.len()) =~= payload);
}

/// A frame that is cut off is none.
proof fn lemma_torn_frame(before: Seq<u8>, payload: Seq<u8>, checksum: u32, n: int)
    requires
        payload.len() + CRC_SIZE <= u32::MAX,
        0 <= n < frame_bytes(payload, checksum).len(),
    ensures
        frame_at(before + frame_bytes(payload, checksum).take(n), before.len() as int) == Ok::<
            Option<(Seq<u8>, u32, int)>,
            WalError,
        >(None),
{
    let l = codec::le_bytes(CRC_SIZE as nat + payload.len(), 4);
    codec::lemma_pow256_values();
    codec::lemma_le_roundtrip(CRC_SIZE as nat + payload.len(), 4);
    codec::lemma_le_bytes_len(checksum as nat, 4);
    let at = before.len() as int;
    if 8 <= n {
        let t = before + frame_bytes(payload, checksum).take(n);
        assert(t.subrange(at, at + 4) =~= l);
    }
}

/// A frame depends on no byte behind it.
proof fn lemma_frame_is_local(s: Seq<u8>, t: Seq<u8>, at: int)
    requires
        frame_at(s, at) matches Ok(Some((payload, stored, next))) && next <= t.len() && s.take(next)
            == t.take(next),
    ensures
        frame_at(t, at) == frame_at(s, at),
{
    let (payload, stored, next) = frame_at(s, at)->Ok_0->Some_0;
    let a = s.take(next);
    let b = t.take(next);
    assert(s.subrange(at, at + 4) =~= a.subrange(at, at + 4));
    assert(t.subrange(at, at + 4) =~= b.subrange(at, at + 4));
    assert(s.subrange(at + 4, at + 8) =~= a.subrange(at + 4, at + 8));
    assert(t.subrange(at + 4, at + 8) =~= b.subrange(at + 4, at + 8));
    assert(s.subrange(at + 8, next) =~= a.subrange(at + 8, next));
    assert(t.subrange(at + 8, next) =~= b.subrange(at + 8, next));
}

/// A frame stands where it stands, whatever comes before.
proof fn lemma_frame_shifts(a: Seq<u8>, b: Seq<u8>, k: int)
    requires
        k >= 0,
    ensures
        frame_at(a + b, a.len() + k) == (match frame_at(b, k) {
            Ok(Some((payload, stored, next))) => Ok(Some((payload, stored, a.len() + next))),
            Ok(None) => Ok(None),
            Err(e) => Err(e),
        }),
{
    let s = a + b;
    let at = a.len() + k;
    if k + 8 <= b.len() {
        assert(s.subrange(at, at + 4) =~= b.subrange(k, k + 4));
        assert(s.subrange(at + 4, at + 8) =~= b.subrange(k + 4, k + 8));
        let length = codec::le_value(b.subrange(k, k + 4));
        if length >= CRC_SIZE && k + 4 + length <= b.len() {
            assert(s.subrange(at + 8, at + 4 + length) =~= b.subrange(k + 8, k + 4 + length));
        }
    }
}

/// Reading on from the end of `a` reads `b`.
proof fn lemma_reading_shifts(a: Seq<u8>, b: Seq<u8>, k: int)
    requires
        0 <= k <= b.len(),
    ensures
        records_from(a + b, a.len() + k) == records_from(b, k),
        intact_end(a + b, a.len() + k) == a.len() + intact_end(b, k),
    decreases b.len() - k,
{
    lemma_frame_shifts(a, b, k);
    if let Ok(Some((payload, stored, next))) = frame_at(b, k) {
        lemma_reading_shifts(a, b, next);
    }
}

/// What was read, followed by what is read behind it.
pub open spec fn followed(
    rs: Seq<LogRecord>,
    more: Result<Seq<LogRecord>, WalError>,
) -> Result<Seq<LogRecord>, WalError> {
    match more {
        Ok(rest) => Ok(rs + rest),
        Err(e) => Err(e),
    }
}

/// The intact part of a log reads the same, whatever follows it.
proof fn lemma_intact(s: Seq<u8>, at: int, rs: Seq<LogRecord>, more: Seq<u8>)
    requires
        0 <= at <= s.len(),
        records_from(s, at) == Ok::<Seq<LogRecord>, WalError>(rs),
    ensures
        at <= intact_end(s, at) <= s.len(),
        ({
            let n = intact_end(s, at);
            let t = s.take(n) + more;
            &&& records_from(t, at) == followed(rs, records_from(t, n))
            &&& intact_end(t, at) == intact_end(t, n)
        }),
    decreases s.len() - at,
{
    let n = intact_end(s, at);
    let t = s.take(n) + more;
    match frame_at(s, at) {
        Ok(Some((payload, stored, next))) => {
            let rest = records_from(s, next)->Ok_0;
            lemma_intact(s, next, rest, more);
            assert(s.take(next) =~= t.take(next));
            lemma_frame_is_local(s, t, at);
            lemma_followed(rs[0], rest, records_from(t, n));
            assert(rs =~= seq![rs[0]] + rest);
        },
        _ => {
            lemma_followed_nothing(records_from(t, n));
        },
    }
}

proof fn lemma_followed(r: LogRecord, rest: Seq<LogRecord>, more: Result<Seq<LogRecord>, WalError>)
    ensures
        followed(seq![r], followed(rest, more)) == followed(seq![r] + rest, more),
{
    if let Ok(all) = more {
        assert(seq![r] + (rest + all) =~= seq![r] + rest + all);
    }
}

proof fn lemma_followed_nothing(more: Result<Seq<LogRecord>, WalError>)
    ensures
        followed(Seq::empty(), more) == more,
{
    if let Ok(all) = more {
        assert(Seq::<LogRecord>::empty() + all =~= all);
    }
}

pub proof fn lemma_intact_part(s: Seq<u8>, rs: Seq<LogRecord>)
    requires
        records_from(s, 0) == Ok::<Seq<LogRecord>, WalError>(rs),
    ensures
        0 <= intact_end(s, 0) <= s.len(),
        records_from(s.take(intact_end(s, 0)), 0) == Ok::<Seq<LogRecord>, WalError>(rs),
        intact_end(s.take(intact_end(s, 0)), 0) == intact_end(s, 0),
{
    let n = intact_end(s, 0);
    lemma_intact(s, 0, rs, Seq::empty());
    assert(s.take(n) + Seq::<u8>::empty() =~= s.take(n));
    assert(rs + Seq::<LogRecord>::empty() =~= rs);
}

/// A log that holds whole records and nothing else.
pub open spec fn whole(log: Seq<u8>, rs: Seq<LogRecord>) -> bool {
    &&& records_from(log, 0) == Ok::<Seq<LogRecord>, WalError>(rs)
    &&& intact_end(log, 0) == log.len()
}

/// Behind whole records a log reads on as if it began there.
pub proof fn reading_goes_on_behind_whole_records(
    log: Seq<u8>,
    rs: Seq<LogRecord>,
    more: Seq<u8>,
)
    requires
        whole(log, rs),
    ensures
        records_from(log + more, 0) == followed(rs, records_from(more, 0)),
        intact_end(log + more, 0) == log.len() + intact_end(more, 0),
{
    lemma_intact(log, 0, rs, more);
    assert(log.take(log.len() as int) =~= log);
    lemma_reading_shifts(log, more, 0);
}

/// One record by itself, and one that is cut off.
proof fn lemma_one_record(r: LogRecord, n: int)
    requires
        record_fits(r),
        0 <= n < body(r).len(),
    ensures
        whole(body(r), seq![r]),
        whole_prefix_is_empty(body(r).take(n)),
{
    let p = payload(r);
    let c = checksum::crc32(p);
    lemma_payload(r);
    lemma_whole_frame(Seq::empty(), p, c, Seq::empty());
    assert(Seq::<u8>::empty() + body(r) + Seq::<u8>::empty() =~= body(r));
    lemma_torn_frame(Seq::empty(), p, c, n);
    assert(Seq::<u8>::empty() + body(r).take(n) =~= body(r).take(n));
    assert(records_from(body(r), body(r).len() as int) == Ok::<Seq<LogRecord>, WalError>(
        Seq::empty(),
    ));
    assert(intact_end(body(r), body(r).len() as int) == body(r).len());
    assert(seq![r] + Seq::<LogRecord>::empty() =~= seq![r]);
}

/// Not a single whole record.
spec fn whole_prefix_is_empty(s: Seq<u8>) -> bool {
    &&& records_from(s, 0) == Ok::<Seq<LogRecord>, WalError>(Seq::empty())
    &&& intact_end(s, 0) == 0
}

/// A record that is appended to whole records is read back behind them.
pub proof fn an_appended_record_is_read_back(log: Seq<u8>, rs: Seq<LogRecord>, r: LogRecord)
    requires
        whole(log, rs),
        record_fits(r),
    ensures
        whole(log + body(r), rs.push(r)),
{
    lemma_payload(r);
    codec::lemma_le_bytes_len(CRC_SIZE as nat + payload(r).len(), 4);
    lemma_one_record(r, 0);
    reading_goes_on_behind_whole_records(log, rs, body(r));
    assert(rs + seq![r] =~= rs.push(r));
}

/// Once a torn tail has been cut off, the next record that is appended is read
/// back behind all that was recovered.
pub proof fn a_write_after_recovery_is_kept(log: Seq<u8>, rs: Seq<LogRecord>, r: LogRecord)
    requires
        records_from(log, 0) == Ok::<Seq<LogRecord>, WalError>(rs),
        record_fits(r),
    ensures
        records_from(log.take(intact_end(log, 0)) + body(r), 0) == Ok::<Seq<LogRecord>, WalError>(
            rs.push(r),
        ),
        whole(log.take(intact_end(log, 0)) + body(r), rs.push(r)),
{
    lemma_intact_part(log, rs);
    an_appended_record_is_read_back(log.take(intact_end(log, 0)), rs, r);
}

/// Reading a log gives back the records that were appended to it.
pub proof fn log_reads_back(rs: Seq<LogRecord>)
    requires
        records_fit(rs),
    ensures
        records_from(log_bytes(rs), 0) == Ok::<Seq<LogRecord>, WalError>(rs),
        whole(log_bytes(rs), rs),
    decreases rs.len(),
{
    if rs.len() == 0 {
        assert(rs =~= Seq::<LogRecord>::empty());
    } else {
        let before = rs.drop_last();
        assert forall|i: int| 0 <= i < before.len() implies record_fits(#[trigger] before[i]) by {
            assert(record_fits(rs[i]));
        }
        log_reads_back(before);
        assert(record_fits(rs[rs.len() - 1]));
        an_appended_record_is_read_back(log_bytes(before), before, rs.last());
        assert(before.push(rs.last()) =~= rs);
    }
}

/// A crash in the middle of an append loses that record and nothing else, and
/// the part of the log that is kept is what it was before.
pub proof fn torn_write_is_recovered(log: Seq<u8>, rs: Seq<LogRecord>, torn: LogRecord, n: int)
    requires
        whole(log, rs),
        record_fits(torn),
        0 <= n < body(torn).len(),
    ensures
        records_from(log + body(torn).take(n), 0) == Ok::<Seq<LogRecord>, WalError>(rs),
        intact_end(log + body(torn).take(n), 0) == log.len(),
        (log + body(torn).take(n)).take(intact_end(log + body(torn).take(n), 0)) == log,
{
    let tail = body(torn).take(n);
    lemma_one_record(torn, n);
    reading_goes_on_behind_whole_records(log, rs, tail);
    assert(rs + Seq::<LogRecord>::empty() =~= rs);
    assert((log + tail).take(log.len() as int) =~= log);
}

/// Of a log that was written record by record, with a torn write at its end, the
/// whole records are what is kept.
pub proof fn the_intact_part_is_what_was_written(rs: Seq<LogRecord>, torn: LogRecord, n: int)
    requires
        records_fit(rs),
        record_fits(torn),
        0 <= n < body(torn).len(),
    ensures
        ({
            let log = log_bytes(rs) + body(torn).take(n);
            &&& records_from(log, 0) == Ok::<Seq<LogRecord>, WalError>(rs)
            &&& log.take(intact_end(log, 0)) == log_bytes(rs)
        }),
{
    log_reads_back(rs);
    torn_write_is_recovered(log_bytes(rs), rs, torn, n);
}

/// A whole record whose payload does not match its checksum is an error, not the
/// end of the log.
pub proof fn corruption_is_reported(
    log: Seq<u8>,
    rs: Seq<LogRecord>,
    payload: Seq<u8>,
    stored: u32,
    after: Seq<u8>,
)
    requires
        whole(log, rs),
        payload.len() + CRC_SIZE <= u32::MAX,
        checksum::crc32(payload) != stored,
    ensures
        records_from(log + (frame_bytes(payload, stored) + after), 0) == Err::<
            Seq<LogRecord>,
            WalError,
        >(WalError::ChecksumMismatch),
{
    let bad = frame_bytes(payload, stored) + after;
    lemma_whole_frame(Seq::empty(), payload, stored, after);
    assert(Seq::<u8>::empty() + frame_bytes(payload, stored) + after =~= bad);
    reading_goes_on_behind_whole_records(log, rs, bad);
}

/// A record in which one byte of the payload was changed is never taken for a
/// record.
pub proof fn one_damaged_byte_is_reported(
    log: Seq<u8>,
    rs: Seq<LogRecord>,
    r: LogRecord,
    damaged: Seq<u8>,
    at: int,
    after: Seq<u8>,
)
    requires
        whole(log, rs),
        record_fits(r),
        damaged.len() == payload(r).len(),
        0 <= at < damaged.len(),
        damaged[at] != payload(r)[at],
        forall|i: int| 0 <= i < damaged.len() && i != at ==> damaged[i] == payload(r)[i],
    ensures
        records_from(
            log + (frame_bytes(damaged, checksum::crc32(payload(r))) + after),
            0,
        ) == Err::<Seq<LogRecord>, WalError>(WalError::ChecksumMismatch),
{
    lemma_payload(r);
    checksum::one_changed_byte_changes_the_checksum(damaged, payload(r), at);
    corruption_is_reported(log, rs, damaged, checksum::crc32(payload(r)), after);
}

pub proof fn lemma_records_size_push(rs: Seq<LogRecord>, r: LogRecord)
    ensures
        records_size(rs.push(r)) == records_size(rs) + r.key.len() + r.value.len(),
{
    assert(rs.push(r).drop_last() =~= rs);
}

proof fn lemma_records_size_front(rs: Seq<LogRecord>)
    requires
        rs.len() > 0,
    ensures
        records_size(rs) == rs[0].key.len() + rs[0].value.len() + records_size(rs.skip(1)),
    decreases rs.len(),
{
    if rs.len() == 1 {
        assert(rs.drop_last() =~= Seq::<LogRecord>::empty());
        assert(rs.skip(1) =~= Seq::<LogRecord>::empty());
    } else {
        lemma_records_size_front(rs.drop_last());
        assert(rs.drop_last().skip(1) =~= rs.skip(1).drop_last());
    }
}

/// A log is at least as long as the keys and values it holds.
pub proof fn lemma_records_size_bound(s: Seq<u8>, at: int, rs: Seq<LogRecord>)
    requires
        0 <= at <= s.len(),
        records_from(s, at) == Ok::<Seq<LogRecord>, WalError>(rs),
    ensures
        records_size(rs) <= s.len() - at,
    decreases s.len() - at,
{
    if let Ok(Some((payload, stored, next))) = frame_at(s, at) {
        let rest = records_from(s, next)->Ok_0;
        lemma_records_size_bound(s, next, rest);
        lemma_records_size_front(rs);
        assert(rs.skip(1) =~= rest);
        assert(rs[0].key.len() + rs[0].value.len() <= payload.len());
    }
}

/// A record in the log, byte by byte: the length of what follows, the checksum of
/// the payload, and the payload, which is the key and the value behind their
/// lengths, whole, and a byte for the operation.
pub proof fn a_record_in_the_log(key: Seq<u8>, value: Seq<u8>)
    ensures
        ({
            let p = codec::le_bytes(key.len(), 4) + key + codec::le_bytes(value.len(), 4) + value
                + seq![0u8];
            body(record_of((key, Some(value)))) == codec::le_bytes(4 + p.len(), 4)
                + codec::le_bytes(checksum::crc32(p) as nat, 4) + p
        }),
        ({
            let p = codec::le_bytes(key.len(), 4) + key + codec::le_bytes(0, 4) + seq![1u8];
            body(record_of((key, None))) == codec::le_bytes(4 + p.len(), 4) + codec::le_bytes(
                checksum::crc32(p) as nat,
                4,
            ) + p
        }),
{
    let nothing = Seq::<u8>::empty();
    let put = codec::le_bytes(key.len(), 4) + key + codec::le_bytes(value.len(), 4) + value + seq![
        0u8,
    ];
    assert(payload(record_of((key, Some(value)))) =~= put);
    let del = codec::le_bytes(key.len(), 4) + key + codec::le_bytes(0, 4) + seq![1u8];
    assert(payload(record_of((key, None))) =~= del);
}

/// The record of an entry makes that entry again, and a record of a deletion is
/// told from one that sets an empty value.
pub proof fn records_and_entries_stand_for_each_other(e: Entry)
    ensures
        entry_of(record_of(e)) == e,
        record_of(e).key == e.0,
        e.1 matches Some(v) ==> record_of(e).operation == Operation::Insert && record_of(e).value
            == v,
        e.1 is None ==> record_of(e).operation == Operation::Delete && record_of(e).value.len() == 0,
{
}

/// What is shown of records is what they hold, and the entries they make are in
/// their order.
pub proof fn records_are_shown_whole(rs: Seq<Record>, i: int)
    requires
        0 <= i < rs.len(),
    ensures
        records_view(rs).len() == rs.len(),
        records_view(rs)[i] == (LogRecord {
            key: rs[i].key@,
            value: rs[i].value@,
            operation: rs[i].operation,
        }),
        entries_of(records_view(rs)).len() == rs.len(),
        entries_of(records_view(rs))[i].0 == rs[i].key@,
        entries_of(records_view(rs))[i].1 == (match rs[i].operation {
            Operation::Insert => Some(rs[i].value@),
            Operation::Delete => None,
        }),
{
}

/// A payload is read as the key and the value that stand in it, whole, and its
/// operation by the byte behind them: zero sets, one deletes, and any other is an
/// error. More bytes behind it change nothing.
pub proof fn a_payload_is_read_field_by_field(
    key: Seq<u8>,
    value: Seq<u8>,
    op: u8,
    more: Seq<u8>,
    checksum: u32,
)
    requires
        key.len() <= u32::MAX,
        value.len() <= u32::MAX,
    ensures
        ({
            let p = codec::le_bytes(key.len(), 4) + key + codec::le_bytes(value.len(), 4) + value
                + seq![op] + more;
            accepted(p, checksum, checksum) == (if op == 0 {
                Ok(LogRecord { key, value, operation: Operation::Insert })
            } else if op == 1 {
                Ok(LogRecord { key, value, operation: Operation::Delete })
            } else {
                Err(WalError::InvalidOperation)
            })
        }),
        byte_of(Operation::Insert) == 0,
        byte_of(Operation::Delete) == 1,
{
    let none = Seq::<u8>::empty();
    let k = codec::prefixed(key);
    let v = codec::prefixed(value);
    let p = codec::le_bytes(key.len(), 4) + key + codec::le_bytes(value.len(), 4) + value + seq![op]
        + more;
    codec::lemma_prefixed_roundtrip(none, key, v + seq![op] + more);
    assert(none + k + (v + seq![op] + more) =~= p);
    codec::lemma_prefixed_roundtrip(k, value, seq![op] + more);
    assert(k + v + (seq![op] + more) =~= p);
    assert(p[(k.len() + v.len()) as int] == op);
}

/// A record whose checksum does not match is refused, whatever it holds.
pub proof fn a_wrong_checksum_is_refused(p: Seq<u8>, stored: u32, computed: u32)
    requires
        stored != computed,
    ensures
        accepted(p, stored, computed) == Err::<LogRecord, WalError>(WalError::ChecksumMismatch),
{
}

/// A record counts as many bytes as its key and its value have.
pub proof fn records_count_their_keys_and_values(rs: Seq<LogRecord>, r: LogRecord)
    ensures
        records_size(Seq::empty()) == 0,
        records_size(rs.push(r)) == records_size(rs) + r.key.len() + r.value.len(),
{
    lemma_records_size_push(rs, r);
}

} // verus!
