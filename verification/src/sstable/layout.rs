//! The file format of a table:
//! `[records][sparse index][bloom filter][metadata][trailer]`.
//!
//! A record is `[key_len: u32][key][value_len: u32][value][op: u8]`, an index
//! entry `[key_len: u32][key][offset: u64]`, the filter
//! `[num_bits: u64][num_probes: u32][words: u64...]`, the metadata the smallest
//! and the largest key behind their lengths, and the trailer the positions of
//! index, filter and metadata followed by a magic number and a version.
use crate::bloom;
use crate::codec;
use crate::entries::Entry;
use crate::hash;
use crate::order;
use crate::text;
use vstd::prelude::*;

verus! {

/// Records are indexed once per this many bytes.
pub const BLOCK_SIZE: usize = 4096;

pub const FORMAT_VERSION: u8 = 1;

pub const TRAILER_SIZE: usize = 32;

/// The operation byte of a record that holds a value.
pub const OP_VALUE: u8 = 0;

/// The operation byte of a deletion.
pub const OP_TOMBSTONE: u8 = 1;

/// `LSMRS` and a zero byte.
pub open spec fn magic() -> Seq<u8> {
    seq![0x4cu8, 0x53u8, 0x4du8, 0x52u8, 0x53u8, 0u8]
}

/// Why a table could not be read.
#[derive(Clone, Copy, Debug, PartialEq, Eq, Structural)]
pub enum TableError {
    /// The file is too short to hold a trailer.
    TooShort,
    /// The magic number is missing.
    NotATable,
    /// The file has another format version.
    WrongVersion(u8),
    /// The bytes end in the middle of a field.
    Truncated,
    /// A record has an operation byte that is neither value nor deletion.
    InvalidOperation,
    /// The index names a block that ends before it starts.
    InvalidIndex,
    /// The bloom filter has no bits, or fewer than it claims, and was asked for one
    /// that is missing.
    InvalidFilter,
}

/// An error about the file at `path`, in words.
pub open spec fn error_text(e: TableError, path: Seq<u8>) -> Seq<u8> {
    match e {
        TableError::TooShort => path + text::utf8(" is too short to be an SSTable"@),
        TableError::NotATable => path + text::utf8(" is not an lsmrs SSTable"@),
        TableError::WrongVersion(v) => path + text::utf8(" has SSTable format version "@)
            + text::decimal(v as nat) + text::utf8(", expected "@) + text::decimal(
            FORMAT_VERSION as nat,
        ),
        TableError::Truncated => path + text::utf8(" ends in the middle of a field"@),
        TableError::InvalidOperation => text::utf8("invalid op_type byte in SSTable record"@),
        TableError::InvalidIndex => path + text::utf8(" has a block that ends before it starts"@),
        TableError::InvalidFilter => path + text::utf8(" has an unusable bloom filter"@),
    }
}

impl TableError {
    /// The error in words, as bytes: a path need not be text.
    pub fn describe(&self, path: &[u8]) -> (r: Vec<u8>)
        ensures
            r@ == error_text(*self, path@),
    {
        let mut r: Vec<u8> = vstd::slice::slice_to_vec(path);
        match self {
            TableError::TooShort => {
                codec::put_bytes(&mut r, " is too short to be an SSTable".as_bytes());
            },
            TableError::NotATable => {
                codec::put_bytes(&mut r, " is not an lsmrs SSTable".as_bytes());
            },
            TableError::WrongVersion(v) => {
                codec::put_bytes(&mut r, " has SSTable format version ".as_bytes());
                text::put_decimal(&mut r, *v as u64);
                codec::put_bytes(&mut r, ", expected ".as_bytes());
                text::put_decimal(&mut r, FORMAT_VERSION as u64);
            },
            TableError::Truncated => {
                codec::put_bytes(&mut r, " ends in the middle of a field".as_bytes());
            },
            TableError::InvalidOperation => {
                r = vstd::slice::slice_to_vec("invalid op_type byte in SSTable record".as_bytes());
            },
            TableError::InvalidIndex => {
                codec::put_bytes(&mut r, " has a block that ends before it starts".as_bytes());
            },
            TableError::InvalidFilter => {
                codec::put_bytes(&mut r, " has an unusable bloom filter".as_bytes());
            },
        }
        r
    }
}

// ---------------------------------------------------------------- records

/// The bytes stored for a value; a deletion stores none.
pub open spec fn value_bytes(v: Option<Seq<u8>>) -> Seq<u8> {
    match v {
        Some(bytes) => bytes,
        None => Seq::empty(),
    }
}

pub open spec fn op_byte(v: Option<Seq<u8>>) -> u8 {
    match v {
        Some(_) => OP_VALUE,
        None => OP_TOMBSTONE,
    }
}

/// One record.
pub open spec fn record_bytes(e: Entry) -> Seq<u8> {
    codec::prefixed(e.0) + codec::prefixed(value_bytes(e.1)) + seq![op_byte(e.1)]
}

/// All records, one behind the other.
pub open spec fn records_bytes(es: Seq<Entry>) -> Seq<u8>
    decreases es.len(),
{
    if es.len() == 0 {
        Seq::empty()
    } else {
        records_bytes(es.drop_last()) + record_bytes(es.last())
    }
}

/// A record as it stands in the file: key, value bytes, operation byte.
pub struct RawRecord {
    pub key: Seq<u8>,
    pub value: Seq<u8>,
    pub op: u8,
}

/// The record that starts at `at` and the position behind it, or nothing where
/// `s` ends first.
pub open spec fn record_at(s: Seq<u8>, at: int) -> Option<(RawRecord, int)> {
    match codec::prefixed_at(s, at) {
        None => None,
        Some((key, p)) => match codec::prefixed_at(s, p) {
            None => None,
            Some((value, q)) => if q < s.len() {
                Some((RawRecord { key, value, op: s[q] }, q + 1))
            } else {
                None
            },
        },
    }
}

/// What a record says about its key, or nothing where its operation byte is
/// not known.
pub open spec fn raw_value(r: RawRecord) -> Option<Option<Seq<u8>>> {
    if r.op == OP_VALUE {
        Some(Some(r.value))
    } else if r.op == OP_TOMBSTONE {
        Some(None)
    } else {
        None
    }
}

/// All entries in `s` from `at` on.
pub open spec fn entries_from(s: Seq<u8>, at: int) -> Result<Seq<Entry>, TableError>
    decreases s.len() - at,
{
    if at < 0 || at >= s.len() {
        Ok(Seq::empty())
    } else {
        match record_at(s, at) {
            None => Err(TableError::Truncated),
            Some((r, next)) => match raw_value(r) {
                None => Err(TableError::InvalidOperation),
                Some(v) => match entries_from(s, next) {
                    Err(e) => Err(e),
                    Ok(rest) => Ok(seq![(r.key, v)] + rest),
                },
            },
        }
    }
}

/// The answer of a block for `key`: records are read in turn until one with
/// this key or a later key is reached.
pub open spec fn scan_from(s: Seq<u8>, at: int, key: Seq<u8>) -> Result<
    Option<Option<Seq<u8>>>,
    TableError,
>
    decreases s.len() - at,
{
    if at < 0 || at >= s.len() {
        Ok(None)
    } else {
        match record_at(s, at) {
            None => Err(TableError::Truncated),
            Some((r, next)) => if order::lex_lt(r.key, key) {
                scan_from(s, next, key)
            } else if r.key != key {
                Ok(None)
            } else {
                match raw_value(r) {
                    None => Err(TableError::InvalidOperation),
                    Some(v) => Ok(Some(v)),
                }
            },
        }
    }
}

// ------------------------------------------------------------ sparse index

/// A key and the position of its record.
pub type IndexEntry = (Seq<u8>, nat);

/// Where the current block begins once `es` have been written: a block ends
/// behind the record that fills it.
pub open spec fn block_start(es: Seq<Entry>) -> nat
    decreases es.len(),
{
    if es.len() == 0 {
        0
    } else {
        let begun = block_start(es.drop_last());
        let end = records_bytes(es).len();
        if end - begun >= BLOCK_SIZE {
            end
        } else {
            begun
        }
    }
}

/// One index entry for the first record of each block.
pub open spec fn index_entries(es: Seq<Entry>) -> Seq<IndexEntry>
    decreases es.len(),
{
    if es.len() == 0 {
        Seq::empty()
    } else {
        let before = es.drop_last();
        let at = records_bytes(before).len();
        if at == block_start(before) {
            index_entries(before).push((es.last().0, at))
        } else {
            index_entries(before)
        }
    }
}

pub open spec fn index_entry_bytes(e: IndexEntry) -> Seq<u8> {
    codec::prefixed(e.0) + codec::le_bytes(e.1, 8)
}

pub open spec fn index_bytes(index: Seq<IndexEntry>) -> Seq<u8>
    decreases index.len(),
{
    if index.len() == 0 {
        Seq::empty()
    } else {
        index_bytes(index.drop_last()) + index_entry_bytes(index.last())
    }
}

/// The index entries in `s` from `at` up to `end`.
pub open spec fn index_from(s: Seq<u8>, at: int, end: int) -> Result<Seq<IndexEntry>, TableError>
    decreases s.len() - at,
{
    if at >= end {
        Ok(Seq::empty())
    } else {
        match codec::prefixed_at(s, at) {
            None => Err(TableError::Truncated),
            Some((key, p)) => if p + 8 > s.len() {
                Err(TableError::Truncated)
            } else {
                match index_from(s, p + 8, end) {
                    Err(e) => Err(e),
                    Ok(rest) => Ok(seq![(key, codec::le_value(s.subrange(p, p + 8)))] + rest),
                }
            },
        }
    }
}

// ------------------------------------------------------------------ filter

/// The words of a filter that all keys of `es` have been inserted into.
pub open spec fn filter_words(es: Seq<Entry>, empty: Seq<u64>, num_bits: u64, num_probes: u32) -> Seq<u64>
    decreases es.len(),
{
    if es.len() == 0 {
        empty
    } else {
        bloom::with_probes(
            filter_words(es.drop_last(), empty, num_bits, num_probes),
            hash::spec_hash64(es.last().0),
            num_bits,
            num_probes as nat,
        )
    }
}

pub open spec fn words_bytes(words: Seq<u64>) -> Seq<u8>
    decreases words.len(),
{
    if words.len() == 0 {
        Seq::empty()
    } else {
        words_bytes(words.drop_last()) + codec::le_bytes(words.last() as nat, 8)
    }
}

pub open spec fn filter_bytes(words: Seq<u64>, num_bits: u64, num_probes: u32) -> Seq<u8> {
    codec::le_bytes(num_bits as nat, 8) + codec::le_bytes(num_probes as nat, 4) + words_bytes(words)
}

/// The `n` words that start at `at`.
pub open spec fn words_at(s: Seq<u8>, at: int, n: nat) -> Seq<u64> {
    Seq::new(n, |i: int| codec::le_value(s.subrange(at + 8 * i, at + 8 * i + 8)) as u64)
}

// -------------------------------------------------------------- whole file

/// All that a table keeps in memory.
#[verifier::ext_equal]
pub struct TableParts {
    pub index: Seq<IndexEntry>,
    pub index_start: nat,
    pub min_key: Seq<u8>,
    pub max_key: Seq<u8>,
    pub words: Seq<u64>,
    pub num_bits: u64,
    pub num_probes: u32,
}

/// The parts of the table that holds `es`.
pub open spec fn parts_of(es: Seq<Entry>, bits_per_key: nat) -> TableParts {
    let n = bloom::words_for(es.len(), bits_per_key);
    let num_bits = (64 * n) as u64;
    let num_probes = bloom::probes_for(bits_per_key) as u32;
    TableParts {
        index: index_entries(es),
        index_start: records_bytes(es).len(),
        min_key: if es.len() == 0 {
            Seq::empty()
        } else {
            es[0].0
        },
        max_key: if es.len() == 0 {
            Seq::empty()
        } else {
            es.last().0
        },
        words: filter_words(es, Seq::new(n, |i: int| 0u64), num_bits, num_probes),
        num_bits,
        num_probes,
    }
}

pub open spec fn trailer_bytes(index_start: nat, filter_start: nat, meta_start: nat) -> Seq<u8> {
    codec::le_bytes(index_start, 8) + codec::le_bytes(filter_start, 8) + codec::le_bytes(
        meta_start,
        8,
    ) + magic() + seq![FORMAT_VERSION, 0u8]
}

/// Everything behind the records.
pub open spec fn tail_bytes(p: TableParts) -> Seq<u8> {
    let filter_start = p.index_start + index_bytes(p.index).len();
    let filter = filter_bytes(p.words, p.num_bits, p.num_probes);
    let meta_start = filter_start + filter.len();
    index_bytes(p.index) + filter + (codec::prefixed(p.min_key) + codec::prefixed(p.max_key))
        + trailer_bytes(p.index_start, filter_start, meta_start)
}

/// The whole file of the table that holds `es`.
pub open spec fn table_bytes(es: Seq<Entry>, bits_per_key: nat) -> Seq<u8> {
    records_bytes(es) + tail_bytes(parts_of(es, bits_per_key))
}

/// What a file says of itself: the checks and fields in the order in which
/// they are read.
pub open spec fn parse_table(s: Seq<u8>) -> Result<TableParts, TableError> {
    let t = s.len() - TRAILER_SIZE;
    if t < 0 {
        Err(TableError::TooShort)
    } else if s.subrange(t + 24, t + 30) != magic() {
        Err(TableError::NotATable)
    } else if s[t + 30] != FORMAT_VERSION {
        Err(TableError::WrongVersion(s[t + 30]))
    } else {
        let index_start = codec::le_value(s.subrange(t, t + 8));
        let filter_start = codec::le_value(s.subrange(t + 8, t + 16)) as int;
        let meta_start = codec::le_value(s.subrange(t + 16, t + 24));
        match codec::prefixed_at(s, meta_start as int) {
            None => Err(TableError::Truncated),
            Some((min_key, p)) => match codec::prefixed_at(s, p) {
                None => Err(TableError::Truncated),
                Some((max_key, _)) => if filter_start + 12 > s.len() {
                    Err(TableError::Truncated)
                } else {
                    let num_bits = codec::le_value(
                        s.subrange(filter_start, filter_start + 8),
                    );
                    let num_probes = codec::le_value(
                        s.subrange(filter_start + 8, filter_start + 12),
                    );
                    let n = num_bits / 64;
                    if filter_start + 12 + 8 * n > s.len() {
                        Err(TableError::Truncated)
                    } else {
                        match index_from(s, index_start as int, filter_start) {
                            Err(e) => Err(e),
                            Ok(index) => Ok(
                                TableParts {
                                    index,
                                    index_start,
                                    min_key,
                                    max_key,
                                    words: words_at(s, filter_start + 12, n),
                                    num_bits: num_bits as u64,
                                    num_probes: num_probes as u32,
                                },
                            ),
                        }
                    }
                },
            },
        }
    }
}

// --------------------------------------------------------------------- laws

/// A record in a table, byte by byte: the key and the value behind their lengths,
/// whole, and a byte that tells a value from a deletion.
pub proof fn a_record_in_a_table(es: Seq<Entry>, key: Seq<u8>, value: Seq<u8>)
    ensures
        records_bytes(Seq::empty()) == Seq::<u8>::empty(),
        records_bytes(es.push((key, Some(value)))) == records_bytes(es) + (codec::le_bytes(
            key.len(),
            4,
        ) + key + codec::le_bytes(value.len(), 4) + value + seq![0u8]),
        records_bytes(es.push((key, None))) == records_bytes(es) + (codec::le_bytes(key.len(), 4)
            + key + codec::le_bytes(0, 4) + seq![1u8]),
{
    let put = es.push((key, Some(value)));
    let del = es.push((key, None::<Seq<u8>>));
    assert(put.drop_last() =~= es);
    assert(del.drop_last() =~= es);
    assert(record_bytes((key, Some(value))) =~= codec::le_bytes(key.len(), 4) + key
        + codec::le_bytes(value.len(), 4) + value + seq![0u8]);
    assert(record_bytes((key, None)) =~= codec::le_bytes(key.len(), 4) + key + codec::le_bytes(0, 4)
        + seq![1u8]);
}

/// Where the current block begins, as the index has it.
proof fn lemma_block_start(es: Seq<Entry>)
    ensures
        block_start(es) <= records_bytes(es).len(),
        es.len() > 0 ==> index_entries(es).len() > 0,
        es.len() > 0 ==> index_entries(es).last().1 <= records_bytes(es).len(),
        es.len() > 0 ==> (block_start(es) == records_bytes(es).len() <==> records_bytes(es).len()
            - index_entries(es).last().1 >= 4096),
        es.len() > 0 && block_start(es) < records_bytes(es).len() ==> block_start(es)
            == index_entries(es).last().1,
        es.len() == 0 ==> block_start(es) == 0,
    decreases es.len(),
{
    if es.len() > 0 {
        let before = es.drop_last();
        lemma_block_start(before);
        assert(record_bytes(es.last()).len() >= 1);
        assert(records_bytes(es).len() == records_bytes(before).len() + record_bytes(
            es.last(),
        ).len());
    }
}

/// A record gets an index entry if it is the first, or if the records since the
/// last one that has an entry fill 4096 bytes or more. The entry is its key and
/// its position.
pub proof fn every_block_has_an_index_entry(es: Seq<Entry>, e: Entry)
    ensures
        index_entries(Seq::empty()) == Seq::<IndexEntry>::empty(),
        index_entries(es.push(e)) == (if es.len() == 0 || records_bytes(es).len()
            - index_entries(es).last().1 >= 4096 {
            index_entries(es).push((e.0, records_bytes(es).len()))
        } else {
            index_entries(es)
        }),
{
    assert(es.push(e).drop_last() =~= es);
    lemma_block_start(es);
}

/// What a table keeps in memory: the smallest and the largest key are the first
/// and the last, and the filter has the size that its keys ask for.
pub proof fn the_parts_of_a_table(es: Seq<Entry>, bits_per_key: nat)
    requires
        es.len() > 0,
        64 * bloom::words_for(es.len(), bits_per_key) <= u64::MAX,
    ensures
        parts_of(es, bits_per_key).min_key == es[0].0,
        parts_of(es, bits_per_key).max_key == es[es.len() - 1].0,
        parts_of(es, bits_per_key).index == index_entries(es),
        parts_of(es, bits_per_key).index_start == records_bytes(es).len(),
        parts_of(es, bits_per_key).num_bits == 64 * bloom::words_for(es.len(), bits_per_key),
        parts_of(es, bits_per_key).num_probes == bloom::probes_for(bits_per_key),
{
    bloom::probes_are_nearest_to_the_best(bits_per_key);
}

/// The whole file, byte by byte: the records, the index, the filter, the smallest
/// and the largest key, the positions of these parts, the magic number and the
/// version.
pub proof fn a_table_file(es: Seq<Entry>, bits_per_key: nat)
    ensures
        ({
            let p = parts_of(es, bits_per_key);
            let records = records_bytes(es);
            let index = index_bytes(p.index);
            let filter = codec::le_bytes(p.num_bits as nat, 8) + codec::le_bytes(
                p.num_probes as nat,
                4,
            ) + words_bytes(p.words);
            let keys = codec::le_bytes(p.min_key.len(), 4) + p.min_key + codec::le_bytes(
                p.max_key.len(),
                4,
            ) + p.max_key;
            table_bytes(es, bits_per_key) == records + index + filter + keys + codec::le_bytes(
                records.len(),
                8,
            ) + codec::le_bytes(records.len() + index.len(), 8) + codec::le_bytes(
                records.len() + index.len() + filter.len(),
                8,
            ) + seq![0x4cu8, 0x53u8, 0x4du8, 0x52u8, 0x53u8, 0u8, 1u8, 0u8]
        }),
{
    let p = parts_of(es, bits_per_key);
    let records = records_bytes(es);
    let index = index_bytes(p.index);
    let filter = filter_bytes(p.words, p.num_bits, p.num_probes);
    let keys = codec::le_bytes(p.min_key.len(), 4) + p.min_key + codec::le_bytes(p.max_key.len(), 4)
        + p.max_key;
    assert(codec::prefixed(p.min_key) + codec::prefixed(p.max_key) =~= keys);
    let a = codec::le_bytes(records.len(), 8);
    let b = codec::le_bytes(records.len() + index.len(), 8);
    let c = codec::le_bytes(records.len() + index.len() + filter.len(), 8);
    let end = seq![0x4cu8, 0x53u8, 0x4du8, 0x52u8, 0x53u8, 0u8, 1u8, 0u8];
    assert(magic() + seq![1u8, 0u8] =~= end);
    lemma_grouped(records, index, filter, keys, a, b, c, magic(), seq![1u8, 0u8]);
}

proof fn lemma_grouped(
    r: Seq<u8>,
    i: Seq<u8>,
    f: Seq<u8>,
    k: Seq<u8>,
    a: Seq<u8>,
    b: Seq<u8>,
    c: Seq<u8>,
    m: Seq<u8>,
    v: Seq<u8>,
)
    ensures
        r + (i + f + k + (a + b + c + m + v)) == r + i + f + k + a + b + c + (m + v),
{
    assert(r + (i + f + k + (a + b + c + m + v)) =~= r + i + f + k + a + b + c + (m + v));
}

/// An index and a filter in a file: each entry is a key behind its length and a
/// position, and each word is eight bytes.
pub proof fn index_entries_and_words_in_a_file(
    index: Seq<IndexEntry>,
    key: Seq<u8>,
    at: nat,
    words: Seq<u64>,
    word: u64,
)
    ensures
        index_bytes(Seq::empty()) == Seq::<u8>::empty(),
        index_bytes(index.push((key, at))) == index_bytes(index) + (codec::le_bytes(key.len(), 4)
            + key + codec::le_bytes(at, 8)),
        words_bytes(Seq::empty()) == Seq::<u8>::empty(),
        words_bytes(words.push(word)) == words_bytes(words) + codec::le_bytes(word as nat, 8),
{
    assert(index.push((key, at)).drop_last() =~= index);
    assert(words.push(word).drop_last() =~= words);
}

/// A file that is too short, that has another magic number, or that has another
/// version is refused, and the first of these is what is said.
pub proof fn foreign_files_are_refused(s: Seq<u8>)
    ensures
        s.len() < 32 <==> parse_table(s) == Err::<TableParts, TableError>(TableError::TooShort),
        s.len() >= 32 && s.subrange(s.len() - 8, s.len() - 2) != seq![
            0x4cu8,
            0x53u8,
            0x4du8,
            0x52u8,
            0x53u8,
            0u8,
        ] <==> parse_table(s) == Err::<TableParts, TableError>(TableError::NotATable),
        s.len() >= 32 && s.subrange(s.len() - 8, s.len() - 2) == seq![
            0x4cu8,
            0x53u8,
            0x4du8,
            0x52u8,
            0x53u8,
            0u8,
        ] && s[s.len() - 2] != 1 ==> parse_table(s) == Err::<TableParts, TableError>(
            TableError::WrongVersion(s[s.len() - 2]),
        ),
{
    if s.len() >= 32 {
        let t = s.len() - TRAILER_SIZE;
        let index_start = codec::le_value(s.subrange(t, t + 8)) as int;
        let filter_start = codec::le_value(s.subrange(t + 8, t + 16)) as int;
        lemma_index_errors(s, index_start, filter_start);
    }
}

proof fn lemma_index_errors(s: Seq<u8>, at: int, end: int)
    ensures
        index_from(s, at, end) matches Err(e) ==> e == TableError::Truncated,
    decreases s.len() - at,
{
    if at < end {
        match codec::prefixed_at(s, at) {
            None => {},
            Some((key, p)) => {
                if p + 8 <= s.len() {
                    lemma_index_errors(s, p + 8, end);
                }
            },
        }
    }
}

/// An error says which file it is about, except where a record is damaged.
pub proof fn errors_name_the_file(e: TableError, path: Seq<u8>)
    ensures
        error_text(e, path) == (match e {
            TableError::TooShort => path + vstd::utf8::encode_utf8(
                " is too short to be an SSTable"@,
            ),
            TableError::NotATable => path + vstd::utf8::encode_utf8(" is not an lsmrs SSTable"@),
            TableError::WrongVersion(v) => path + vstd::utf8::encode_utf8(
                " has SSTable format version "@,
            ) + text::decimal(v as nat) + vstd::utf8::encode_utf8(", expected "@) + text::decimal(1),
            TableError::Truncated => path + vstd::utf8::encode_utf8(
                " ends in the middle of a field"@,
            ),
            TableError::InvalidOperation => vstd::utf8::encode_utf8(
                "invalid op_type byte in SSTable record"@,
            ),
            TableError::InvalidIndex => path + vstd::utf8::encode_utf8(
                " has a block that ends before it starts"@,
            ),
            TableError::InvalidFilter => path + vstd::utf8::encode_utf8(
                " has an unusable bloom filter"@,
            ),
        }),
{
}

} // verus!
