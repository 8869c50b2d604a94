//! One table: opening a file, and finding the block that a key would be in and
//! the key in that block.
use crate::bloom;
use crate::bloom::BloomFilter;
use crate::codec;
use crate::hash;
use crate::order;
use crate::order::KeyOrder;
use crate::sstable::layout;
use crate::sstable::layout::{IndexEntry, TableError, TableParts, FORMAT_VERSION, OP_TOMBSTONE, OP_VALUE, TRAILER_SIZE};
use crate::sstable::writer;
use crate::sstable::writer::TableMeta;
use vstd::prelude::*;

verus! {

/// A table and the handle through which its file is read. The library never
/// looks at the handle: it says which bytes it needs, and is given them.
pub struct SSTable<F> {
    /// The name of the file in the data directory.
    pub path: Vec<u8>,
    pub file: F,
    /// The first and the last of the flushes whose entries the table holds.
    pub first_seq: u64,
    pub last_seq: u64,
    pub meta: TableMeta,
}

/// What a table says about a key.
pub enum Found {
    Value(Vec<u8>),
    Tombstone,
}

pub open spec fn found_view(f: Found) -> Option<Seq<u8>> {
    match f {
        Found::Value(v) => Some(v@),
        Found::Tombstone => None,
    }
}

/// `c` splits the index at `key`: the entry before it is not after the key, the
/// entry at it is. In a sorted index that fixes `c`.
pub open spec fn splits_at(index: Seq<IndexEntry>, key: Seq<u8>, c: int) -> bool {
    &&& 0 <= c <= index.len()
    &&& c > 0 ==> order::lex_le(index[c - 1].0, key)
    &&& c < index.len() ==> order::lex_lt(key, index[c].0)
}

/// Where block `b` ends: where the next one starts, or where the records end.
pub open spec fn block_end(p: TableParts, b: int) -> nat {
    if b + 1 < p.index.len() {
        p.index[b + 1].1
    } else {
        p.index_start
    }
}

/// The filter's answer, from the parts of a table; none where the filter does
/// not hold the bits that it is asked for.
pub open spec fn may_contain(p: TableParts, hash: u64) -> Option<bool> {
    bloom::probed(p.words, hash, p.num_bits, p.num_probes, 0)
}

/// `key` lies between the smallest and the largest key of a table.
pub open spec fn in_range(p: TableParts, key: Seq<u8>) -> bool {
    !order::lex_lt(key, p.min_key) && !order::lex_lt(p.max_key, key)
}

/// Whether a key with this hash has to be looked for in the file at all.
pub open spec fn worth_reading(p: TableParts, key: Seq<u8>, hash: u64) -> bool {
    in_range(p, key) && may_contain(p, hash) == Some(true)
}

/// `r` says where to look for `key`: nowhere, in one block, or that the filter or
/// the index makes no sense.
pub open spec fn locates(
    p: TableParts,
    key: Seq<u8>,
    hash: u64,
    r: Result<Option<(u64, u64)>, TableError>,
) -> bool {
    if in_range(p, key) && may_contain(p, hash) is None {
        r == Err::<Option<(u64, u64)>, TableError>(TableError::InvalidFilter)
    } else if !worth_reading(p, key, hash) {
        r == Ok::<Option<(u64, u64)>, TableError>(None)
    } else {
        exists|c: int| #[trigger]
            splits_at(p.index, key, c) && (if c == 0 {
                r == Ok::<Option<(u64, u64)>, TableError>(None)
            } else if p.index[c - 1].1 <= block_end(p, c - 1) {
                r == Ok::<Option<(u64, u64)>, TableError>(
                    Some((p.index[c - 1].1 as u64, block_end(p, c - 1) as u64)),
                )
            } else {
                r == Err::<Option<(u64, u64)>, TableError>(TableError::InvalidIndex)
            })
    }
}

impl TableMeta {
    /// Reads what the store keeps of a table from the bytes of its file.
    pub fn parse(file: &[u8]) -> (r: Result<TableMeta, TableError>)
        ensures
            match r {
                Ok(meta) => layout::parse_table(file@) == Ok::<TableParts, TableError>(meta.parts()),
                Err(e) => layout::parse_table(file@) == Err::<TableParts, TableError>(e),
            },
    {
        let len: usize = file.len();
        if len < TRAILER_SIZE {
            return Err(TableError::TooShort);
        }
        let t: usize = len - TRAILER_SIZE;
        if !has_magic(file, t + 24) {
            return Err(TableError::NotATable);
        }
        if file[t + 30] != FORMAT_VERSION {
            return Err(TableError::WrongVersion(file[t + 30]));
        }
        let index_start: u64 = codec::get_u64(file, t);
        let filter_start: u64 = codec::get_u64(file, t + 8);
        let meta_start: u64 = codec::get_u64(file, t + 16);
        if meta_start > len as u64 {
            return Err(TableError::Truncated);
        }
        let (min_key, after_min) = match codec::get_prefixed(file, meta_start as usize) {
            Some(found) => found,
            None => return Err(TableError::Truncated),
        };
        let (max_key, _) = match codec::get_prefixed(file, after_min) {
            Some(found) => found,
            None => return Err(TableError::Truncated),
        };
        if filter_start > len as u64 || len as u64 - filter_start < 12 {
            return Err(TableError::Truncated);
        }
        let f: usize = filter_start as usize;
        let num_bits: u64 = codec::get_u64(file, f);
        let num_probes: u32 = codec::get_u32(file, f + 8);
        if num_bits / 64 > (len - f - 12) as u64 / 8 {
            return Err(TableError::Truncated);
        }
        let words: Vec<u64> = read_words(file, f + 12, (num_bits / 64) as usize);
        let filter = BloomFilter::from_parts(words, num_bits, num_probes);
        let sparse_index = match read_index(file, index_start, filter_start) {
            Ok(index) => index,
            Err(e) => return Err(e),
        };
        let meta = TableMeta { sparse_index, index_start, min_key, max_key, filter };
        proof {
            let parsed = layout::parse_table(file@);
            assert(parsed is Ok);
            assert(meta.parts() =~= parsed->Ok_0);
        }
        Ok(meta)
    }

    /// Where in the file to look for a key: the key's own block, or nowhere.
    pub fn block_for(&self, key: &[u8], hash: u64) -> (r: Result<Option<(u64, u64)>, TableError>)
        ensures
            locates(self.parts(), key@, hash, r),
    {
        let ghost p = self.parts();
        if order::compare(key, self.min_key.as_slice()) == KeyOrder::Less {
            return Ok(None);
        }
        if order::compare(key, self.max_key.as_slice()) == KeyOrder::Greater {
            return Ok(None);
        }
        match self.filter.check(hash) {
            None => return Err(TableError::InvalidFilter),
            Some(false) => return Ok(None),
            Some(true) => {},
        }
        let candidate: usize = self.split_point(key);
        assert(splits_at(p.index, key@, candidate as int));
        if candidate == 0 {
            return Ok(None);
        }
        let b: usize = candidate - 1;
        let start: u64 = self.sparse_index[b].1;
        let end: u64 = self.end_of_block(b);
        if start > end {
            return Err(TableError::InvalidIndex);
        }
        Ok(Some((start, end)))
    }

    /// Where block `b` ends.
    pub fn end_of_block(&self, b: usize) -> (r: u64)
        requires
            b < self.sparse_index@.len(),
        ensures
            r == block_end(self.parts(), b as int),
    {
        if b < self.sparse_index.len() - 1 {
            self.sparse_index[b + 1].1
        } else {
            self.index_start
        }
    }

    /// The number of leading index entries that are not after `key`, by binary
    /// search.
    fn split_point(&self, key: &[u8]) -> (c: usize)
        ensures
            splits_at(self.parts().index, key@, c as int),
    {
        let ghost index = self.parts().index;
        let mut lo: usize = 0;
        let mut hi: usize = self.sparse_index.len();
        while lo < hi
            invariant
                lo <= hi <= self.sparse_index@.len(),
                index == self.parts().index,
                lo > 0 ==> order::lex_le(index[lo - 1].0, key@),
                hi < index.len() ==> order::lex_lt(key@, index[hi as int].0),
            decreases hi - lo,
        {
            let mid: usize = lo + (hi - lo) / 2;
            if order::compare(self.sparse_index[mid].0.as_slice(), key) == KeyOrder::Greater {
                hi = mid;
            } else {
                proof {
                    order::lemma_lex_total(index[mid as int].0, key@);
                }
                lo = mid + 1;
            }
        }
        lo
    }
}

fn has_magic(file: &[u8], at: usize) -> (r: bool)
    requires
        at + 6 <= file@.len(),
    ensures
        r == (file@.subrange(at as int, at + 6) == layout::magic()),
{
    let r: bool = file[at] == 0x4c && file[at + 1] == 0x53 && file[at + 2] == 0x4d && file[at + 3]
        == 0x52 && file[at + 4] == 0x53 && file[at + 5] == 0;
    proof {
        let f = file@.subrange(at as int, at + 6);
        let m = layout::magic();
        if r {
            assert(f =~= m);
        } else if f == m {
            assert(f[0] == m[0] && f[1] == m[1] && f[2] == m[2] && f[3] == m[3] && f[4] == m[4]
                && f[5] == m[5]);
        }
    }
    r
}

fn read_words(file: &[u8], at: usize, n: usize) -> (words: Vec<u64>)
    requires
        at + 8 * n <= file@.len(),
    ensures
        words@ == layout::words_at(file@, at as int, n as nat),
{
    let mut words: Vec<u64> = Vec::new();
    let mut i: usize = 0;
    let len: usize = file.len();
    while i < n
        invariant
            i <= n,
            at + 8 * n <= file@.len() == len,
            words@ == layout::words_at(file@, at as int, i as nat),
        decreases n - i,
    {
        words.push(codec::get_u64(file, at + 8 * i));
        i = i + 1;
        assert(words@ =~= layout::words_at(file@, at as int, i as nat));
    }
    words
}

/// Reads the index entries from `start` up to `end`.
fn read_index(file: &[u8], start: u64, end: u64) -> (r: Result<Vec<(Vec<u8>, u64)>, TableError>)
    requires
        end <= file@.len(),
    ensures
        match r {
            Ok(index) => layout::index_from(file@, start as int, end as int) == Ok::<
                Seq<IndexEntry>,
                TableError,
            >(writer::index_view(index@)),
            Err(e) => layout::index_from(file@, start as int, end as int) == Err::<
                Seq<IndexEntry>,
                TableError,
            >(e),
        },
{
    let mut index: Vec<(Vec<u8>, u64)> = Vec::new();
    let len: usize = file.len();
    if start >= end {
        assert(writer::index_view(index@) =~= Seq::<IndexEntry>::empty());
        return Ok(index);
    }
    let mut pos: usize = start as usize;
    let stop: usize = end as usize;
    let ghost goal = layout::index_from(file@, start as int, end as int);
    assert(writer::index_view(index@) =~= Seq::<IndexEntry>::empty());
    while pos < stop
        invariant
            pos <= len == file@.len(),
            stop == end <= len,
            goal == layout::index_from(file@, start as int, end as int),
            match layout::index_from(file@, pos as int, stop as int) {
                Ok(rest) => goal matches Ok(all) && all =~= writer::index_view(index@) + rest,
                Err(e) => goal == Err::<Seq<IndexEntry>, TableError>(e),
            },
        decreases len - pos,
    {
        let (key, p) = match codec::get_prefixed(file, pos) {
            Some(found) => found,
            None => return Err(TableError::Truncated),
        };
        if len - p < 8 {
            return Err(TableError::Truncated);
        }
        let offset: u64 = codec::get_u64(file, p);
        let ghost before = index@;
        let ghost key_bytes = key@;
        index.push((key, offset));
        proof {
            assert(writer::index_view(index@) =~= writer::index_view(before).push(
                (key_bytes, offset as nat),
            ));
        }
        pos = p + 8;
    }
    assert(goal->Ok_0 =~= writer::index_view(index@));
    Ok(index)
}

/// Looks for `key` in the bytes of a block.
pub fn search_block(block: &[u8], key: &[u8]) -> (r: Result<Option<Found>, TableError>)
    ensures
        match r {
            Ok(Some(found)) => layout::scan_from(block@, 0, key@) == Ok::<
                Option<Option<Seq<u8>>>,
                TableError,
            >(Some(found_view(found))),
            Ok(None) => layout::scan_from(block@, 0, key@) == Ok::<
                Option<Option<Seq<u8>>>,
                TableError,
            >(None),
            Err(e) => layout::scan_from(block@, 0, key@) == Err::<
                Option<Option<Seq<u8>>>,
                TableError,
            >(e),
        },
{
    let mut pos: usize = 0;
    while pos < block.len()
        invariant
            pos <= block@.len(),
            layout::scan_from(block@, 0, key@) == layout::scan_from(block@, pos as int, key@),
        decreases block@.len() - pos,
    {
        let (record_key, value, op, next) = match read_record(block, pos) {
            Some(found) => found,
            None => return Err(TableError::Truncated),
        };
        match order::compare(record_key.as_slice(), key) {
            KeyOrder::Less => {},
            // Records are sorted, so a larger key means this one is not here.
            KeyOrder::Greater => {
                proof {
                    order::lemma_lex_asymmetric(key@, record_key@);
                }
                return Ok(None);
            },
            KeyOrder::Equal => {
                proof {
                    order::lemma_lex_irreflexive(key@);
                }
                if op == OP_VALUE {
                    return Ok(Some(Found::Value(value)));
                } else if op == OP_TOMBSTONE {
                    return Ok(Some(Found::Tombstone));
                } else {
                    return Err(TableError::InvalidOperation);
                }
            },
        }
        pos = next;
    }
    Ok(None)
}

/// Reads the record at `at`: key, value, operation byte, and the position
/// behind it; nothing where the bytes end first.
pub fn read_record(s: &[u8], at: usize) -> (r: Option<(Vec<u8>, Vec<u8>, u8, usize)>)
    requires
        at <= s@.len(),
    ensures
        match r {
            Some((key, value, op, next)) => layout::record_at(s@, at as int) == Some(
                (layout::RawRecord { key: key@, value: value@, op }, next as int),
            ) && at + 9 <= next <= s@.len(),
            None => layout::record_at(s@, at as int) is None,
        },
{
    match codec::get_prefixed(s, at) {
        None => None,
        Some((key, p)) => match codec::get_prefixed(s, p) {
            None => None,
            Some((value, q)) => {
                if q < s.len() {
                    Some((key, value, s[q], q + 1))
                } else {
                    None
                }
            },
        },
    }
}

// --------------------------------------------------------------------- laws

/// A key outside the range of a table is not looked for in its file, nor is one
/// that the filter rules out.
pub proof fn a_key_out_of_range_is_not_read(
    p: TableParts,
    key: Seq<u8>,
    hash: u64,
    r: Result<Option<(u64, u64)>, TableError>,
)
    requires
        locates(p, key, hash, r),
    ensures
        order::lex_lt(key, p.min_key) || order::lex_lt(p.max_key, key) || may_contain(p, hash)
            == Some(false) ==> r == Ok::<Option<(u64, u64)>, TableError>(None),
{
}

/// A key is looked for in the last block whose first key is not after it: from
/// where that block starts to where the next one does, or the records end.
pub proof fn a_key_is_looked_for_in_its_block(
    p: TableParts,
    key: Seq<u8>,
    hash: u64,
    r: Result<Option<(u64, u64)>, TableError>,
    b: int,
)
    requires
        locates(p, key, hash, r),
        worth_reading(p, key, hash),
        forall|i: int, j: int|
            0 <= i < j < p.index.len() ==> order::lex_lt(#[trigger] p.index[i].0, #[trigger] p.index[j].0),
        0 <= b < p.index.len(),
        p.index[b].0 == key || order::lex_lt(p.index[b].0, key),
        b + 1 < p.index.len() ==> order::lex_lt(key, p.index[b + 1].0),
    ensures
        ({
            let end = if b + 1 < p.index.len() {
                p.index[b + 1].1
            } else {
                p.index_start
            };
            r == (if p.index[b].1 <= end {
                Ok(Some((p.index[b].1 as u64, end as u64)))
            } else {
                Err(TableError::InvalidIndex)
            })
        }),
{
    let c = choose|c: int| #[trigger]
        splits_at(p.index, key, c) && (if c == 0 {
            r == Ok::<Option<(u64, u64)>, TableError>(None)
        } else if p.index[c - 1].1 <= block_end(p, c - 1) {
            r == Ok::<Option<(u64, u64)>, TableError>(
                Some((p.index[c - 1].1 as u64, block_end(p, c - 1) as u64)),
            )
        } else {
            r == Err::<Option<(u64, u64)>, TableError>(TableError::InvalidIndex)
        });
    if c <= b {
        order::keys_are_in_one_order(key, p.index[b].0);
        order::keys_are_in_one_order(key, p.index[c].0);
        if c < b {
            assert(order::lex_lt(p.index[c].0, p.index[b].0));
            if p.index[b].0 != key {
                order::lemma_lex_transitive(p.index[c].0, p.index[b].0, key);
            }
            order::lemma_lex_asymmetric(key, p.index[c].0);
        } else {
            order::lemma_lex_asymmetric(key, p.index[b].0);
        }
    }
    if c > b + 1 {
        let k = p.index[b + 1].0;
        order::lemma_lex_asymmetric(key, k);
        if c - 1 > b + 1 {
            assert(order::lex_lt(p.index[b + 1].0, p.index[c - 1].0));
            order::lemma_lex_transitive(key, k, p.index[c - 1].0);
            order::lemma_lex_asymmetric(key, p.index[c - 1].0);
        }
    }
}

/// What is shown of a find is the value as it is, or that the key was deleted.
pub proof fn finds_are_shown_whole(f: Found)
    ensures
        match f {
            Found::Value(v) => found_view(f) == Some(v@),
            Found::Tombstone => found_view(f) is None,
        },
{
}

} // verus!
