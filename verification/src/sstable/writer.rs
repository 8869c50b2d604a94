//! Writing a table: the bytes of the file and what the store keeps of it.
use crate::bloom;
use crate::bloom::BloomFilter;
use crate::codec;
use crate::entries;
use crate::entries::{Entry, TableRecord};
use crate::hash;
use crate::sstable::layout;
use crate::sstable::layout::{IndexEntry, TableParts, BLOCK_SIZE, FORMAT_VERSION, OP_TOMBSTONE, OP_VALUE};
use vstd::prelude::*;

verus! {

/// What the store keeps in memory of a table file.
pub struct TableMeta {
    /// The first key of each block and where the block starts.
    pub sparse_index: Vec<(Vec<u8>, u64)>,
    /// Where the records end.
    pub index_start: u64,
    pub min_key: Vec<u8>,
    pub max_key: Vec<u8>,
    pub filter: BloomFilter,
}

pub open spec fn index_view(index: Seq<(Vec<u8>, u64)>) -> Seq<IndexEntry> {
    Seq::new(index.len(), |i: int| (index[i].0@, index[i].1 as nat))
}

impl TableMeta {
    pub open spec fn parts(&self) -> TableParts {
        TableParts {
            index: index_view(self.sparse_index@),
            index_start: self.index_start as nat,
            min_key: self.min_key@,
            max_key: self.max_key@,
            words: self.filter.spec_words(),
            num_bits: self.filter.spec_num_bits(),
            num_probes: self.filter.spec_num_probes(),
        }
    }
}

/// Appends one record.
pub fn put_record(out: &mut Vec<u8>, key: &[u8], value: &Option<Vec<u8>>)
    requires
        entries::entry_fits((key@, entries::option_view(*value))),
    ensures
        final(out)@ == old(out)@ + layout::record_bytes((key@, entries::option_view(*value))),
{
    codec::put_prefixed(out, key);
    match value {
        Some(bytes) => {
            codec::put_prefixed(out, bytes.as_slice());
            out.push(OP_VALUE);
        },
        None => {
            codec::put_u32(out, 0);
            out.push(OP_TOMBSTONE);
            assert(codec::prefixed(Seq::<u8>::empty()) =~= codec::le_bytes(0, 4));
        },
    }
    assert(out@ =~= old(out)@ + layout::record_bytes((key@, entries::option_view(*value))));
}

fn put_index(out: &mut Vec<u8>, index: &Vec<(Vec<u8>, u64)>)
    requires
        forall|i: int| 0 <= i < index@.len() ==> (#[trigger] index@[i]).0@.len() <= u32::MAX,
    ensures
        final(out)@ == old(out)@ + layout::index_bytes(index_view(index@)),
{
    let ghost all = index_view(index@);
    let mut i: usize = 0;
    assert(out@ =~= old(out)@ + layout::index_bytes(all.take(0)));
    while i < index.len()
        invariant
            i <= index@.len(),
            all == index_view(index@),
            forall|j: int| 0 <= j < index@.len() ==> (#[trigger] index@[j]).0@.len() <= u32::MAX,
            out@ == old(out)@ + layout::index_bytes(all.take(i as int)),
        decreases index@.len() - i,
    {
        let ghost before = out@;
        codec::put_prefixed(out, index[i].0.as_slice());
        codec::put_u64(out, index[i].1);
        proof {
            assert(all.take(i + 1).drop_last() =~= all.take(i as int));
            assert(out@ =~= before + layout::index_entry_bytes(all[i as int]));
            assert(out@ =~= old(out)@ + layout::index_bytes(all.take(i + 1)));
        }
        i = i + 1;
    }
    assert(all.take(i as int) =~= all);
}

fn put_filter(out: &mut Vec<u8>, filter: &BloomFilter)
    ensures
        final(out)@ == old(out)@ + layout::filter_bytes(
            filter.spec_words(),
            filter.spec_num_bits(),
            filter.spec_num_probes(),
        ),
{
    codec::put_u64(out, filter.num_bits());
    codec::put_u32(out, filter.num_probes());
    let words: &[u64] = filter.words();
    let ghost all = words@;
    let ghost header = out@;
    let mut i: usize = 0;
    assert(out@ =~= header + layout::words_bytes(all.take(0)));
    while i < words.len()
        invariant
            i <= words@.len(),
            all == words@,
            out@ == header + layout::words_bytes(all.take(i as int)),
        decreases words@.len() - i,
    {
        let ghost before = out@;
        codec::put_u64(out, words[i]);
        proof {
            assert(all.take(i + 1).drop_last() =~= all.take(i as int));
            assert(out@ =~= header + layout::words_bytes(all.take(i + 1)));
        }
        i = i + 1;
    }
    assert(all.take(i as int) =~= all);
    assert(out@ =~= old(out)@ + layout::filter_bytes(
        filter.spec_words(),
        filter.spec_num_bits(),
        filter.spec_num_probes(),
    ));
}

fn put_trailer(out: &mut Vec<u8>, index_start: u64, filter_start: u64, meta_start: u64)
    ensures
        final(out)@ == old(out)@ + layout::trailer_bytes(
            index_start as nat,
            filter_start as nat,
            meta_start as nat,
        ),
{
    codec::put_u64(out, index_start);
    codec::put_u64(out, filter_start);
    codec::put_u64(out, meta_start);
    out.push(0x4c);
    out.push(0x53);
    out.push(0x4d);
    out.push(0x52);
    out.push(0x53);
    out.push(0);
    out.push(FORMAT_VERSION);
    out.push(0);
    assert(out@ =~= old(out)@ + layout::trailer_bytes(
        index_start as nat,
        filter_start as nat,
        meta_start as nat,
    ));
}

/// The file for `entries` and what to keep of it in memory.
///
/// The bloom filter is sized from the number of entries and holds every key,
/// deletions included: a deletion that the filter did not know would let an
/// older value show through.
pub fn write_table(entries: &[TableRecord], bits_per_key: usize) -> (r: (Vec<u8>, TableMeta))
    requires
        entries::all_fit(entries::entries_view(entries@)),
        entries@.len() * bits_per_key <= usize::MAX - 63,
    ensures
        r.0@ == layout::table_bytes(entries::entries_view(entries@), bits_per_key as nat),
        r.1.parts() == layout::parts_of(entries::entries_view(entries@), bits_per_key as nat),
        r.1.filter.well_formed(),
{
    let ghost es = entries::entries_view(entries@);
    let ghost n = bloom::words_for(es.len(), bits_per_key as nat);
    let ghost goal = layout::parts_of(es, bits_per_key as nat);
    let mut out: Vec<u8> = Vec::new();
    let mut sparse_index: Vec<(Vec<u8>, u64)> = Vec::new();
    let mut filter = BloomFilter::new(entries.len(), bits_per_key);
    let mut min_key: Vec<u8> = Vec::new();
    let mut max_key: Vec<u8> = Vec::new();
    let mut block_start: usize = 0;
    let mut i: usize = 0;
    let ghost empty = filter.spec_words();
    proof {
        assert(empty =~= Seq::new(n, |i: int| 0u64));
        assert(es.take(0) =~= Seq::<Entry>::empty());
        assert(index_view(sparse_index@) =~= Seq::<IndexEntry>::empty());
    }
    while i < entries.len()
        invariant
            i <= entries@.len(),
            es == entries::entries_view(entries@),
            entries::all_fit(es),
            out@ == layout::records_bytes(es.take(i as int)),
            index_view(sparse_index@) == layout::index_entries(es.take(i as int)),
            forall|j: int|
                0 <= j < sparse_index@.len() ==> (#[trigger] sparse_index@[j]).0@.len() <= u32::MAX,
            block_start == layout::block_start(es.take(i as int)),
            block_start <= out@.len(),
            filter.well_formed(),
            filter.spec_num_bits() == goal.num_bits,
            filter.spec_num_probes() == goal.num_probes,
            filter.spec_words() == layout::filter_words(
                es.take(i as int),
                empty,
                goal.num_bits,
                goal.num_probes,
            ),
            min_key@ == (if i == 0 {
                Seq::empty()
            } else {
                es[0].0
            }),
            max_key@ == (if i == 0 {
                Seq::empty()
            } else {
                es[i - 1].0
            }),
        decreases entries@.len() - i,
    {
        let key: &Vec<u8> = &entries[i].0;
        let value: &Option<Vec<u8>> = &entries[i].1;
        let ghost before = es.take(i as int);
        let ghost with = es.take(i + 1);
        let ghost index_before = sparse_index@;
        proof {
            assert(with.drop_last() =~= before);
            assert(with.last() == es[i as int]);
            assert(es[i as int] == (key@, entries::option_view(*value)));
            assert(entries::entry_fits(es[i as int]));
        }
        if i == 0 {
            min_key = copy(key);
        }
        max_key = copy(key);
        filter.insert(hash::hash64(key.as_slice()));
        let offset: usize = out.len();
        if block_start == offset {
            sparse_index.push((copy(key), offset as u64));
            assert(index_view(sparse_index@) =~= index_view(index_before).push((key@, offset as nat)));
        }
        put_record(&mut out, key.as_slice(), value);
        if out.len() - block_start >= BLOCK_SIZE {
            block_start = out.len();
        }
        i = i + 1;
    }
    assert(es.take(i as int) =~= es);
    let index_start: usize = out.len();
    put_index(&mut out, &sparse_index);
    let filter_start: usize = out.len();
    put_filter(&mut out, &filter);
    let meta_start: usize = out.len();
    codec::put_prefixed(&mut out, min_key.as_slice());
    codec::put_prefixed(&mut out, max_key.as_slice());
    put_trailer(&mut out, index_start as u64, filter_start as u64, meta_start as u64);
    let meta = TableMeta { sparse_index, index_start: index_start as u64, min_key, max_key, filter };
    proof {
        if es.len() > 0 {
            assert(entries::entry_fits(es[0]) && entries::entry_fits(es[es.len() - 1]));
        }
        assert(meta.parts() =~= goal);
        assert(out@ =~= layout::table_bytes(es, bits_per_key as nat));
    }
    (out, meta)
}

/// A copy of a key.
pub fn copy(bytes: &Vec<u8>) -> (r: Vec<u8>)
    ensures
        r@ == bytes@,
{
    vstd::slice::slice_to_vec(bytes.as_slice())
}

} // verus!
