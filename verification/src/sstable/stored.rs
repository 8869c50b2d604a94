//! Tables whose files are intact: what they answer, and what their merge holds.
use crate::entries;
use crate::entries::Entry;
use crate::hash;
use crate::sstable::layout;
use crate::sstable::layout::{TableError, TableParts};
use crate::sstable::merge;
use crate::sstable::merge::Merge;
use crate::sstable::records;
use crate::sstable::roundtrip;
use crate::sstable::table;
use crate::sstable::table::SSTable;
use vstd::prelude::*;

verus! {

/// `file` is what was written for `es`, and `t` is what the store keeps of it.
pub open spec fn holds_with(t: TableParts, file: Seq<u8>, es: Seq<Entry>, bits_per_key: nat) -> bool {
    &&& roundtrip::writable(es, bits_per_key)
    &&& entries::sorted(es)
    &&& file == layout::table_bytes(es, bits_per_key)
    &&& t == layout::parts_of(es, bits_per_key)
}

/// `file` is an intact table of `es`, and `t` is what the store keeps of it.
pub open spec fn holds(t: TableParts, file: Seq<u8>, es: Seq<Entry>) -> bool {
    exists|bits_per_key: nat| #[trigger] holds_with(t, file, es, bits_per_key)
}

/// The same of many tables, oldest first.
pub open spec fn hold_all<F>(
    ts: Seq<SSTable<F>>,
    files: Seq<Seq<u8>>,
    layers: Seq<Seq<Entry>>,
) -> bool {
    &&& ts.len() == files.len() == layers.len()
    &&& forall|i: int|
        0 <= i < ts.len() ==> holds((#[trigger] ts[i]).meta.parts(), files[i], layers[i])
}

/// The first blocks of a file have been read.
pub open spec fn read_from(p: TableParts, file: Seq<u8>, blocks: Seq<Seq<u8>>) -> bool {
    &&& blocks.len() <= p.index.len()
    &&& blocks == roundtrip::blocks_of(p, file).take(blocks.len() as int)
}

/// The bytes that a block lookup asks for answer the key as the entries do.
pub proof fn intact_table_answers(
    p: TableParts,
    file: Seq<u8>,
    es: Seq<Entry>,
    key: Seq<u8>,
    r: Result<Option<(u64, u64)>, TableError>,
)
    requires
        holds(p, file, es),
        table::locates(p, key, hash::spec_hash64(key), r),
    ensures
        match r {
            Ok(None) => entries::find(es, key) is None,
            Ok(Some((start, end))) => {
                &&& start <= end <= file.len()
                &&& layout::scan_from(file.subrange(start as int, end as int), 0, key) == Ok::<
                    Option<Option<Seq<u8>>>,
                    TableError,
                >(entries::find(es, key))
            },
            Err(_) => false,
        },
{
    let bits_per_key = choose|b: nat| #[trigger] holds_with(p, file, es, b);
    roundtrip::written_table_answers(es, bits_per_key, key, r);
}

/// Opening an intact file gives the table that was written.
pub proof fn intact_file_opens(p: TableParts, file: Seq<u8>, es: Seq<Entry>)
    requires
        holds(p, file, es),
    ensures
        layout::parse_table(file) == Ok::<TableParts, TableError>(p),
{
    let bits_per_key = choose|b: nat| #[trigger] holds_with(p, file, es, b);
    roundtrip::written_table_opens(es, bits_per_key);
}

/// Reading an intact file block by block never meets a fault, and reads its
/// entries.
pub proof fn intact_file_streams<F>(
    t: SSTable<F>,
    file: Seq<u8>,
    es: Seq<Entry>,
    blocks: Seq<Seq<u8>>,
)
    requires
        holds(t.meta.parts(), file, es),
        read_from(t.meta.parts(), file, blocks),
    ensures
        forall|e: TableError| !#[trigger] records::faulty(t, blocks, e),
        blocks.len() == t.meta.parts().index.len() ==> records::stream(blocks) == Ok::<
            Seq<Entry>,
            TableError,
        >(es),
        blocks.len() < t.meta.parts().index.len() ==> {
            let (start, end) = records::block_range(t, blocks.len() as int);
            &&& 0 <= start <= end <= file.len()
            &&& read_from(t.meta.parts(), file, blocks.push(file.subrange(start, end)))
        },
{
    let p = t.meta.parts();
    let bits_per_key = choose|b: nat| #[trigger] holds_with(p, file, es, b);
    let all = roundtrip::blocks_of(p, file);
    let n = blocks.len() as int;
    roundtrip::lemma_stream_prefix(es, bits_per_key, n);
    if n == p.index.len() {
        roundtrip::written_table_streams(es, bits_per_key);
        assert(all.take(n) =~= all);
    } else {
        roundtrip::lemma_block_bytes(es, bits_per_key, n);
        let (start, end) = records::block_range(t, n);
        roundtrip::lemma_file_starts_with_records(es, bits_per_key, start, end);
        assert(blocks.push(file.subrange(start, end)) =~= all.take(n + 1));
    }
}

/// A finished merge of intact tables holds the merge of their entries.
pub proof fn intact_tables_merge<F>(
    m: Merge<F>,
    files: Seq<Seq<u8>>,
    layers: Seq<Seq<Entry>>,
)
    requires
        m.complete(),
        hold_all(m.tables(), files, layers),
        forall|i: int|
            0 <= i < files.len() ==> read_from(
                #[trigger] m.tables()[i].meta.parts(),
                files[i],
                m.fed()[i],
            ),
    ensures
        entries::entries_view(m.merged@) == merge::merged(layers, m.drop_tombstones),
{
    assert forall|i: int| 0 <= i < layers.len() implies merge::given(m.fed())[i] == layers[i] by {
        let t = m.tables()[i];
        assert(holds(t.meta.parts(), files[i], layers[i]));
        assert(read_from(m.tables()[i].meta.parts(), files[i], m.fed()[i]));
        intact_file_streams(t, files[i], layers[i], m.fed()[i]);
        assert(t.meta.parts().index.len() == t.meta.sparse_index@.len());
    }
    assert(merge::given(m.fed()) =~= layers);
}

} // verus!
