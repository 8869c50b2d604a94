//! A table on its way to disk, and a table that was found there.
use crate::bloom;
use crate::codec;
use crate::entries;
use crate::entries::{Entry, TableRecord};
use crate::sstable::layout;
use crate::sstable::layout::{TableError, TableParts};
use crate::sstable::names;
use crate::sstable::records;
use crate::sstable::stored;
use crate::sstable::table::SSTable;
use crate::sstable::writer;
use crate::sstable::writer::TableMeta;
use vstd::prelude::*;

verus! {

/// A table that is ready to be written. It goes to `tmp_name` first; once it is
/// safely on disk it is renamed to `name`, so a file under a table's name is
/// always a whole table.
pub struct TableImage {
    pub name: Vec<u8>,
    pub tmp_name: Vec<u8>,
    pub first_seq: u64,
    pub last_seq: u64,
    pub bytes: Vec<u8>,
    pub meta: TableMeta,
}

impl TableImage {
    /// This is the table of `es`, for the flushes `first` to `last`.
    pub open spec fn shows(&self, es: Seq<Entry>, bits_per_key: nat, first: u64, last: u64) -> bool {
        &&& self.name@ == names::name_of(first, last)
        &&& self.tmp_name@ == names::tmp_name_of(first, last)
        &&& self.first_seq == first
        &&& self.last_seq == last
        &&& self.bytes@ == layout::table_bytes(es, bits_per_key)
        &&& self.meta.parts() == layout::parts_of(es, bits_per_key)
        &&& self.meta.filter.well_formed()
    }

    /// The table of `records`, for the flushes `first` to `last`.
    pub fn new(records: &[TableRecord], bits_per_key: usize, first: u64, last: u64) -> (r: Self)
        requires
            entries::all_fit(entries::entries_view(records@)),
            records@.len() * bits_per_key <= usize::MAX - 63,
        ensures
            r.shows(entries::entries_view(records@), bits_per_key as nat, first, last),
            r.name@ == names::name_of(first, last),
            r.tmp_name@ == names::tmp_name_of(first, last),
            r.first_seq == first,
            r.last_seq == last,
            r.bytes@ == layout::table_bytes(entries::entries_view(records@), bits_per_key as nat),
            r.meta.parts() == layout::parts_of(
                entries::entries_view(records@),
                bits_per_key as nat,
            ),
            entries::sorted(entries::entries_view(records@)) ==> stored::holds(
                r.meta.parts(),
                r.bytes@,
                entries::entries_view(records@),
            ),
    {
        let (bytes, meta) = writer::write_table(records, bits_per_key);
        let len: usize = bytes.len();
        proof {
            let es = entries::entries_view(records@);
            let b = bits_per_key as nat;
            assert(64 * bloom::words_for(es.len(), b) <= u64::MAX) by {
                assert(es.len() * b == records@.len() * bits_per_key);
            }
            assert(bytes@.len() == len);
            if entries::sorted(es) {
                assert(stored::holds_with(meta.parts(), bytes@, es, b));
            }
        }
        TableImage {
            name: names::table_name(first, last),
            tmp_name: names::tmp_name(first, last),
            first_seq: first,
            last_seq: last,
            bytes,
            meta,
        }
    }

    /// The table, once its file has been published and opened as `file`.
    pub fn into_table<F>(self, file: F) -> (r: SSTable<F>)
        ensures
            r.path == self.name,
            r.file == file,
            r.first_seq == self.first_seq,
            r.last_seq == self.last_seq,
            r.meta == self.meta,
    {
        SSTable {
            path: self.name,
            file,
            first_seq: self.first_seq,
            last_seq: self.last_seq,
            meta: self.meta,
        }
    }
}

impl<F> SSTable<F> {
    /// Opens the table whose file holds `contents`.
    pub fn open(
        path: Vec<u8>,
        file: F,
        contents: &[u8],
        first_seq: u64,
        last_seq: u64,
    ) -> (r: Result<SSTable<F>, TableError>)
        ensures
            match layout::parse_table(contents@) {
                Ok(parts) => {
                    &&& r matches Ok(t)
                    &&& t.path == path
                    &&& t.file == file
                    &&& t.first_seq == first_seq
                    &&& t.last_seq == last_seq
                    &&& t.meta.parts() == parts
                },
                Err(e) => r == Err::<SSTable<F>, TableError>(e),
            },
            forall|parts: TableParts, es: Seq<Entry>| #[trigger]
                stored::holds(parts, contents@, es) ==> r is Ok && r->Ok_0.meta.parts() == parts,
    {
        proof {
            assert forall|parts: TableParts, es: Seq<Entry>| #[trigger]
                stored::holds(parts, contents@, es) implies layout::parse_table(contents@) == Ok::<
                TableParts,
                TableError,
            >(parts) by {
                stored::intact_file_opens(parts, contents@, es);
            }
        }
        match TableMeta::parse(contents) {
            Err(e) => Err(e),
            Ok(meta) => Ok(SSTable { path, file, first_seq, last_seq, meta }),
        }
    }

    /// The first and the last flush that the table covers.
    pub fn span(&self) -> (r: (u64, u64))
        ensures
            r == (self.first_seq, self.last_seq),
    {
        (self.first_seq, self.last_seq)
    }

    /// The name of the table's file.
    pub fn path(&self) -> (r: &[u8])
        ensures
            r@ == self.path@,
    {
        self.path.as_slice()
    }
}

/// Whatever can be read from a block could be written again.
pub proof fn lemma_entries_from_fit(s: Seq<u8>, at: int)
    requires
        at >= 0,
    ensures
        layout::entries_from(s, at) matches Ok(es) ==> entries::all_fit(es),
    decreases s.len() - at,
{
    if at < s.len() {
        if let Some((r, next)) = layout::record_at(s, at) {
            lemma_record_fits(s, at);
            lemma_entries_from_fit(s, next);
        }
    }
}

/// The fields of a record are no longer than their length fields can say.
pub proof fn lemma_record_fits(s: Seq<u8>, at: int)
    ensures
        layout::record_at(s, at) matches Some((r, next)) ==> r.key.len() <= u32::MAX && r.value.len()
            <= u32::MAX && at < next,
{
    lemma_prefixed_fits(s, at);
    if let Some((_, p)) = codec::prefixed_at(s, at) {
        lemma_prefixed_fits(s, p);
    }
}

proof fn lemma_prefixed_fits(s: Seq<u8>, at: int)
    ensures
        codec::prefixed_at(s, at) matches Some((b, next)) ==> b.len() <= u32::MAX && at + 4 <= next,
{
    if 0 <= at && at + 4 <= s.len() {
        codec::lemma_le_value_bound(s.subrange(at, at + 4));
        codec::lemma_pow256_values();
    }
}

/// The same of many blocks.
pub proof fn lemma_stream_fits(blocks: Seq<Seq<u8>>)
    ensures
        records::stream(blocks) matches Ok(es) ==> entries::all_fit(es),
    decreases blocks.len(),
{
    if blocks.len() > 0 {
        lemma_stream_fits(blocks.drop_last());
        lemma_entries_from_fit(blocks.last(), 0);
    }
}

} // verus!
