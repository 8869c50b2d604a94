//! The store: a memtable in front of the tables, and a log behind the memtable.
//!
//! Nothing here reads or writes a file. A change is first turned into bytes for
//! the log; once those are on disk it is applied. When enough has been taken in,
//! the memtable becomes a table; once that is on disk the memtable is cleared,
//! and once the log is empty the count starts again.
use crate::config::Config;
use crate::entries;
use crate::entries::Entry;
use crate::memtable::Memtable;
use crate::scan::Scan;
use crate::sstable::image;
use crate::sstable::image::TableImage;
use crate::sstable::lookup::Lookup;
use crate::sstable::tableset::SSTableSet;
use crate::sstable::stored;
use crate::sstable::writer;
use crate::wal;
use crate::wal::{Append, LogRecord, Operation, Record, Wal, WalError};
use vstd::prelude::*;

verus! {

/// The part of a store that is in memory.
pub struct Db {
    map: Memtable,
    wal: Wal,
    size: usize,
    config: Config,
}

/// The answer to a read, or the way to it.
pub enum Get<F> {
    /// The memtable has the answer.
    Known(Option<Vec<u8>>),
    /// The tables have to be asked.
    Search(Lookup<F>),
}

/// What a reader sees of `key` in a store with these tables and this memtable.
pub open spec fn reads(layers: Seq<Seq<Entry>>, map: Seq<Entry>, key: Seq<u8>) -> Option<Seq<u8>> {
    entries::visible(entries::find(entries::flatten(layers.push(map)), key))
}

/// The memtable holds what the records say, the later ones overruling the
/// earlier.
pub open spec fn replayed(rs: Seq<LogRecord>, map: Seq<Entry>) -> bool {
    forall|k: Seq<u8>| #[trigger]
        entries::find(map, k) == entries::find(wal::entries_of(rs), k)
}

/// The log holds whole records and nothing else: every change in the memtable,
/// `size` bytes of keys and values in all.
pub open spec fn logged(log: Seq<u8>, map: Seq<Entry>, size: nat) -> bool {
    &&& wal::records_from(log, 0) matches Ok(rs)
    &&& wal::whole(log, rs)
    &&& replayed(rs, map)
    &&& size == wal::records_size(rs)
}

/// How many bytes of keys and values the records of a log hold.
fn size_of(records: &Vec<Record>) -> (size: usize)
    requires
        wal::records_size(wal::records_view(records@)) <= usize::MAX,
    ensures
        size == wal::records_size(wal::records_view(records@)),
{
    let ghost rs = wal::records_view(records@);
    let mut size: usize = 0;
    let mut i: usize = 0;
    assert(rs.take(0) =~= Seq::<LogRecord>::empty());
    while i < records.len()
        invariant
            i <= records@.len(),
            rs == wal::records_view(records@),
            wal::records_size(rs) <= usize::MAX,
            size == wal::records_size(rs.take(i as int)),
        decreases records@.len() - i,
    {
        proof {
            assert(rs.take(i + 1).drop_last() =~= rs.take(i as int));
            assert(rs.take(i + 1).last() == records@[i as int]@);
            lemma_size_grows(rs, i + 1);
        }
        size = size + (records[i].key.len() + records[i].value.len());
        i = i + 1;
    }
    assert(rs.take(i as int) =~= rs);
    size
}

proof fn lemma_size_grows(rs: Seq<LogRecord>, n: int)
    requires
        0 <= n <= rs.len(),
    ensures
        wal::records_size(rs.take(n)) <= wal::records_size(rs),
    decreases rs.len() - n,
{
    if n < rs.len() {
        lemma_size_grows(rs, n + 1);
        assert(rs.take(n + 1).drop_last() =~= rs.take(n));
    } else {
        assert(rs.take(n) =~= rs);
    }
}

/// Applies the records of a log to an empty memtable.
pub fn replay(records: Vec<Record>) -> (map: Memtable)
    ensures
        map.well_formed(),
        replayed(wal::records_view(records@), map@),
        (forall|i: int|
            0 <= i < records@.len() ==> entries::entry_fits(
                wal::entry_of((#[trigger] records@[i])@),
            )) ==> entries::all_fit(map@),
{
    let mut map = Memtable::new();
    let ghost rs = wal::records_view(records@);
    let ghost fit = forall|i: int|
        0 <= i < records@.len() ==> entries::entry_fits(wal::entry_of((#[trigger] records@[i])@));
    let mut i: usize = 0;
    assert(wal::entries_of(rs.take(0)) =~= Seq::<Entry>::empty());
    while i < records.len()
        invariant
            i <= records@.len(),
            rs == wal::records_view(records@),
            map.well_formed(),
            replayed(rs.take(i as int), map@),
            fit == forall|i: int|
                0 <= i < records@.len() ==> entries::entry_fits(
                    wal::entry_of((#[trigger] records@[i])@),
                ),
            fit ==> entries::all_fit(map@),
        decreases records@.len() - i,
    {
        let record: &Record = &records[i];
        let ghost before = map@;
        let ghost e = wal::entry_of(record@);
        match record.operation {
            Operation::Insert => {
                map.insert(writer::copy(&record.key), Some(writer::copy(&record.value)));
            },
            Operation::Delete => {
                map.insert(writer::copy(&record.key), None);
            },
        }
        proof {
            let old_es = wal::entries_of(rs.take(i as int));
            let new_es = wal::entries_of(rs.take(i + 1));
            assert(new_es =~= old_es.push(e));
            assert forall|k: Seq<u8>| #[trigger]
                entries::find(map@, k) == entries::find(new_es, k) by {
                entries::lemma_find_push(old_es, e, k);
                assert(entries::find(before, k) == entries::find(old_es, k));
            }
        }
        i = i + 1;
    }
    assert(rs.take(i as int) =~= rs);
    map
}

/// What was read from a log fits where it is written.
proof fn lemma_log_fits(s: Seq<u8>, at: int, rs: Seq<LogRecord>)
    requires
        at >= 0,
        wal::records_from(s, at) == Ok::<Seq<LogRecord>, WalError>(rs),
    ensures
        forall|i: int| 0 <= i < rs.len() ==> entries::entry_fits(wal::entry_of(#[trigger] rs[i])),
    decreases s.len() - at,
{
    if let Ok(Some((payload, stored, next))) = wal::frame_at(s, at) {
        let rest = wal::records_from(s, next)->Ok_0;
        image::lemma_record_fits(payload, 0);
        lemma_log_fits(s, next, rest);
        assert forall|i: int| 0 <= i < rs.len() implies entries::entry_fits(
            wal::entry_of(#[trigger] rs[i]),
        ) by {
            if i > 0 {
                assert(rs[i] == rest[i - 1]);
            }
        }
    }
}

impl Db {
    /// What the memtable holds.
    pub closed spec fn spec_map(&self) -> Seq<Entry> {
        self.map@
    }

    /// How many bytes of keys and values were taken in since the last flush.
    pub closed spec fn spec_size(&self) -> nat {
        self.size as nat
    }

    pub closed spec fn spec_config(&self) -> Config {
        self.config
    }

    pub closed spec fn well_formed(&self) -> bool {
        &&& self.map.well_formed()
        &&& entries::all_fit(self.map@)
        &&& self.wal.sync == self.config.sync
    }

    /// Opens a store whose log holds `log`. What the log holds counts towards the
    /// next flush as it did before.
    pub fn with_config(config: Config, log: &[u8]) -> (r: Result<Self, WalError>)
        ensures
            match r {
                Ok(db) => {
                    &&& db.well_formed()
                    &&& wal::records_from(log@, 0) matches Ok(rs)
                    &&& replayed(rs, db.spec_map())
                    &&& entries::sorted(db.spec_map())
                    &&& db.spec_size() == wal::records_size(rs)
                    &&& db.spec_config() == config
                },
                Err(e) => wal::records_from(log@, 0) == Err::<Seq<LogRecord>, WalError>(e),
            },
            forall|map: Seq<Entry>, size: nat| #[trigger]
                logged(log@, map, size) ==> r is Ok && r->Ok_0.spec_size() == size && forall|
                    k: Seq<u8>,
                | #[trigger]
                    entries::find(r->Ok_0.spec_map(), k) == entries::find(map, k),
    {
        let records = match Wal::read(log) {
            Ok(records) => records,
            Err(e) => return Err(e),
        };
        proof {
            let rs = wal::records_view(records@);
            lemma_log_fits(log@, 0, rs);
            assert forall|i: int| 0 <= i < records@.len() implies entries::entry_fits(
                wal::entry_of((#[trigger] records@[i])@),
            ) by {
                assert(entries::entry_fits(wal::entry_of(rs[i])));
            }
            wal::lemma_records_size_bound(log@, 0, rs);
            assert(log@.len() == log.len());
        }
        let size: usize = size_of(&records);
        let map = replay(records);
        let wal = Wal::open(config.sync);
        let db = Db { map, wal, size, config };
        proof {
            let rs = wal::records_from(log@, 0)->Ok_0;
            assert forall|m: Seq<Entry>, n: nat, k: Seq<u8>| #[trigger]
                logged(log@, m, n) implies #[trigger] entries::find(db.map@, k) == entries::find(
                m,
                k,
            ) by {
                assert(entries::find(m, k) == entries::find(wal::entries_of(rs), k));
            }
        }
        Ok(db)
    }

    pub fn config(&self) -> (r: &Config)
        ensures
            *r == self.spec_config(),
    {
        &self.config
    }

    /// Reads `key`. The memtable answers if it knows the key, a deletion
    /// included; only otherwise the tables are asked.
    pub fn get<F>(&self, tables: &SSTableSet<F>, key: &[u8]) -> (r: Get<F>)
        requires
            self.well_formed(),
        ensures
            match r {
                Get::Known(v) => entries::find(self.spec_map(), key@) == Some(entries::option_view(v)),
                Get::Search(l) => {
                    &&& entries::find(self.spec_map(), key@) is None
                    &&& l.well_formed()
                    &&& !l.reading()
                    &&& l.spec_tables() == tables.tables()
                    &&& l.spec_key() == key@
                    &&& l.spec_left() == tables.tables().len()
                },
            },
            forall|files: Seq<Seq<u8>>, layers: Seq<Seq<Entry>>| #[trigger]
                stored::hold_all(tables.tables(), files, layers) ==> match r {
                    Get::Known(v) => entries::option_view(v) == reads(layers, self.spec_map(), key@),
                    Get::Search(l) => {
                        &&& l.tracks(files, layers)
                        &&& reads(layers, self.spec_map(), key@) == entries::visible(
                            entries::find(entries::flatten(layers), key@),
                        )
                    },
                },
    {
        proof {
            assert forall|layers: Seq<Seq<Entry>>| #[trigger]
                reads(layers, self.map@, key@) == (match entries::find(self.map@, key@) {
                    Some(v) => v,
                    None => entries::visible(entries::find(entries::flatten(layers), key@)),
                }) by {
                lemma_reads(layers, self.map@, key@);
            }
        }
        match self.map.get(key) {
            Some(v) => Get::Known(v),
            None => Get::Search(tables.get(key)),
        }
    }

    /// The first half of a write: what to append to the log before `key` is set
    /// to `value`. If the append fails, the write has failed.
    pub fn put(&self, key: &[u8], value: &[u8]) -> (r: Append)
        requires
            self.well_formed(),
            key@.len() + value@.len() + 13 <= u32::MAX,
        ensures
            r.bytes@ == wal::body(wal::record_of((key@, Some(value@)))),
            r.sync == self.spec_config().sync,
    {
        self.wal.insert(key, value)
    }

    /// The second half of a write, once the log has it. Says whether the
    /// memtable has to be flushed now.
    pub fn put_logged(&mut self, key: Vec<u8>, value: Vec<u8>) -> (flush: bool)
        requires
            old(self).well_formed(),
            key@.len() + value@.len() + 13 <= u32::MAX,
            old(self).spec_size() + key@.len() + value@.len() <= usize::MAX,
        ensures
            final(self).well_formed(),
            entries::sorted(final(self).spec_map()),
            final(self).spec_config() == old(self).spec_config(),
            final(self).spec_size() == old(self).spec_size() + key@.len() + value@.len(),
            forall|k: Seq<u8>| #[trigger]
                entries::find(final(self).spec_map(), k) == (if k == key@ {
                    Some(Some(value@))
                } else {
                    entries::find(old(self).spec_map(), k)
                }),
            final(self).spec_map().len() <= old(self).spec_map().len() + 1,
            flush == (final(self).spec_size() > final(self).spec_config().table_size),
    {
        self.size = self.size + (key.len() + value.len());
        self.map.insert(key, Some(value));
        self.size > self.config.table_size
    }

    /// The first half of a deletion.
    pub fn delete(&self, key: &[u8]) -> (r: Append)
        requires
            self.well_formed(),
            key@.len() + 13 <= u32::MAX,
        ensures
            r.bytes@ == wal::body(wal::record_of((key@, None))),
            r.sync == self.spec_config().sync,
    {
        self.wal.delete(key)
    }

    /// The second half of a deletion, once the log has it. The key stays in the
    /// memtable, marked as deleted: an older table may still have a value for it.
    pub fn delete_logged(&mut self, key: Vec<u8>) -> (flush: bool)
        requires
            old(self).well_formed(),
            key@.len() + 13 <= u32::MAX,
            old(self).spec_size() + key@.len() <= usize::MAX,
        ensures
            final(self).well_formed(),
            entries::sorted(final(self).spec_map()),
            final(self).spec_config() == old(self).spec_config(),
            final(self).spec_size() == old(self).spec_size() + key@.len(),
            forall|k: Seq<u8>| #[trigger]
                entries::find(final(self).spec_map(), k) == (if k == key@ {
                    Some(None)
                } else {
                    entries::find(old(self).spec_map(), k)
                }),
            final(self).spec_map().len() <= old(self).spec_map().len() + 1,
            flush == (final(self).spec_size() > final(self).spec_config().table_size),
    {
        self.size = self.size + key.len();
        self.map.insert(key, None);
        self.size > self.config.table_size
    }

    /// Begins a flush: the table that has to be written and published first.
    pub fn flush<F>(&self, tables: &SSTableSet<F>) -> (r: Option<TableImage>)
        requires
            self.well_formed(),
            self.spec_map().len() * tables.spec_bits_per_key() <= usize::MAX - 63,
        ensures
            match r {
                None => self.spec_map().len() == 0,
                Some(image) => {
                    &&& self.spec_map().len() > 0
                    &&& image.shows(
                        self.spec_map(),
                        tables.spec_bits_per_key() as nat,
                        tables.spec_next_seq(),
                        tables.spec_next_seq(),
                    )
                    &&& stored::holds(image.meta.parts(), image.bytes@, self.spec_map())
                },
            },
    {
        tables.write(&self.map)
    }

    /// How many bytes of keys and values were taken in since the last flush.
    pub fn size(&self) -> (n: usize)
        ensures
            n == self.spec_size(),
    {
        self.size
    }

    /// How many entries a flush writes.
    pub fn pending(&self) -> (n: usize)
        ensures
            n == self.spec_map().len(),
    {
        self.map.len()
    }

    /// The memtable's table has been published; next the log is emptied.
    pub fn flushed(&mut self)
        requires
            old(self).well_formed(),
        ensures
            final(self).well_formed(),
            final(self).spec_map() == Seq::<Entry>::empty(),
            final(self).spec_size() == old(self).spec_size(),
            final(self).spec_config() == old(self).spec_config(),
    {
        self.map.clear();
    }

    /// The log has been emptied, which ends the flush.
    pub fn truncated(&mut self)
        requires
            old(self).well_formed(),
        ensures
            final(self).well_formed(),
            final(self).spec_map() == old(self).spec_map(),
            final(self).spec_size() == 0,
            final(self).spec_config() == old(self).spec_config(),
    {
        self.size = 0;
    }

    /// Starts to list all keys that have a value.
    pub fn scan<F>(&self, tables: &SSTableSet<F>) -> (r: Scan<F>)
        requires
            self.well_formed(),
        ensures
            r.well_formed(),
            r.spec_map() == self.spec_map(),
            r.merge.tables() == tables.tables(),
            r.merge.fed() == Seq::new(tables.tables().len(), |i: int| Seq::<Seq<u8>>::empty()),
    {
        Scan::new(tables.merge_all(), self.map.records())
    }
}

/// The memtable decides where it knows a key, and otherwise the tables.
pub proof fn lemma_reads(layers: Seq<Seq<Entry>>, map: Seq<Entry>, key: Seq<u8>)
    ensures
        reads(layers, map, key) == (match entries::find(map, key) {
            Some(v) => v,
            None => entries::visible(entries::find(entries::flatten(layers), key)),
        }),
{
    let all = layers.push(map);
    entries::lemma_find_flatten_last(all, key);
    assert(all.drop_last() =~= layers);
}

} // verus!
