//! What a store keeps, whatever happens: a write is seen, a flush and a
//! compaction change nothing, and a crash at any point loses no write that was
//! on disk.
use crate::db;
use crate::entries;
use crate::entries::Entry;
use crate::sstable::merge;
use crate::sstable::tableset;
use crate::wal;
use crate::wal::{LogRecord, WalError};
use vstd::prelude::*;

verus! {

/// `after` is `before` with one entry written.
pub open spec fn updates(before: Seq<Entry>, after: Seq<Entry>, e: Entry) -> bool {
    forall|k: Seq<u8>| #[trigger]
        entries::find(after, k) == (if k == e.0 {
            Some(e.1)
        } else {
            entries::find(before, k)
        })
}

/// `map` is what opening a store with this log puts into the memtable.
pub open spec fn recovers(log: Seq<u8>, map: Seq<Entry>) -> bool {
    &&& wal::records_from(log, 0) matches Ok(rs)
    &&& db::replayed(rs, map)
}

/// A write is seen by the next read of its key, and by no read of another key.
pub proof fn a_write_is_seen(
    layers: Seq<Seq<Entry>>,
    before: Seq<Entry>,
    after: Seq<Entry>,
    e: Entry,
    k: Seq<u8>,
)
    requires
        updates(before, after, e),
    ensures
        db::reads(layers, after, k) == (if k == e.0 {
            e.1
        } else {
            db::reads(layers, before, k)
        }),
{
    db::lemma_reads(layers, before, k);
    db::lemma_reads(layers, after, k);
    assert(entries::find(after, k) == (if k == e.0 {
        Some(e.1)
    } else {
        entries::find(before, k)
    }));
}

/// Moving the memtable into a table changes no answer.
pub proof fn a_flush_changes_nothing(layers: Seq<Seq<Entry>>, map: Seq<Entry>, k: Seq<u8>)
    ensures
        db::reads(layers.push(map), Seq::empty(), k) == db::reads(layers, map, k),
{
    db::lemma_reads(layers.push(map), Seq::empty(), k);
}

/// Merging tables changes no answer.
pub proof fn a_compaction_changes_nothing(
    layers: Seq<Seq<Entry>>,
    map: Seq<Entry>,
    start: int,
    count: int,
    k: Seq<u8>,
)
    requires
        merge::all_sorted(layers),
        0 <= start,
        0 <= count,
        start + count <= layers.len(),
    ensures
        db::reads(tableset::compacted(layers, start, count), map, k) == db::reads(layers, map, k),
{
    tableset::compaction_preserves_every_key(layers, start, count, k);
    db::lemma_reads(layers, map, k);
    db::lemma_reads(tableset::compacted(layers, start, count), map, k);
}

/// An empty log goes with an empty memtable.
pub proof fn an_empty_log_is_complete()
    ensures
        db::logged(Seq::empty(), Seq::empty(), 0),
{
    let none = Seq::<LogRecord>::empty();
    assert(wal::entries_of(none) =~= Seq::<Entry>::empty());
    assert(wal::records_from(Seq::empty(), 0) == Ok::<Seq<LogRecord>, WalError>(none));
}

/// Appending a record and then applying it keeps the log complete, and the count
/// of its bytes right.
pub proof fn appending_keeps_the_log_complete(
    log: Seq<u8>,
    before: Seq<Entry>,
    after: Seq<Entry>,
    size: nat,
    e: Entry,
)
    requires
        db::logged(log, before, size),
        updates(before, after, e),
        wal::record_fits(wal::record_of(e)),
    ensures
        db::logged(
            log + wal::body(wal::record_of(e)),
            after,
            size + e.0.len() + (match e.1 {
                Some(v) => v.len(),
                None => 0,
            }),
        ),
{
    let rs = wal::records_from(log, 0)->Ok_0;
    let r = wal::record_of(e);
    let more = rs.push(r);
    wal::an_appended_record_is_read_back(log, rs, r);
    wal::lemma_records_size_push(rs, r);
    assert(wal::entries_of(more) =~= wal::entries_of(rs).push(e));
    assert forall|k: Seq<u8>| #[trigger]
        entries::find(after, k) == entries::find(wal::entries_of(more), k) by {
        entries::lemma_find_push(wal::entries_of(rs), e, k);
        assert(entries::find(before, k) == entries::find(wal::entries_of(rs), k));
    }
}

/// Whatever log a crash has left, as long as it can be read: once its torn tail
/// is cut off, it is complete again, so all that follows is as durable as in a
/// store that never crashed.
pub proof fn a_recovered_log_is_complete(log: Seq<u8>, map: Seq<Entry>)
    requires
        recovers(log, map),
    ensures
        db::logged(
            log.take(wal::intact_end(log, 0)),
            map,
            wal::records_size(wal::records_from(log, 0)->Ok_0),
        ),
{
    wal::lemma_intact_part(log, wal::records_from(log, 0)->Ok_0);
}

/// Opening a store again gives back everything its log holds.
pub proof fn reopening_loses_nothing(
    layers: Seq<Seq<Entry>>,
    log: Seq<u8>,
    map: Seq<Entry>,
    size: nat,
    reopened: Seq<Entry>,
    k: Seq<u8>,
)
    requires
        db::logged(log, map, size),
    ensures
        wal::records_from(log, 0) is Ok,
        recovers(log, reopened) ==> db::reads(layers, reopened, k) == db::reads(layers, map, k),
{
    let rs = wal::records_from(log, 0)->Ok_0;
    if recovers(log, reopened) {
        lemma_same_reads(layers, rs, map, reopened, k);
    }
}

proof fn lemma_same_reads(
    layers: Seq<Seq<Entry>>,
    rs: Seq<LogRecord>,
    a: Seq<Entry>,
    b: Seq<Entry>,
    k: Seq<u8>,
)
    requires
        db::replayed(rs, a),
        db::replayed(rs, b),
    ensures
        db::reads(layers, a, k) == db::reads(layers, b, k),
{
    db::lemma_reads(layers, a, k);
    db::lemma_reads(layers, b, k);
    assert(entries::find(a, k) == entries::find(wal::entries_of(rs), k));
    assert(entries::find(b, k) == entries::find(wal::entries_of(rs), k));
}

/// A crash in the middle of a write, after any number of its bytes: once all of
/// them are in the log the write is there, and before that the store is as it
/// was without it.
pub proof fn a_crash_during_a_write_keeps_the_rest(
    layers: Seq<Seq<Entry>>,
    log: Seq<u8>,
    before: Seq<Entry>,
    size: nat,
    e: Entry,
    n: int,
    reopened: Seq<Entry>,
    k: Seq<u8>,
)
    requires
        db::logged(log, before, size),
        wal::record_fits(wal::record_of(e)),
        0 <= n <= wal::body(wal::record_of(e)).len(),
    ensures
        wal::records_from(log + wal::body(wal::record_of(e)).take(n), 0) is Ok,
        recovers(log + wal::body(wal::record_of(e)).take(n), reopened) ==> db::reads(
            layers,
            reopened,
            k,
        ) == (if n == wal::body(wal::record_of(e)).len() && k == e.0 {
            e.1
        } else {
            db::reads(layers, before, k)
        }),
{
    let r = wal::record_of(e);
    let torn = log + wal::body(r).take(n);
    let rs = wal::records_from(log, 0)->Ok_0;
    if n < wal::body(r).len() {
        wal::torn_write_is_recovered(log, rs, r, n);
        if recovers(torn, reopened) {
            lemma_same_reads(layers, rs, before, reopened, k);
        }
    } else {
        assert(wal::body(r).take(n) =~= wal::body(r));
        let after = before.push(e);
        assert forall|q: Seq<u8>| #[trigger]
            entries::find(after, q) == (if q == e.0 {
                Some(e.1)
            } else {
                entries::find(before, q)
            }) by {
            entries::lemma_find_push(before, e, q);
        }
        appending_keeps_the_log_complete(log, before, after, size, e);
        let grown = wal::records_size(wal::records_from(torn, 0)->Ok_0);
        reopening_loses_nothing(layers, torn, after, grown, reopened, k);
        a_write_is_seen(layers, before, after, e, k);
    }
}

/// A write that is accepted after a crash is there after the next restart, and so
/// is all that was recovered: the log that the crash left, cut to its whole
/// records, with the write behind them.
pub proof fn a_write_after_a_crash_survives(
    layers: Seq<Seq<Entry>>,
    log: Seq<u8>,
    recovered: Seq<Entry>,
    e: Entry,
    reopened: Seq<Entry>,
    k: Seq<u8>,
)
    requires
        recovers(log, recovered),
        wal::record_fits(wal::record_of(e)),
    ensures
        wal::records_from(
            log.take(wal::intact_end(log, 0)) + wal::body(wal::record_of(e)),
            0,
        ) is Ok,
        recovers(log.take(wal::intact_end(log, 0)) + wal::body(wal::record_of(e)), reopened)
            ==> db::reads(layers, reopened, k) == (if k == e.0 {
            e.1
        } else {
            db::reads(layers, recovered, k)
        }),
{
    let kept = log.take(wal::intact_end(log, 0));
    let b = wal::body(wal::record_of(e));
    let size = wal::records_size(wal::records_from(log, 0)->Ok_0);
    a_recovered_log_is_complete(log, recovered);
    a_crash_during_a_write_keeps_the_rest(
        layers,
        kept,
        recovered,
        size,
        e,
        b.len() as int,
        reopened,
        k,
    );
    assert(b.take(b.len() as int) =~= b);
}

/// A crash during a flush. Until the new table is published the log still has
/// everything; between the publication and the emptying of the log both have it;
/// afterwards the table has it. The store reads the same each time.
pub proof fn a_crash_during_a_flush_loses_nothing(
    layers: Seq<Seq<Entry>>,
    log: Seq<u8>,
    map: Seq<Entry>,
    size: nat,
    reopened: Seq<Entry>,
    k: Seq<u8>,
)
    requires
        db::logged(log, map, size),
    ensures
        recovers(log, reopened) ==> db::reads(layers, reopened, k) == db::reads(layers, map, k),
        recovers(log, reopened) ==> db::reads(layers.push(map), reopened, k) == db::reads(
            layers,
            map,
            k,
        ),
        recovers(Seq::empty(), reopened) ==> db::reads(layers.push(map), reopened, k) == db::reads(
            layers,
            map,
            k,
        ),
{
    reopening_loses_nothing(layers, log, map, size, reopened, k);
    reopening_loses_nothing(layers.push(map), log, map, size, reopened, k);
    an_empty_log_is_complete();
    reopening_loses_nothing(layers.push(map), Seq::empty(), Seq::empty(), 0, reopened, k);
    a_flush_changes_nothing(layers, map, k);
    db::lemma_reads(layers.push(map), map, k);
    db::lemma_reads(layers, map, k);
    let all = layers.push(map);
    entries::lemma_find_flatten_last(all, k);
    assert(all.drop_last() =~= layers);
}

} // verus!
