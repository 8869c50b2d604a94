//! Merging sorted tables, oldest first, into one: of several entries for a key
//! the newest survives, and deletions are dropped where nothing older is left
//! for them to hide.
use crate::entries;
use crate::entries::{Entry, TableRecord};
use crate::order;
use crate::order::KeyOrder;
use crate::sstable::layout::TableError;
use crate::sstable::records;
use crate::sstable::records::{NextRecord, Records};
use crate::sstable::table::SSTable;
use crate::sstable::writer;
use std::sync::Arc;
use vstd::prelude::*;

verus! {

// ------------------------------------------------------------- what it means

/// The smallest of the first keys.
pub open spec fn min_head(ts: Seq<Seq<Entry>>) -> Option<Seq<u8>>
    decreases ts.len(),
{
    if ts.len() == 0 {
        None
    } else {
        let m = min_head(ts.drop_last());
        if ts.last().len() == 0 {
            m
        } else {
            match m {
                None => Some(ts.last()[0].0),
                Some(k) => if order::lex_lt(ts.last()[0].0, k) {
                    Some(ts.last()[0].0)
                } else {
                    Some(k)
                },
            }
        }
    }
}

/// `t` begins with an entry for `key`.
pub open spec fn heads(t: Seq<Entry>, key: Seq<u8>) -> bool {
    t.len() > 0 && t[0].0 == key
}

/// What the newest sequence that begins with `key` says about it.
pub open spec fn newest(ts: Seq<Seq<Entry>>, key: Seq<u8>) -> Option<Option<Seq<u8>>>
    decreases ts.len(),
{
    if ts.len() == 0 {
        None
    } else if heads(ts.last(), key) {
        Some(ts.last()[0].1)
    } else {
        newest(ts.drop_last(), key)
    }
}

/// The sequences without their leading entries for `key`.
pub open spec fn pop(ts: Seq<Seq<Entry>>, key: Seq<u8>) -> Seq<Seq<Entry>> {
    Seq::new(
        ts.len(),
        |i: int|
            if heads(ts[i], key) {
                ts[i].skip(1)
            } else {
                ts[i]
            },
    )
}

pub open spec fn total_len(ts: Seq<Seq<Entry>>) -> nat
    decreases ts.len(),
{
    if ts.len() == 0 {
        0
    } else {
        total_len(ts.drop_last()) + ts.last().len()
    }
}

/// The merge of `ts`: again and again the smallest first key, with what the
/// newest sequence says about it.
pub open spec fn merged(ts: Seq<Seq<Entry>>, drop_tombstones: bool) -> Seq<Entry>
    decreases total_len(ts),
{
    match min_head(ts) {
        None => Seq::empty(),
        Some(key) => {
            proof {
                lemma_min_head(ts);
                lemma_pop_shrinks(ts, key);
            }
            let rest = merged(pop(ts, key), drop_tombstones);
            match newest(ts, key) {
                Some(Some(v)) => seq![(key, Some(v))] + rest,
                _ => if drop_tombstones {
                    rest
                } else {
                    seq![(key, None)] + rest
                },
            }
        },
    }
}

/// The smallest first key is a first key, and no first key is smaller.
pub proof fn lemma_min_head(ts: Seq<Seq<Entry>>)
    ensures
        match min_head(ts) {
            Some(key) => {
                &&& exists|i: int| 0 <= i < ts.len() && heads(#[trigger] ts[i], key)
                &&& newest(ts, key) is Some
                &&& forall|i: int|
                    0 <= i < ts.len() && (#[trigger] ts[i]).len() > 0 ==> !order::lex_lt(ts[i][0].0, key)
            },
            None => forall|i: int| 0 <= i < ts.len() ==> (#[trigger] ts[i]).len() == 0,
        },
    decreases ts.len(),
{
    if ts.len() > 0 {
        let before = ts.drop_last();
        lemma_min_head(before);
        match min_head(ts) {
            Some(key) => {
                if heads(ts.last(), key) {
                    assert(heads(ts[ts.len() - 1], key));
                } else {
                    let i = choose|i: int| 0 <= i < before.len() && heads(#[trigger] before[i], key);
                    assert(heads(ts[i], key));
                }
                assert forall|i: int|
                    0 <= i < ts.len() && (#[trigger] ts[i]).len() > 0 implies !order::lex_lt(
                    ts[i][0].0,
                    key,
                ) by {
                    if i < before.len() {
                        assert(before[i] == ts[i]);
                        if min_head(before) is Some && min_head(before)->0 != key {
                            let k = min_head(before)->0;
                            if order::lex_lt(ts[i][0].0, key) {
                                order::lemma_lex_transitive(ts[i][0].0, key, k);
                            }
                        }
                    } else {
                        order::lemma_lex_irreflexive(key);
                    }
                }
            },
            None => {
                assert forall|i: int| 0 <= i < ts.len() implies (#[trigger] ts[i]).len() == 0 by {
                    if i < before.len() {
                        assert(before[i] == ts[i]);
                    }
                }
            },
        }
    }
}

pub proof fn lemma_pop_shrinks(ts: Seq<Seq<Entry>>, key: Seq<u8>)
    ensures
        total_len(pop(ts, key)) <= total_len(ts),
        (exists|i: int| 0 <= i < ts.len() && heads(#[trigger] ts[i], key)) ==> total_len(
            pop(ts, key),
        ) < total_len(ts),
    decreases ts.len(),
{
    if ts.len() > 0 {
        lemma_pop_shrinks(ts.drop_last(), key);
        assert(pop(ts, key).drop_last() =~= pop(ts.drop_last(), key));
        if exists|i: int| 0 <= i < ts.len() && heads(#[trigger] ts[i], key) {
            let i = choose|i: int| 0 <= i < ts.len() && heads(#[trigger] ts[i], key);
            if i < ts.len() - 1 {
                assert(heads(ts.drop_last()[i], key));
            }
        }
    }
}

// ---------------------------------------------------------------- what it does

/// One input of a merge.
pub struct Source<F> {
    pub records: Records<F>,
    /// The next record, once it has been taken from `records`.
    pub head: Option<TableRecord>,
    /// No record is left.
    pub done: bool,
}

/// The head of a source, as a sequence of one entry or none.
pub open spec fn front<F>(s: Source<F>) -> Seq<Entry> {
    match s.head {
        Some(r) => seq![entries::entry_view(r)],
        None => Seq::empty(),
    }
}

impl<F> Source<F> {
    pub open spec fn well_formed(&self) -> bool {
        &&& self.records.well_formed()
        &&& self.head matches Some(r) ==> {
            &&& self.records.pulled@.len() > 0
            &&& self.records.pulled@.last() == entries::entry_view(r)
        }
        &&& self.done ==> self.records.finished()
    }

    /// How many entries of this source have been merged.
    pub open spec fn consumed(&self) -> int {
        self.records.pulled@.len() - front(*self).len()
    }

    /// Something is there to be merged, or never will be.
    pub open spec fn ready(&self) -> bool {
        self.head is Some || self.done
    }

    /// `all` may turn out to be everything that this source gives.
    pub open spec fn may_give(&self, all: Seq<Entry>) -> bool {
        &&& self.records.pulled@.len() <= all.len()
        &&& all.take(self.records.pulled@.len() as int) == self.records.pulled@
        &&& self.done ==> all.len() == self.records.pulled@.len()
    }

    /// A bound on how often this source can still be advanced before it needs
    /// another block.
    pub open spec fn weight(&self) -> nat {
        (self.records.buf@.len() - self.records.cursor + front(*self).len()) as nat
    }

    /// Removes the head.
    fn take_head(&mut self) -> (r: TableRecord)
        requires
            old(self).well_formed(),
            old(self).head is Some,
        ensures
            final(self).well_formed(),
            final(self).records == old(self).records,
            final(self).done == old(self).done,
            final(self).head is None,
            old(self).head == Some(r),
    {
        self.head.take().unwrap()
    }

    /// Makes the source ready if it can: says which bytes it needs otherwise.
    fn fill(&mut self) -> (r: Result<Option<(u64, u64)>, TableError>)
        requires
            old(self).well_formed(),
        ensures
            final(self).well_formed(),
            final(self).records.table == old(self).records.table,
            final(self).records.fed == old(self).records.fed,
            final(self).consumed() == old(self).consumed(),
            final(self).weight() <= old(self).weight(),
            forall|all: Seq<Entry>| final(self).may_give(all) ==> old(self).may_give(all),
            match r {
                Ok(None) => final(self).ready(),
                Ok(Some((start, end))) => {
                    &&& !final(self).ready()
                    &&& final(self).records.drained()
                    &&& final(self).records.fed@.len() < final(self).records.table.meta.sparse_index@.len()
                    &&& records::block_range(
                        *final(self).records.table,
                        final(self).records.fed@.len() as int,
                    ) == (start as int, end as int)
                    &&& start <= end
                },
                Err(e) => {
                    &&& *final(self) == *old(self)
                    &&& !final(self).ready()
                    &&& final(self).records.fails(e)
                    &&& records::faulty(*old(self).records.table, old(self).records.fed@, e)
                },
            },
    {
        if self.head.is_some() || self.done {
            return Ok(None);
        }
        match self.records.next_record() {
            Err(e) => Err(e),
            Ok(NextRecord::Read { start, end }) => Ok(Some((start, end))),
            Ok(NextRecord::End) => {
                self.done = true;
                Ok(None)
            },
            Ok(NextRecord::Record(record)) => {
                self.head = Some(record);
                proof {
                    assert forall|all: Seq<Entry>| self.may_give(all) implies old(self).may_give(
                        all,
                    ) by {
                        let n = old(self).records.pulled@.len() as int;
                        assert(all.take(n) =~= all.take(n + 1).take(n));
                        assert(self.records.pulled@.take(n) =~= old(self).records.pulled@);
                    }
                }
                Ok(None)
            },
        }
    }
}

pub open spec fn fronts<F>(ss: Seq<Source<F>>) -> Seq<Seq<Entry>> {
    Seq::new(ss.len(), |i: int| front(ss[i]))
}

pub open spec fn total_weight<F>(ss: Seq<Source<F>>) -> nat
    decreases ss.len(),
{
    if ss.len() == 0 {
        0
    } else {
        total_weight(ss.drop_last()) + ss.last().weight()
    }
}

proof fn lemma_weight_update<F>(ss: Seq<Source<F>>, i: int, s: Source<F>)
    requires
        0 <= i < ss.len(),
    ensures
        total_weight(ss.update(i, s)) == total_weight(ss) - ss[i].weight() + s.weight(),
    decreases ss.len(),
{
    if i == ss.len() - 1 {
        assert(ss.update(i, s).drop_last() =~= ss.drop_last());
    } else {
        lemma_weight_update(ss.drop_last(), i, s);
        assert(ss.update(i, s).drop_last() =~= ss.drop_last().update(i, s));
    }
}

/// A merge in progress. It says which block it needs, and is given it.
pub struct Merge<F> {
    /// The inputs, oldest first.
    pub sources: Vec<Source<F>>,
    pub merged: Vec<TableRecord>,
    pub drop_tombstones: bool,
}

/// What a merge needs to go on.
pub enum MergeStep<F> {
    /// The bytes of the file of `table` from `start` to `end`, for this source.
    Read { source: usize, table: Arc<SSTable<F>>, start: u64, end: u64 },
    /// Nothing: the merge is complete.
    Done,
}

impl<F> Merge<F> {
    /// `all` may turn out to be everything that the sources give.
    pub open spec fn may_give(&self, all: Seq<Seq<Entry>>) -> bool {
        &&& all.len() == self.sources@.len()
        &&& forall|i: int| 0 <= i < all.len() ==> self.sources@[i].may_give(#[trigger] all[i])
    }

    /// What is left of `all` to be merged.
    pub open spec fn left(&self, all: Seq<Seq<Entry>>) -> Seq<Seq<Entry>> {
        Seq::new(all.len(), |i: int| all[i].skip(self.sources@[i].consumed()))
    }

    /// Whatever the sources will give, the output so far and the merge of what
    /// is left are the merge of everything.
    pub open spec fn well_formed(&self) -> bool {
        &&& forall|i: int| 0 <= i < self.sources@.len() ==> (#[trigger] self.sources@[i]).well_formed()
        &&& forall|all: Seq<Seq<Entry>>| #[trigger]
            self.may_give(all) ==> merged(all, self.drop_tombstones) == entries::entries_view(
                self.merged@,
            ) + merged(self.left(all), self.drop_tombstones)
    }

    /// The blocks that have been handed in, source by source.
    pub open spec fn fed(&self) -> Seq<Seq<Seq<u8>>> {
        Seq::new(self.sources@.len(), |i: int| self.sources@[i].records.fed@)
    }

    /// The tables that are merged.
    pub open spec fn tables(&self) -> Seq<SSTable<F>> {
        Seq::new(self.sources@.len(), |i: int| *self.sources@[i].records.table)
    }

    /// The sources before `i` have their next record, or are at their end.
    pub open spec fn ready_before(&self, i: int) -> bool {
        forall|j: int| 0 <= j < i ==> (#[trigger] self.sources@[j]).ready()
    }

    /// A merge of `tables`, oldest first.
    pub fn new(tables: Vec<Arc<SSTable<F>>>, drop_tombstones: bool) -> (r: Self)
        ensures
            r.well_formed(),
            r.drop_tombstones == drop_tombstones,
            r.tables() == Seq::new(tables@.len(), |i: int| *tables@[i]),
            r.fed() == Seq::new(tables@.len(), |i: int| Seq::<Seq<u8>>::empty()),
    {
        let mut sources: Vec<Source<F>> = Vec::new();
        let mut i: usize = 0;
        while i < tables.len()
            invariant
                i <= tables@.len(),
                sources@.len() == i,
                forall|j: int|
                    0 <= j < i ==> {
                        &&& (#[trigger] sources@[j]).well_formed()
                        &&& sources@[j].records.table == tables@[j]
                        &&& sources@[j].records.fed@ == Seq::<Seq<u8>>::empty()
                        &&& sources@[j].records.pulled@ == Seq::<Entry>::empty()
                        &&& sources@[j].head is None
                        &&& !sources@[j].done
                    },
            decreases tables@.len() - i,
        {
            let records = Records::new(share(&tables[i]));
            sources.push(Source { records, head: None, done: false });
            i = i + 1;
        }
        let r = Merge { sources, merged: Vec::new(), drop_tombstones };
        proof {
            assert(r.tables() =~= Seq::new(tables@.len(), |i: int| *tables@[i]));
            assert(r.fed() =~= Seq::new(tables@.len(), |i: int| Seq::<Seq<u8>>::empty()));
            assert forall|all: Seq<Seq<Entry>>| #[trigger] r.may_give(all) implies merged(
                all,
                drop_tombstones,
            ) == entries::entries_view(r.merged@) + merged(r.left(all), drop_tombstones) by {
                assert(r.left(all) =~= all) by {
                    assert forall|i: int| 0 <= i < all.len() implies r.left(all)[i] == all[i] by {
                        assert(all[i].skip(0) =~= all[i]);
                    }
                }
                assert(entries::entries_view(r.merged@) + merged(all, drop_tombstones) =~= merged(
                    all,
                    drop_tombstones,
                ));
            }
        }
        r
    }

    /// Makes every source ready, in order; stops where one needs a block.
    fn fill_all(&mut self) -> (r: Result<Option<(usize, u64, u64)>, TableError>)
        requires
            old(self).well_formed(),
        ensures
            final(self).well_formed(),
            final(self).merged == old(self).merged,
            final(self).drop_tombstones == old(self).drop_tombstones,
            final(self).tables() == old(self).tables(),
            final(self).fed() == old(self).fed(),
            total_weight(final(self).sources@) <= total_weight(old(self).sources@),
            match r {
                Ok(None) => forall|i: int|
                    0 <= i < final(self).sources@.len() ==> (#[trigger] final(self).sources@[i]).ready(),
                Ok(Some((source, start, end))) => final(self).needs(source as int, start, end)
                    && final(self).ready_before(source as int),
                Err(e) => exists|i: int|
                    #[trigger] final(self).stuck(i, e) && final(self).ready_before(i),
            },
    {
        let mut i: usize = 0;
        while i < self.sources.len()
            invariant
                i <= self.sources@.len(),
                self.well_formed(),
                self.merged == old(self).merged,
                self.drop_tombstones == old(self).drop_tombstones,
                self.sources@.len() == old(self).sources@.len(),
                self.tables() == old(self).tables(),
                self.fed() == old(self).fed(),
                total_weight(self.sources@) <= total_weight(old(self).sources@),
                forall|j: int| 0 <= j < i ==> (#[trigger] self.sources@[j]).ready(),
            decreases self.sources@.len() - i,
        {
            let ghost before = *self;
            let r = self.sources[i].fill();
            proof {
                let s = self.sources@[i as int];
                assert(self.sources@ =~= before.sources@.update(i as int, s));
                lemma_weight_update(before.sources@, i as int, s);
                assert(self.tables() =~= before.tables());
                assert(self.fed() =~= before.fed());
                assert forall|all: Seq<Seq<Entry>>| #[trigger] self.may_give(all) implies merged(
                    all,
                    self.drop_tombstones,
                ) == entries::entries_view(self.merged@) + merged(
                    self.left(all),
                    self.drop_tombstones,
                ) by {
                    assert(before.may_give(all)) by {
                        assert forall|j: int| 0 <= j < all.len() implies before.sources@[j].may_give(
                            #[trigger] all[j],
                        ) by {
                            assert(self.sources@[j].may_give(all[j]));
                        }
                    }
                    assert(self.left(all) =~= before.left(all));
                }
            }
            match r {
                Err(e) => {
                    proof {
                        assert(self.stuck(i as int, e));
                        assert(self.ready_before(i as int));
                    }
                    return Err(e);
                },
                Ok(Some((start, end))) => {
                    return Ok(Some((i, start, end)));
                },
                Ok(None) => {},
            }
            i = i + 1;
        }
        Ok(None)
    }

    /// Source `i` cannot go on without its next block.
    pub open spec fn awaits(&self, i: int) -> bool {
        &&& 0 <= i < self.sources@.len()
        &&& self.sources@[i].records.drained()
        &&& !self.sources@[i].ready()
        &&& self.fed()[i].len() < self.tables()[i].meta.sparse_index@.len()
    }

    /// Source `i` cannot go on at all: all that it gave has been merged, and there
    /// its table is damaged, which is what `e` says.
    pub open spec fn stuck(&self, i: int, e: TableError) -> bool {
        &&& 0 <= i < self.sources@.len()
        &&& !self.sources@[i].ready()
        &&& self.sources@[i].records.fails(e)
        &&& records::faulty(self.tables()[i], self.fed()[i], e)
    }

    /// The next block of source `i` stands from `start` to `end`.
    pub open spec fn needs(&self, i: int, start: u64, end: u64) -> bool {
        &&& self.awaits(i)
        &&& records::block_range(self.tables()[i], self.fed()[i].len() as int) == (
            start as int,
            end as int,
        )
        &&& start <= end
    }

    /// The smallest key among the heads.
    fn smallest(&self) -> (r: Option<Vec<u8>>)
        requires
            self.well_formed(),
        ensures
            match r {
                Some(key) => min_head(fronts(self.sources@)) == Some(key@),
                None => min_head(fronts(self.sources@)) is None,
            },
    {
        let ghost fs = fronts(self.sources@);
        let mut best: Option<usize> = None;
        let mut i: usize = 0;
        while i < self.sources.len()
            invariant
                i <= self.sources@.len(),
                fs == fronts(self.sources@),
                match best {
                    Some(b) => {
                        &&& b < i
                        &&& fs[b as int].len() > 0
                        &&& min_head(fs.take(i as int)) == Some(fs[b as int][0].0)
                    },
                    None => min_head(fs.take(i as int)) is None,
                },
            decreases self.sources@.len() - i,
        {
            proof {
                assert(fs.take(i + 1).drop_last() =~= fs.take(i as int));
                assert(fs.take(i + 1).last() == front(self.sources@[i as int]));
            }
            if let Some(head) = &self.sources[i].head {
                match best {
                    None => {
                        best = Some(i);
                    },
                    Some(b) => {
                        if let Some(other) = &self.sources[b].head {
                            if order::compare(head.0.as_slice(), other.0.as_slice())
                                == KeyOrder::Less {
                                best = Some(i);
                            }
                        }
                    },
                }
            }
            i = i + 1;
        }
        assert(fs.take(i as int) =~= fs);
        match best {
            None => None,
            Some(b) => match &self.sources[b].head {
                Some(head) => Some(writer::copy(&head.0)),
                None => None,
            },
        }
    }

    /// Removes the heads that have this key; the newest of them decides.
    fn take_newest(&mut self, key: &Vec<u8>) -> (r: Option<Option<Vec<u8>>>)
        requires
            forall|i: int|
                0 <= i < old(self).sources@.len() ==> (#[trigger] old(self).sources@[i]).well_formed(),
        ensures
            final(self).merged == old(self).merged,
            final(self).drop_tombstones == old(self).drop_tombstones,
            final(self).sources@.len() == old(self).sources@.len(),
            total_weight(final(self).sources@) <= total_weight(old(self).sources@),
            newest(fronts(old(self).sources@), key@) is Some ==> total_weight(final(self).sources@)
                < total_weight(old(self).sources@),
            forall|i: int|
                0 <= i < final(self).sources@.len() ==> {
                    &&& (#[trigger] final(self).sources@[i]).well_formed()
                    &&& final(self).sources@[i].records == old(self).sources@[i].records
                    &&& final(self).sources@[i].done == old(self).sources@[i].done
                    &&& final(self).sources@[i].head == (if heads(
                        front(old(self).sources@[i]),
                        key@,
                    ) {
                        None
                    } else {
                        old(self).sources@[i].head
                    })
                },
            match r {
                Some(v) => newest(fronts(old(self).sources@), key@) == Some(entries::option_view(v)),
                None => newest(fronts(old(self).sources@), key@) is None,
            },
    {
        let ghost fs = fronts(self.sources@);
        let mut found: Option<Option<Vec<u8>>> = None;
        let mut i: usize = 0;
        while i < self.sources.len()
            invariant
                i <= self.sources@.len(),
                fs == fronts(old(self).sources@),
                self.merged == old(self).merged,
                self.drop_tombstones == old(self).drop_tombstones,
                self.sources@.len() == old(self).sources@.len(),
                forall|j: int|
                    0 <= j < old(self).sources@.len() ==> (#[trigger] old(self).sources@[j]).well_formed(),
                total_weight(self.sources@) <= total_weight(old(self).sources@),
                found is Some ==> total_weight(self.sources@) < total_weight(old(self).sources@),
                forall|j: int|
                    0 <= j < self.sources@.len() ==> {
                        &&& (#[trigger] self.sources@[j]).well_formed()
                        &&& self.sources@[j].records == old(self).sources@[j].records
                        &&& self.sources@[j].done == old(self).sources@[j].done
                        &&& self.sources@[j].head == (if j < i && heads(
                            front(old(self).sources@[j]),
                            key@,
                        ) {
                            None
                        } else {
                            old(self).sources@[j].head
                        })
                    },
                match found {
                    Some(v) => newest(fs.take(i as int), key@) == Some(entries::option_view(v)),
                    None => newest(fs.take(i as int), key@) is None,
                },
            decreases self.sources@.len() - i,
        {
            proof {
                assert(fs.take(i + 1).drop_last() =~= fs.take(i as int));
                assert(fs.take(i + 1).last() == front(old(self).sources@[i as int]));
                assert(self.sources@[i as int].head == old(self).sources@[i as int].head);
            }
            let same: bool = match &self.sources[i].head {
                Some(head) => order::same(head.0.as_slice(), key.as_slice()),
                None => false,
            };
            if same {
                let ghost before = self.sources@;
                let record = self.sources[i].take_head();
                proof {
                    let s = self.sources@[i as int];
                    assert(self.sources@ =~= before.update(i as int, s));
                    lemma_weight_update(before, i as int, s);
                }
                found = Some(record.1);
            }
            i = i + 1;
        }
        assert(fs.take(i as int) =~= fs);
        found
    }

    /// Merges as far as the blocks that have been handed in allow.
    pub fn advance(&mut self) -> (r: Result<MergeStep<F>, TableError>)
        requires
            old(self).well_formed(),
        ensures
            final(self).well_formed(),
            final(self).drop_tombstones == old(self).drop_tombstones,
            final(self).tables() == old(self).tables(),
            final(self).fed() == old(self).fed(),
            match r {
                Ok(MergeStep::Read { source, table, start, end }) => {
                    &&& final(self).needs(source as int, start, end)
                    &&& final(self).ready_before(source as int)
                    &&& *table == final(self).tables()[source as int]
                },
                Ok(MergeStep::Done) => final(self).complete(),
                Err(e) => exists|i: int|
                    #[trigger] final(self).stuck(i, e) && final(self).ready_before(i),
            },
    {
        loop
            invariant
                self.well_formed(),
                self.drop_tombstones == old(self).drop_tombstones,
                self.tables() == old(self).tables(),
                self.fed() == old(self).fed(),
            decreases total_weight(self.sources@),
        {
            match self.fill_all() {
                Err(e) => return Err(e),
                Ok(Some((source, start, end))) => {
                    let table = share(&self.sources[source].records.table);
                    return Ok(MergeStep::Read { source, table, start, end });
                },
                Ok(None) => {},
            }
            let ghost before = *self;
            let key: Vec<u8> = match self.smallest() {
                Some(key) => key,
                None => {
                    proof {
                        self.lemma_complete();
                    }
                    return Ok(MergeStep::Done);
                },
            };
            proof {
                lemma_min_head(fronts(self.sources@));
            }
            let found: Option<Option<Vec<u8>>> = self.take_newest(&key);
            assert(self.tables() =~= before.tables());
            assert(self.fed() =~= before.fed());
            if let Some(value) = found {
                if value.is_some() || !self.drop_tombstones {
                    let ghost record = entries::entry_view((key, value));
                    self.merged.push((key, value));
                    assert(entries::entries_view(self.merged@) =~= entries::entries_view(
                        before.merged@,
                    ).push(record));
                }
            }
            proof {
                self.lemma_step(before);
            }
        }
    }

    /// With every source ready and no head left, everything has been merged.
    proof fn lemma_complete(&self)
        requires
            self.well_formed(),
            forall|i: int| 0 <= i < self.sources@.len() ==> (#[trigger] self.sources@[i]).ready(),
            min_head(fronts(self.sources@)) is None,
        ensures
            self.complete(),
    {
        let fs = fronts(self.sources@);
        lemma_min_head(fs);
        let all = Seq::new(self.sources@.len(), |i: int| self.sources@[i].records.pulled@);
        assert forall|i: int| 0 <= i < all.len() implies self.sources@[i].may_give(
            #[trigger] all[i],
        ) && self.sources@[i].head is None by {
            assert(fs[i].len() == 0);
            assert(all[i].take(all[i].len() as int) =~= all[i]);
        }
        assert(self.may_give(all));
        let left = self.left(all);
        assert forall|i: int| 0 <= i < left.len() implies (#[trigger] left[i]).len() == 0 by {
            assert(self.sources@[i].may_give(all[i]));
        }
        lemma_min_head(left);
        if min_head(left) is Some {
            let key = min_head(left)->0;
            let i = choose|i: int| 0 <= i < left.len() && heads(#[trigger] left[i], key);
            assert(left[i].len() == 0);
        }
        assert(entries::entries_view(self.merged@) =~= merged(all, self.drop_tombstones));
        assert forall|i: int| 0 <= i < self.sources@.len() implies (
        #[trigger] self.sources@[i]).done by {
            assert(self.sources@[i].ready());
            assert(self.sources@[i].may_give(all[i]));
        }
        self.lemma_all_given(all);
    }

    /// Where every source is at its end, the blocks hold what was given out.
    proof fn lemma_all_given(&self, all: Seq<Seq<Entry>>)
        requires
            self.well_formed(),
            all == Seq::new(self.sources@.len(), |i: int| self.sources@[i].records.pulled@),
            forall|i: int| 0 <= i < self.sources@.len() ==> (#[trigger] self.sources@[i]).done,
        ensures
            given(self.fed()) == all,
            forall|i: int|
                0 <= i < self.tables().len() ==> {
                    &&& self.fed()[i].len() == (#[trigger] self.tables()[i]).meta.sparse_index@.len()
                    &&& records::stream(self.fed()[i]) is Ok
                },
    {
        assert forall|i: int| 0 <= i < self.tables().len() implies {
            &&& self.fed()[i].len() == (#[trigger] self.tables()[i]).meta.sparse_index@.len()
            &&& records::stream(self.fed()[i]) == Ok::<Seq<Entry>, TableError>(all[i])
        } by {
            assert(self.sources@[i].done);
            self.sources@[i].records.lemma_all_read();
        }
        assert forall|i: int| 0 <= i < all.len() implies given(self.fed())[i] == all[i] by {
            assert(self.tables()[i] == *self.sources@[i].records.table);
        }
        assert(given(self.fed()) =~= all);
    }

    /// One round: the smallest head goes to the output, unless it is a
    /// deletion that may be dropped.
    proof fn lemma_step(&self, before: Self)
        requires
            before.well_formed(),
            forall|i: int| 0 <= i < before.sources@.len() ==> (#[trigger] before.sources@[i]).ready(),
            min_head(fronts(before.sources@)) is Some,
            self.drop_tombstones == before.drop_tombstones,
            self.sources@.len() == before.sources@.len(),
            ({
                let key = min_head(fronts(before.sources@))->0;
                &&& forall|i: int|
                    0 <= i < self.sources@.len() ==> {
                        &&& (#[trigger] self.sources@[i]).well_formed()
                        &&& self.sources@[i].records == before.sources@[i].records
                        &&& self.sources@[i].done == before.sources@[i].done
                        &&& self.sources@[i].head == (if heads(front(before.sources@[i]), key) {
                            None
                        } else {
                            before.sources@[i].head
                        })
                    }
                &&& match newest(fronts(before.sources@), key) {
                    Some(Some(v)) => entries::entries_view(self.merged@)
                        == entries::entries_view(before.merged@).push((key, Some(v))),
                    Some(None) => entries::entries_view(self.merged@) == (if self.drop_tombstones {
                        entries::entries_view(before.merged@)
                    } else {
                        entries::entries_view(before.merged@).push((key, None))
                    }),
                    None => false,
                }
            }),
        ensures
            self.well_formed(),
    {
        let fs = fronts(before.sources@);
        let key = min_head(fs)->0;
        let d = self.drop_tombstones;
        assert forall|all: Seq<Seq<Entry>>| #[trigger] self.may_give(all) implies merged(all, d)
            == entries::entries_view(self.merged@) + merged(self.left(all), d) by {
            assert forall|i: int| 0 <= i < all.len() implies before.sources@[i].may_give(
                #[trigger] all[i],
            ) by {
                assert(self.sources@[i].may_give(all[i]));
            }
            assert(before.may_give(all));
            let left = before.left(all);
            assert forall|i: int| 0 <= i < left.len() implies same_front(
                #[trigger] left[i],
                fs[i],
            ) by {
                let s = before.sources@[i];
                assert(s.may_give(all[i]));
                assert(s.ready());
                if s.head is Some {
                    let n = s.records.pulled@.len() as int;
                    assert(left[i][0] == all[i][n - 1]);
                    assert(all[i].take(n)[n - 1] == all[i][n - 1]);
                }
            }
            lemma_same_fronts(left, fs, key);
            assert(self.left(all) =~= pop(left, key)) by {
                assert forall|i: int| 0 <= i < all.len() implies self.left(all)[i] == pop(
                    left,
                    key,
                )[i] by {
                    let c = before.sources@[i].consumed();
                    assert(same_front(left[i], fs[i]));
                    assert(self.sources@[i].may_give(all[i]));
                    if heads(fs[i], key) {
                        assert(all[i].skip(c).skip(1) =~= all[i].skip(c + 1));
                    }
                }
            }
            let out = entries::entries_view(before.merged@);
            let rest = merged(pop(left, key), d);
            assert(merged(all, d) == out + merged(left, d));
            match newest(fs, key) {
                Some(Some(v)) => {
                    assert(out + (seq![(key, Some(v))] + rest) =~= out.push((key, Some(v))) + rest);
                },
                _ => {
                    assert(out + (seq![(key, None::<Seq<u8>>)] + rest) =~= out.push((key, None))
                        + rest);
                },
            }
        }
    }

    /// All blocks of all tables have been handed in, and the output is the
    /// merge of everything they hold.
    pub open spec fn complete(&self) -> bool {
        &&& forall|i: int|
            0 <= i < self.tables().len() ==> {
                &&& self.fed()[i].len() == (#[trigger] self.tables()[i]).meta.sparse_index@.len()
                &&& records::stream(self.fed()[i]) is Ok
            }
        &&& entries::entries_view(self.merged@) == merged(given(self.fed()), self.drop_tombstones)
    }

    /// Hands in the block that source `source` needs.
    pub fn feed(&mut self, source: usize, block: Vec<u8>)
        requires
            old(self).well_formed(),
            old(self).awaits(source as int),
        ensures
            final(self).well_formed(),
            final(self).drop_tombstones == old(self).drop_tombstones,
            final(self).merged == old(self).merged,
            final(self).tables() == old(self).tables(),
            final(self).fed() == old(self).fed().update(
                source as int,
                old(self).fed()[source as int].push(block@),
            ),
    {
        let ghost before = *self;
        self.sources[source].records.feed(block);
        proof {
            let s = self.sources@[source as int];
            assert(self.sources@ =~= before.sources@.update(source as int, s));
            assert(self.tables() =~= before.tables());
            assert(self.fed() =~= before.fed().update(
                source as int,
                before.fed()[source as int].push(block@),
            ));
            assert forall|all: Seq<Seq<Entry>>| #[trigger] self.may_give(all) implies merged(
                all,
                self.drop_tombstones,
            ) == entries::entries_view(self.merged@) + merged(
                self.left(all),
                self.drop_tombstones,
            ) by {
                assert forall|i: int| 0 <= i < all.len() implies before.sources@[i].may_give(
                    #[trigger] all[i],
                ) by {
                    assert(self.sources@[i].may_give(all[i]));
                }
                assert(before.may_give(all));
                assert(self.left(all) =~= before.left(all));
            }
        }
    }
}

/// The entries in the blocks of each source.
pub open spec fn given(fed: Seq<Seq<Seq<u8>>>) -> Seq<Seq<Entry>> {
    Seq::new(fed.len(), |i: int| records::stream(fed[i])->Ok_0)
}

/// Both are empty, or begin with the same entry.
spec fn same_front(a: Seq<Entry>, b: Seq<Entry>) -> bool {
    &&& a.len() > 0 <==> b.len() > 0
    &&& a.len() > 0 ==> a[0] == b[0]
}

/// The smallest head and the newest value depend on the first entries alone.
proof fn lemma_same_fronts(a: Seq<Seq<Entry>>, b: Seq<Seq<Entry>>, key: Seq<u8>)
    requires
        a.len() == b.len(),
        forall|i: int| 0 <= i < a.len() ==> same_front(#[trigger] a[i], b[i]),
    ensures
        min_head(a) == min_head(b),
        newest(a, key) == newest(b, key),
    decreases a.len(),
{
    if a.len() > 0 {
        assert(same_front(a[a.len() - 1], b[a.len() - 1]));
        assert forall|i: int| 0 <= i < a.len() - 1 implies same_front(
            #[trigger] a.drop_last()[i],
            b.drop_last()[i],
        ) by {
            assert(same_front(a[i], b[i]));
        }
        lemma_same_fronts(a.drop_last(), b.drop_last(), key);
    }
}

// ---------------------------------------------------------------------- laws

/// Every sequence is sorted.
pub open spec fn all_sorted(ts: Seq<Seq<Entry>>) -> bool {
    forall|i: int| 0 <= i < ts.len() ==> entries::sorted(#[trigger] ts[i])
}

/// What is left of an answer once deletions may be forgotten.
pub open spec fn without_tombstone(found: Option<Option<Seq<u8>>>) -> Option<Option<Seq<u8>>> {
    match found {
        Some(None) => None,
        _ => found,
    }
}

/// No sequence begins with a smaller key.
spec fn no_smaller(ts: Seq<Seq<Entry>>, key: Seq<u8>) -> bool {
    forall|i: int|
        0 <= i < ts.len() && (#[trigger] ts[i]).len() > 0 ==> !order::lex_lt(ts[i][0].0, key)
}

/// A sorted sequence that does not begin before `key` has it first or not at
/// all.
proof fn lemma_find_head(t: Seq<Entry>, key: Seq<u8>)
    requires
        entries::sorted(t),
        t.len() > 0 ==> !order::lex_lt(t[0].0, key),
    ensures
        entries::find(t, key) == (if heads(t, key) {
            Some(t[0].1)
        } else {
            None
        }),
{
    if heads(t, key) {
        entries::lemma_find_sorted(t, 0);
    } else {
        entries::lemma_find_witness(t, key);
        if entries::find(t, key) is Some {
            let v = entries::find(t, key)->0;
            let i = choose|i: int| 0 <= i < t.len() && #[trigger] t[i] == (key, v);
            assert(i > 0);
            assert(order::lex_lt(t[0].0, t[i].0));
        }
    }
}

proof fn lemma_newest_is_found(ts: Seq<Seq<Entry>>, key: Seq<u8>)
    requires
        all_sorted(ts),
        no_smaller(ts, key),
    ensures
        newest(ts, key) == entries::find(entries::flatten(ts), key),
    decreases ts.len(),
{
    if ts.len() > 0 {
        let before = ts.drop_last();
        assert(entries::sorted(ts[ts.len() - 1]));
        assert forall|i: int| 0 <= i < before.len() implies entries::sorted(#[trigger] before[i]) by {
            assert(before[i] == ts[i]);
        }
        assert forall|i: int|
            0 <= i < before.len() && (#[trigger] before[i]).len() > 0 implies !order::lex_lt(
            before[i][0].0,
            key,
        ) by {
            assert(before[i] == ts[i]);
        }
        lemma_newest_is_found(before, key);
        lemma_find_head(ts[ts.len() - 1], key);
        entries::lemma_find_flatten_last(ts, key);
    }
}

/// Popping a key removes it and nothing else.
proof fn lemma_pop_finds(ts: Seq<Seq<Entry>>, key: Seq<u8>, k: Seq<u8>)
    requires
        all_sorted(ts),
        no_smaller(ts, key),
    ensures
        entries::find(entries::flatten(pop(ts, key)), k) == (if k == key {
            None
        } else {
            entries::find(entries::flatten(ts), k)
        }),
    decreases ts.len(),
{
    let popped = pop(ts, key);
    if ts.len() > 0 {
        let before = ts.drop_last();
        let t = ts[ts.len() - 1];
        assert(entries::sorted(t));
        assert forall|i: int| 0 <= i < before.len() implies entries::sorted(#[trigger] before[i]) by {
            assert(before[i] == ts[i]);
        }
        assert forall|i: int|
            0 <= i < before.len() && (#[trigger] before[i]).len() > 0 implies !order::lex_lt(
            before[i][0].0,
            key,
        ) by {
            assert(before[i] == ts[i]);
        }
        lemma_pop_finds(before, key, k);
        assert(popped.drop_last() =~= pop(before, key));
        entries::lemma_find_flatten_last(ts, k);
        entries::lemma_find_flatten_last(popped, k);
        lemma_find_head(t, key);
        if heads(t, key) {
            entries::lemma_find_front(t, k);
            if k == key {
                // The rest of a sorted sequence does not repeat its first key.
                entries::lemma_find_witness(t.skip(1), key);
                if entries::find(t.skip(1), key) is Some {
                    let v = entries::find(t.skip(1), key)->0;
                    let i = choose|i: int| 0 <= i < t.skip(1).len() && #[trigger] t.skip(1)[i] == (key, v);
                    assert(t[i + 1].0 == key);
                    assert(order::lex_lt(t[0].0, t[i + 1].0));
                    order::lemma_lex_irreflexive(key);
                }
            }
        }
    }
}

proof fn lemma_pop_sorted(ts: Seq<Seq<Entry>>, key: Seq<u8>)
    requires
        all_sorted(ts),
    ensures
        all_sorted(pop(ts, key)),
{
    assert forall|i: int| 0 <= i < ts.len() implies entries::sorted(#[trigger] pop(ts, key)[i]) by {
        assert(entries::sorted(ts[i]));
        if heads(ts[i], key) {
            entries::lemma_sorted_subrange(ts[i], 1, ts[i].len() as int);
            assert(ts[i].skip(1) =~= ts[i].subrange(1, ts[i].len() as int));
        }
    }
}

/// A key that is found is in one of the sequences.
proof fn lemma_flatten_witness(ts: Seq<Seq<Entry>>, k: Seq<u8>)
    requires
        entries::find(entries::flatten(ts), k) is Some,
    ensures
        exists|i: int| 0 <= i < ts.len() && entries::find(#[trigger] ts[i], k) is Some,
    decreases ts.len(),
{
    if ts.len() > 0 {
        entries::lemma_find_flatten_last(ts, k);
        if entries::find(ts.last(), k) is Some {
            assert(entries::find(ts[ts.len() - 1], k) is Some);
        } else {
            let before = ts.drop_last();
            lemma_flatten_witness(before, k);
            let i = choose|i: int| 0 <= i < before.len() && entries::find(#[trigger] before[i], k) is Some;
            assert(entries::find(ts[i], k) is Some);
        }
    }
}

/// A merge says about every key what the newest of its inputs says; where
/// deletions may be dropped it says nothing instead of "deleted".
pub proof fn merge_keeps_the_newest(ts: Seq<Seq<Entry>>, drop_tombstones: bool, k: Seq<u8>)
    requires
        all_sorted(ts),
    ensures
        entries::find(merged(ts, drop_tombstones), k) == (if drop_tombstones {
            without_tombstone(entries::find(entries::flatten(ts), k))
        } else {
            entries::find(entries::flatten(ts), k)
        }),
    decreases total_len(ts),
{
    lemma_min_head(ts);
    match min_head(ts) {
        None => {
            if entries::find(entries::flatten(ts), k) is Some {
                lemma_flatten_witness(ts, k);
                let i = choose|i: int| 0 <= i < ts.len() && entries::find(#[trigger] ts[i], k) is Some;
                assert(ts[i].len() == 0);
            }
        },
        Some(key) => {
            lemma_pop_shrinks(ts, key);
            lemma_pop_sorted(ts, key);
            lemma_newest_is_found(ts, key);
            lemma_pop_finds(ts, key, k);
            let popped = pop(ts, key);
            merge_keeps_the_newest(popped, drop_tombstones, k);
            let rest = merged(popped, drop_tombstones);
            let v = newest(ts, key)->0;
            let out = seq![(key, v)] + rest;
            entries::lemma_find_front(out, k);
            assert(out.skip(1) =~= rest);
        },
    }
}

/// A merge of sorted tables is sorted.
pub proof fn merge_is_sorted(ts: Seq<Seq<Entry>>, drop_tombstones: bool)
    requires
        all_sorted(ts),
    ensures
        entries::sorted(merged(ts, drop_tombstones)),
    decreases total_len(ts),
{
    lemma_min_head(ts);
    match min_head(ts) {
        None => {},
        Some(key) => {
            lemma_pop_shrinks(ts, key);
            lemma_pop_sorted(ts, key);
            let popped = pop(ts, key);
            let rest = merged(popped, drop_tombstones);
            merge_is_sorted(popped, drop_tombstones);
            let v = newest(ts, key)->0;
            let out = seq![(key, v)] + rest;
            assert forall|j: int| 0 <= j < rest.len() implies order::lex_lt(
                key,
                (#[trigger] rest[j]).0,
            ) by {
                let k = rest[j].0;
                entries::lemma_find_sorted(rest, j);
                merge_keeps_the_newest(popped, drop_tombstones, k);
                lemma_pop_finds(ts, key, k);
                lemma_flatten_witness(ts, k);
                let i = choose|i: int| 0 <= i < ts.len() && entries::find(#[trigger] ts[i], k) is Some;
                entries::lemma_find_witness(ts[i], k);
                let w = entries::find(ts[i], k)->0;
                let m = choose|m: int| 0 <= m < ts[i].len() && #[trigger] ts[i][m] == (k, w);
                order::lemma_lex_total(key, k);
                if order::lex_lt(k, key) {
                    if m > 0 {
                        assert(entries::sorted(ts[i]));
                        assert(order::lex_lt(ts[i][0].0, ts[i][m].0));
                        order::lemma_lex_transitive(ts[i][0].0, k, key);
                    }
                    assert(false);
                }
            }
            assert forall|a: int, b: int| 0 <= a < b < out.len() implies order::lex_lt(
                #[trigger] out[a].0,
                #[trigger] out[b].0,
            ) by {
                assert(out[b] == rest[b - 1]);
                if a > 0 {
                    assert(out[a] == rest[a - 1]);
                }
            }
        },
    }
}

/// Entries that fit their fields still do after a merge.
pub proof fn merge_entries_fit(ts: Seq<Seq<Entry>>, drop_tombstones: bool)
    requires
        forall|i: int| 0 <= i < ts.len() ==> entries::all_fit(#[trigger] ts[i]),
    ensures
        entries::all_fit(merged(ts, drop_tombstones)),
    decreases total_len(ts),
{
    lemma_min_head(ts);
    match min_head(ts) {
        None => {},
        Some(key) => {
            lemma_pop_shrinks(ts, key);
            let popped = pop(ts, key);
            assert forall|i: int| 0 <= i < popped.len() implies entries::all_fit(
                #[trigger] popped[i],
            ) by {
                assert(entries::all_fit(ts[i]));
                assert forall|j: int| 0 <= j < popped[i].len() implies entries::entry_fits(
                    #[trigger] popped[i][j],
                ) by {
                    if heads(ts[i], key) {
                        assert(popped[i][j] == ts[i][j + 1]);
                    }
                }
            }
            merge_entries_fit(popped, drop_tombstones);
            lemma_newest_fits(ts, key);
        },
    }
}

proof fn lemma_newest_fits(ts: Seq<Seq<Entry>>, key: Seq<u8>)
    requires
        forall|i: int| 0 <= i < ts.len() ==> entries::all_fit(#[trigger] ts[i]),
    ensures
        newest(ts, key) matches Some(v) ==> entries::entry_fits((key, v)),
    decreases ts.len(),
{
    if ts.len() > 0 {
        assert(entries::all_fit(ts[ts.len() - 1]));
        if heads(ts.last(), key) {
            assert(entries::entry_fits(ts.last()[0]));
        } else {
            assert forall|i: int| 0 <= i < ts.len() - 1 implies entries::all_fit(
                #[trigger] ts.drop_last()[i],
            ) by {
                assert(entries::all_fit(ts[i]));
            }
            lemma_newest_fits(ts.drop_last(), key);
        }
    }
}

/// Another pointer to the same table: `Arc::clone` hands out a pointer to the
/// same allocation, so both lead to the same value.
#[verifier::external_body]
pub(crate) fn share<T>(a: &Arc<T>) -> (r: Arc<T>)
    ensures
        r == *a,
{
    Arc::clone(a)
}

/// Where deletions may be dropped, none is left.
pub proof fn dropped_deletions_are_gone(ts: Seq<Seq<Entry>>, i: int)
    requires
        0 <= i < merged(ts, true).len(),
    ensures
        merged(ts, true)[i].1 is Some,
    decreases total_len(ts),
{
    lemma_min_head(ts);
    match min_head(ts) {
        None => {},
        Some(key) => {
            lemma_pop_shrinks(ts, key);
            let rest = merged(pop(ts, key), true);
            let dropped = newest(ts, key)->0 is None;
            if dropped {
                dropped_deletions_are_gone(pop(ts, key), i);
            } else if i > 0 {
                dropped_deletions_are_gone(pop(ts, key), i - 1);
                assert(merged(ts, true)[i] == rest[i - 1]);
            }
        },
    }
}

} // verus!
