//! The tables of a store, oldest first: looking keys up in them, adding the
//! table of a flush, and replacing a run of tables by one.
use crate::entries;
use crate::entries::Entry;
use crate::memtable::Memtable;
use crate::sstable::image;
use crate::sstable::image::TableImage;
use crate::sstable::lookup;
use crate::sstable::lookup::Lookup;
use crate::sstable::merge;
use crate::sstable::merge::Merge;
use crate::sstable::records;
use crate::sstable::stored;
use crate::sstable::table::SSTable;
use std::sync::Arc;
use vstd::prelude::*;

verus! {

/// Published tables. The list that a reader holds never changes: publishing a
/// change means building a new list.
pub struct SSTableSet<F> {
    sstables: Arc<Vec<Arc<SSTable<F>>>>,
    bits_per_key: usize,
    next_seq: u64,
}

/// Each table comes after all flushes of the one before.
pub open spec fn in_order<F>(ts: Seq<SSTable<F>>) -> bool {
    &&& forall|i: int| 0 <= i < ts.len() ==> (#[trigger] ts[i]).first_seq <= ts[i].last_seq
    &&& forall|i: int, j: int|
        0 <= i < j < ts.len() ==> (#[trigger] ts[i]).last_seq < (#[trigger] ts[j]).first_seq
}

/// `list` with the `count` elements from `start` on replaced.
pub open spec fn splice<T>(list: Seq<T>, start: int, count: int, replacement: Option<T>) -> Seq<T> {
    list.take(start) + (match replacement {
        Some(t) => seq![t],
        None => Seq::empty(),
    }) + list.skip(start + count)
}

/// A run of tables that is being merged into one.
pub struct Compaction<F> {
    pub merge: Merge<F>,
    /// Where the run stands in the set.
    pub start: usize,
    pub count: usize,
    /// The flushes that the new table covers.
    pub first_seq: u64,
    pub last_seq: u64,
}

impl<F> SSTableSet<F> {
    pub closed spec fn tables(&self) -> Seq<SSTable<F>> {
        lookup::pointees(self.sstables@)
    }

    pub closed spec fn spec_bits_per_key(&self) -> usize {
        self.bits_per_key
    }

    pub closed spec fn spec_next_seq(&self) -> u64 {
        self.next_seq
    }

    /// The next flush comes after all tables.
    pub open spec fn well_formed(&self) -> bool {
        forall|i: int|
            0 <= i < self.tables().len() ==> (#[trigger] self.tables()[i]).last_seq
                < self.spec_next_seq()
    }

    /// The set of `tables`, oldest first, where the next flush is `next_seq`.
    pub fn open(tables: Vec<SSTable<F>>, bits_per_key: usize, next_seq: u64) -> (r: Self)
        requires
            forall|i: int|
                0 <= i < tables@.len() ==> (#[trigger] tables@[i]).last_seq < next_seq,
        ensures
            r.well_formed(),
            r.tables() == tables@,
            r.spec_bits_per_key() == bits_per_key,
            r.spec_next_seq() == next_seq,
    {
        let ghost given = tables@;
        let mut tables = tables;
        let mut reversed: Vec<Arc<SSTable<F>>> = Vec::new();
        while tables.len() > 0
            invariant
                tables@.len() + reversed@.len() == given.len(),
                tables@ == given.take(tables@.len() as int),
                forall|i: int|
                    0 <= i < reversed@.len() ==> *(#[trigger] reversed@[i]) == given[given.len() - 1
                        - i],
            decreases tables@.len(),
        {
            if let Some(table) = tables.pop() {
                reversed.push(Arc::new(table));
            }
        }
        let mut sstables: Vec<Arc<SSTable<F>>> = Vec::new();
        while reversed.len() > 0
            invariant
                reversed@.len() + sstables@.len() == given.len(),
                forall|i: int|
                    0 <= i < reversed@.len() ==> *(#[trigger] reversed@[i]) == given[given.len() - 1
                        - i],
                forall|i: int| 0 <= i < sstables@.len() ==> *(#[trigger] sstables@[i]) == given[i],
            decreases reversed@.len(),
        {
            if let Some(table) = reversed.pop() {
                sstables.push(table);
            }
        }
        let r = SSTableSet { sstables: Arc::new(sstables), bits_per_key, next_seq };
        assert(r.tables() =~= given);
        r
    }

    /// How many tables there are.
    pub fn len(&self) -> (n: usize)
        ensures
            n == self.tables().len(),
    {
        self.sstables.len()
    }

    /// The number of the next flush.
    pub fn next_seq(&self) -> (r: u64)
        ensures
            r == self.spec_next_seq(),
    {
        self.next_seq
    }

    /// The list of tables as it is now.
    pub fn snapshot(&self) -> (r: Arc<Vec<Arc<SSTable<F>>>>)
        ensures
            lookup::pointees(r@) == self.tables(),
    {
        merge::share(&self.sstables)
    }

    /// The table that a flush of `memtable` publishes; an empty memtable needs
    /// none.
    pub fn write(&self, memtable: &Memtable) -> (r: Option<TableImage>)
        requires
            memtable.well_formed(),
            entries::all_fit(memtable@),
            memtable@.len() * self.spec_bits_per_key() <= usize::MAX - 63,
        ensures
            match r {
                None => memtable@.len() == 0,
                Some(image) => {
                    &&& memtable@.len() > 0
                    &&& image.shows(
                        memtable@,
                        self.spec_bits_per_key() as nat,
                        self.spec_next_seq(),
                        self.spec_next_seq(),
                    )
                    &&& stored::holds(image.meta.parts(), image.bytes@, memtable@)
                },
            },
    {
        if memtable.len() == 0 {
            return None;
        }
        Some(
            TableImage::new(memtable.records(), self.bits_per_key, self.next_seq, self.next_seq),
        )
    }

    /// Adds the table of a flush, once it is on disk.
    pub fn publish(&mut self, table: SSTable<F>)
        requires
            old(self).well_formed(),
            table.first_seq == old(self).spec_next_seq(),
            table.last_seq == old(self).spec_next_seq(),
            old(self).spec_next_seq() < u64::MAX,
        ensures
            final(self).well_formed(),
            final(self).tables() == old(self).tables().push(table),
            final(self).spec_next_seq() == old(self).spec_next_seq() + 1,
            final(self).spec_bits_per_key() == old(self).spec_bits_per_key(),
            in_order(old(self).tables()) ==> in_order(final(self).tables()),
    {
        let ghost before = self.tables();
        let ghost added = table;
        let current: &Vec<Arc<SSTable<F>>> = &self.sstables;
        let mut next = copy_range(current, 0, current.len());
        next.push(Arc::new(table));
        self.sstables = Arc::new(next);
        self.next_seq = self.next_seq + 1;
        proof {
            assert(self.tables() =~= before.push(added));
            assert forall|i: int| 0 <= i < self.tables().len() implies (
            #[trigger] self.tables()[i]).last_seq < self.next_seq by {
                if i < before.len() {
                    assert(self.tables()[i] == before[i]);
                }
            }
        }
    }

    /// Starts to merge the `count` tables from `start` on. Only where the run
    /// holds the oldest table can deletions be dropped: anywhere else an older
    /// table may still hold the value that a deletion hides.
    pub fn compact(&self, start: usize, count: usize) -> (r: Compaction<F>)
        requires
            count >= 2,
            start + count <= self.tables().len(),
        ensures
            r.start == start,
            r.count == count,
            r.first_seq == self.tables()[start as int].first_seq,
            r.last_seq == self.tables()[start + count - 1].last_seq,
            r.merge.well_formed(),
            r.merge.tables() == self.tables().subrange(start as int, start + count),
            r.merge.drop_tombstones == (start == 0),
            r.merge.fed() == Seq::new(count as nat, |i: int| Seq::<Seq<u8>>::empty()),
    {
        let current: &Vec<Arc<SSTable<F>>> = &self.sstables;
        let len: usize = current.len();
        assert(self.tables().len() == len);
        let run = copy_range(current, start, start + count);
        let first_seq: u64 = current[start].first_seq;
        let last_seq: u64 = current[start + count - 1].last_seq;
        let merge = Merge::new(run, start == 0);
        assert(merge.tables() =~= self.tables().subrange(start as int, start + count));
        Compaction { merge, start, count, first_seq, last_seq }
    }

    /// Starts to merge all tables for a reader. Nothing is dropped: what a deletion
    /// hides may be asked for together with newer entries.
    pub fn merge_all(&self) -> (r: Merge<F>)
        ensures
            r.well_formed(),
            r.tables() == self.tables(),
            !r.drop_tombstones,
            r.fed() == Seq::new(self.tables().len(), |i: int| Seq::<Seq<u8>>::empty()),
    {
        let current: &Vec<Arc<SSTable<F>>> = &self.sstables;
        let all = copy_range(current, 0, current.len());
        assert(all@ =~= current@);
        let merge = Merge::new(all, false);
        assert(merge.tables() =~= self.tables());
        merge
    }

    /// The table that takes the place of a merged run; there is none where
    /// nothing but dropped deletions was left.
    pub fn replacement(&self, c: &Compaction<F>) -> (r: Option<TableImage>)
        requires
            c.merge.complete(),
            c.merge.merged@.len() * self.spec_bits_per_key() <= usize::MAX - 63,
        ensures
            match r {
                None => c.merge.merged@.len() == 0,
                Some(image) => {
                    &&& c.merge.merged@.len() > 0
                    &&& image.shows(
                        entries::entries_view(c.merge.merged@),
                        self.spec_bits_per_key() as nat,
                        c.first_seq,
                        c.last_seq,
                    )
                    &&& entries::sorted(entries::entries_view(c.merge.merged@)) ==> stored::holds(
                        image.meta.parts(),
                        image.bytes@,
                        entries::entries_view(c.merge.merged@),
                    )
                },
            },
    {
        if c.merge.merged.len() == 0 {
            return None;
        }
        proof {
            let fed = c.merge.fed();
            assert forall|i: int| 0 <= i < fed.len() implies entries::all_fit(
                #[trigger] merge::given(fed)[i],
            ) by {
                image::lemma_stream_fits(fed[i]);
                assert(records::stream(c.merge.fed()[i]) is Ok) by {
                    assert(c.merge.tables().len() == fed.len());
                    assert(c.merge.fed()[i].len() == c.merge.tables()[i].meta.sparse_index@.len());
                }
            }
            merge::merge_entries_fit(merge::given(fed), c.merge.drop_tombstones);
        }
        Some(
            TableImage::new(
                c.merge.merged.as_slice(),
                self.bits_per_key,
                c.first_seq,
                c.last_seq,
            ),
        )
    }

    /// Puts `replacement` in the place of the `count` tables from `start` on,
    /// and hands those back: their files are of no more use to a new reader.
    pub fn install(
        &mut self,
        start: usize,
        count: usize,
        replacement: Option<SSTable<F>>,
    ) -> (obsolete: Vec<Arc<SSTable<F>>>)
        requires
            old(self).well_formed(),
            start + count <= old(self).tables().len(),
            replacement matches Some(t) ==> t.last_seq < old(self).spec_next_seq(),
        ensures
            final(self).well_formed(),
            final(self).tables() == splice(
                old(self).tables(),
                start as int,
                count as int,
                replacement,
            ),
            lookup::pointees(obsolete@) == old(self).tables().subrange(
                start as int,
                start + count,
            ),
            final(self).spec_next_seq() == old(self).spec_next_seq(),
            final(self).spec_bits_per_key() == old(self).spec_bits_per_key(),
    {
        let ghost before = self.tables();
        let ghost goal = splice(before, start as int, count as int, replacement);
        let current: &Vec<Arc<SSTable<F>>> = &self.sstables;
        let len: usize = current.len();
        assert(before.len() == len);
        let obsolete = copy_range(current, start, start + count);
        let mut next = copy_range(current, 0, start);
        if let Some(table) = replacement {
            next.push(Arc::new(table));
        }
        let mut i: usize = start + count;
        let ghost head = lookup::pointees(next@);
        while i < current.len()
            invariant
                start + count <= i <= current@.len(),
                before == lookup::pointees(current@),
                lookup::pointees(next@) =~= head + before.subrange(start + count, i as int),
            decreases current@.len() - i,
        {
            let ghost sofar = lookup::pointees(next@);
            next.push(merge::share(&current[i]));
            i = i + 1;
            proof {
                assert(lookup::pointees(next@) =~= sofar.push(before[i - 1]));
                assert(before.subrange(start + count, i as int) =~= before.subrange(
                    start + count,
                    i - 1,
                ).push(before[i - 1]));
            }
        }
        self.sstables = Arc::new(next);
        proof {
            assert(self.tables() =~= goal);
            assert(lookup::pointees(obsolete@) =~= before.subrange(start as int, start + count));
            assert forall|i: int| 0 <= i < self.tables().len() implies (
            #[trigger] self.tables()[i]).last_seq < self.next_seq by {
                let n: int = if replacement is Some { 1 } else { 0 };
                if i < start {
                    assert(goal[i] == before[i]);
                } else if i >= start + n {
                    assert(goal[i] == before[i - n + count]);
                } else {
                    assert(goal[i] == replacement->0);
                }
            }
        }
        obsolete
    }

    /// Starts to look `key` up.
    pub fn get(&self, key: &[u8]) -> (r: Lookup<F>)
        ensures
            r.well_formed(),
            !r.reading(),
            r.spec_tables() == self.tables(),
            r.spec_key() == key@,
            r.spec_left() == self.tables().len(),
            forall|files: Seq<Seq<u8>>, layers: Seq<Seq<Entry>>|
                stored::hold_all(self.tables(), files, layers) ==> #[trigger] r.tracks(files, layers),
    {
        Lookup::new(self.snapshot(), key)
    }
}

/// Pointers to the same tables.
fn copy_range<F>(list: &Vec<Arc<SSTable<F>>>, from: usize, to: usize) -> (r: Vec<Arc<SSTable<F>>>)
    requires
        from <= to <= list@.len(),
    ensures
        r@ == list@.subrange(from as int, to as int),
{
    let mut r: Vec<Arc<SSTable<F>>> = Vec::new();
    let mut i: usize = from;
    while i < to
        invariant
            from <= i <= to <= list@.len(),
            r@ =~= list@.subrange(from as int, i as int),
        decreases to - i,
    {
        r.push(merge::share(&list[i]));
        i = i + 1;
    }
    r
}

/// A table that covers exactly the flushes of the run it replaces keeps the
/// tables in order.
pub proof fn compaction_keeps_the_order<F>(
    ts: Seq<SSTable<F>>,
    start: int,
    count: int,
    replacement: Option<SSTable<F>>,
)
    requires
        in_order(ts),
        0 <= start,
        1 <= count,
        start + count <= ts.len(),
        replacement matches Some(t) ==> t.first_seq == ts[start].first_seq && t.last_seq == ts[start
            + count - 1].last_seq,
    ensures
        in_order(splice(ts, start, count, replacement)),
{
    let out = splice(ts, start, count, replacement);
    let n: int = if replacement is Some { 1 } else { 0 };
    let end = start + count - 1;
    if start < end {
        assert(ts[start].last_seq < ts[end].first_seq);
    }
    assert forall|i: int| 0 <= i < out.len() implies (#[trigger] out[i]).first_seq <= out[i].last_seq by {
        if i < start {
            assert(out[i] == ts[i]);
        } else if i >= start + n {
            assert(out[i] == ts[i - n + count]);
        }
    }
    assert forall|i: int, j: int| 0 <= i < j < out.len() implies (#[trigger] out[i]).last_seq < (
    #[trigger] out[j]).first_seq by {
        let a = if i < start { i } else { i - n + count };
        let b = if j < start { j } else { j - n + count };
        if i < start || i >= start + n {
            assert(out[i] == ts[a]);
        }
        if j < start || j >= start + n {
            assert(out[j] == ts[b]);
        }
        if i >= start && i < start + n {
            assert(ts[end].last_seq < ts[b].first_seq);
        }
    }
}

/// What a compaction leaves of the entries of all tables.
pub open spec fn compacted(layers: Seq<Seq<Entry>>, start: int, count: int) -> Seq<Seq<Entry>> {
    let out = merge::merged(layers.subrange(start, start + count), start == 0);
    splice(
        layers,
        start,
        count,
        if out.len() == 0 {
            None
        } else {
            Some(out)
        },
    )
}

/// A compaction changes no answer: whatever tables are merged, and whatever
/// newer tables there are, every key reads as it did before.
pub proof fn compaction_preserves_every_key(
    layers: Seq<Seq<Entry>>,
    start: int,
    count: int,
    key: Seq<u8>,
)
    requires
        merge::all_sorted(layers),
        0 <= start,
        0 <= count,
        start + count <= layers.len(),
    ensures
        merge::all_sorted(compacted(layers, start, count)),
        entries::visible(
            entries::find(entries::flatten(compacted(layers, start, count)), key),
        ) == entries::visible(entries::find(entries::flatten(layers), key)),
{
    let older = layers.take(start);
    let run = layers.subrange(start, start + count);
    let newer = layers.skip(start + count);
    let out = merge::merged(run, start == 0);
    let middle: Seq<Seq<Entry>> = if out.len() == 0 { Seq::empty() } else { seq![out] };
    assert forall|i: int| 0 <= i < run.len() implies entries::sorted(#[trigger] run[i]) by {
        assert(run[i] == layers[start + i]);
    }
    merge::merge_is_sorted(run, start == 0);
    merge::merge_keeps_the_newest(run, start == 0, key);
    let after = compacted(layers, start, count);
    assert(after =~= older + middle + newer);
    assert forall|i: int| 0 <= i < after.len() implies entries::sorted(#[trigger] after[i]) by {
        if i < start {
            assert(after[i] == layers[i]);
        } else if i >= start + middle.len() {
            assert(after[i] == layers[i - middle.len() + count]);
        }
    }
    assert(layers =~= older + run + newer);
    entries::lemma_flatten_concat(older + run, newer);
    entries::lemma_flatten_concat(older, run);
    entries::lemma_flatten_concat(older + middle, newer);
    entries::lemma_flatten_concat(older, middle);
    assert(entries::flatten(middle) =~= out) by {
        reveal_with_fuel(entries::flatten, 2);
        if out.len() > 0 {
            assert(middle.drop_last() =~= Seq::<Seq<Entry>>::empty());
        }
    }
    let o = entries::flatten(older);
    let r = entries::flatten(run);
    let w = entries::flatten(newer);
    entries::lemma_find_concat(o + r, w, key);
    entries::lemma_find_concat(o, r, key);
    entries::lemma_find_concat(o + out, w, key);
    entries::lemma_find_concat(o, out, key);
    if start == 0 {
        assert(older =~= Seq::<Seq<Entry>>::empty());
        assert(entries::find(o, key) is None);
    }
}

/// Where the elements of a spliced list come from.
proof fn lemma_splice_index<T>(list: Seq<T>, start: int, count: int, replacement: Option<T>, i: int)
    requires
        0 <= start,
        0 <= count,
        start + count <= list.len(),
        0 <= i < splice(list, start, count, replacement).len(),
    ensures
        splice(list, start, count, replacement)[i] == (if i < start {
            list[i]
        } else if replacement is Some && i == start {
            replacement->0
        } else if replacement is Some {
            list[i - 1 + count]
        } else {
            list[i + count]
        }),
{
}

/// Replacing a run by its merge on disk keeps the tables and their files in
/// step with the entries.
pub proof fn compaction_keeps_files_intact<F>(
    ts: Seq<SSTable<F>>,
    files: Seq<Seq<u8>>,
    layers: Seq<Seq<Entry>>,
    start: int,
    count: int,
    table: Option<SSTable<F>>,
    file: Option<Seq<u8>>,
)
    requires
        stored::hold_all(ts, files, layers),
        0 <= start,
        0 <= count,
        start + count <= ts.len(),
        match (table, file) {
            (Some(t), Some(f)) => {
                let out = merge::merged(layers.subrange(start, start + count), start == 0);
                out.len() > 0 && stored::holds(t.meta.parts(), f, out)
            },
            (None, None) => merge::merged(
                layers.subrange(start, start + count),
                start == 0,
            ).len() == 0,
            _ => false,
        },
    ensures
        stored::hold_all(
            splice(ts, start, count, table),
            splice(files, start, count, file),
            compacted(layers, start, count),
        ),
{
    let out = merge::merged(layers.subrange(start, start + count), start == 0);
    let layer = if out.len() == 0 { None } else { Some(out) };
    let ts2 = splice(ts, start, count, table);
    let files2 = splice(files, start, count, file);
    let layers2 = splice(layers, start, count, layer);
    assert(layers2 == compacted(layers, start, count));
    assert forall|i: int| 0 <= i < ts2.len() implies stored::holds(
        (#[trigger] ts2[i]).meta.parts(),
        files2[i],
        layers2[i],
    ) by {
        lemma_splice_index(ts, start, count, table, i);
        lemma_splice_index(files, start, count, file, i);
        lemma_splice_index(layers, start, count, layer, i);
        if i < start {
            assert(stored::holds(ts[i].meta.parts(), files[i], layers[i]));
        } else if table is None {
            assert(stored::holds(ts[i + count].meta.parts(), files[i + count], layers[i + count]));
        } else if i > start {
            let j = i - 1 + count;
            assert(stored::holds(ts[j].meta.parts(), files[j], layers[j]));
        }
    }
}

/// Replacing a run leaves what is before it and what is behind it, in order.
pub proof fn a_replacement_leaves_the_rest<T>(
    before: Seq<T>,
    run: Seq<T>,
    after: Seq<T>,
    new: T,
)
    ensures
        splice(before + run + after, before.len() as int, run.len() as int, Some(new))
            == before.push(new) + after,
        splice(before + run + after, before.len() as int, run.len() as int, None) == before + after,
{
    let all = before + run + after;
    assert(all.take(before.len() as int) =~= before);
    assert(all.skip((before.len() + run.len()) as int) =~= after);
    assert(before + seq![new] + after =~= before.push(new) + after);
    assert(before + Seq::<T>::empty() + after =~= before + after);
}

} // verus!
