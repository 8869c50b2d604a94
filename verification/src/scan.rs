//! A scan: all keys that have a value, in order, whether they are in the memtable
//! or in a table.
use crate::db;
use crate::entries;
use crate::entries::{Entry, TableRecord};
use crate::memtable;
use crate::order;
use crate::order::KeyOrder;
use crate::sstable::merge;
use crate::sstable::merge::Merge;
use crate::sstable::stored;
use crate::sstable::writer;
use vstd::prelude::*;

verus! {

/// A scan in progress. Once the merge of all tables is done, [`Scan::pairs`] lays
/// the memtable over it.
pub struct Scan<F> {
    /// The merge of all tables, which asks for the blocks it needs.
    pub merge: Merge<F>,
    /// The memtable as it was when the scan began.
    pub map: Vec<TableRecord>,
}

/// The entries that are no deletions, with their values.
pub open spec fn live(es: Seq<Entry>) -> Seq<(Seq<u8>, Seq<u8>)>
    decreases es.len(),
{
    if es.len() == 0 {
        Seq::empty()
    } else {
        match es.last().1 {
            Some(v) => live(es.drop_last()).push((es.last().0, v)),
            None => live(es.drop_last()),
        }
    }
}

pub open spec fn pairs_view(ps: Seq<(Vec<u8>, Vec<u8>)>) -> Seq<(Seq<u8>, Seq<u8>)> {
    Seq::new(ps.len(), |i: int| (ps[i].0@, ps[i].1@))
}

/// What a scan of a store with these tables and this memtable lists.
pub open spec fn listing(layers: Seq<Seq<Entry>>, map: Seq<Entry>) -> Seq<(Seq<u8>, Seq<u8>)> {
    live(merge::merged(layers.push(map), true))
}

/// An entry, unless it is a deletion.
spec fn kept(e: Entry) -> Seq<Entry> {
    if e.1 is Some {
        seq![e]
    } else {
        Seq::empty()
    }
}

/// Which of two sequences a merge takes its next entry from.
spec fn takes_first(a: Seq<Entry>, b: Seq<Entry>) -> bool {
    a.len() > 0 && (b.len() > 0 ==> order::lex_lt(a[0].0, b[0].0))
}

/// One step of a merge of two sequences: the smaller first key, and of equal ones
/// the second.
proof fn lemma_merge_of_two(a: Seq<Entry>, b: Seq<Entry>)
    ensures
        merge::merged(seq![a, b], true) == (if a.len() == 0 && b.len() == 0 {
            Seq::empty()
        } else if takes_first(a, b) {
            kept(a[0]) + merge::merged(seq![a.skip(1), b], true)
        } else if a.len() > 0 && a[0].0 == b[0].0 {
            kept(b[0]) + merge::merged(seq![a.skip(1), b.skip(1)], true)
        } else {
            kept(b[0]) + merge::merged(seq![a, b.skip(1)], true)
        }),
{
    let ts = seq![a, b];
    let one = seq![a];
    let none = Seq::<Seq<Entry>>::empty();
    assert(ts.drop_last() =~= one);
    assert(one.drop_last() =~= none);
    assert(merge::min_head(none) is None);
    assert(merge::min_head(one) == (if a.len() == 0 {
        None
    } else {
        Some(a[0].0)
    }));
    if a.len() > 0 || b.len() > 0 {
        let key = merge::min_head(ts)->0;
        if a.len() > 0 && b.len() > 0 {
            order::lemma_lex_total(a[0].0, b[0].0);
            order::lemma_lex_irreflexive(a[0].0);
            if order::lex_lt(a[0].0, b[0].0) {
                order::lemma_lex_asymmetric(a[0].0, b[0].0);
            }
        }
        assert(merge::newest(none, key) is None);
        assert(merge::newest(one, key) == (if merge::heads(a, key) {
            Some(a[0].1)
        } else {
            None
        }));
        let rest = merge::pop(ts, key);
        if takes_first(a, b) {
            assert(rest =~= seq![a.skip(1), b]);
            lemma_kept(a[0], merge::merged(rest, true));
        } else if a.len() > 0 && a[0].0 == b[0].0 {
            assert(rest =~= seq![a.skip(1), b.skip(1)]);
            lemma_kept(b[0], merge::merged(rest, true));
        } else {
            assert(rest =~= seq![a, b.skip(1)]);
            lemma_kept(b[0], merge::merged(rest, true));
        }
    }
}

proof fn lemma_kept(e: Entry, rest: Seq<Entry>)
    ensures
        kept(e) + rest == (match e.1 {
            Some(v) => seq![(e.0, Some(v))] + rest,
            None => rest,
        }),
{
    if e.1 is None {
        assert(kept(e) + rest =~= rest);
    } else {
        assert(kept(e) =~= seq![(e.0, Some(e.1->0))]);
    }
}

proof fn lemma_live_concat(a: Seq<Entry>, b: Seq<Entry>)
    ensures
        live(a + b) == live(a) + live(b),
    decreases b.len(),
{
    if b.len() == 0 {
        assert(a + b =~= a);
        assert(live(a) + live(b) =~= live(a));
    } else {
        lemma_live_concat(a, b.drop_last());
        assert((a + b).drop_last() =~= a + b.drop_last());
        assert(live(a + b) =~= live(a) + live(b));
    }
}

proof fn lemma_live_kept(e: Entry, rest: Seq<Entry>)
    ensures
        live(kept(e) + rest) == (match e.1 {
            Some(v) => seq![(e.0, v)] + live(rest),
            None => live(rest),
        }),
{
    lemma_live_concat(kept(e), rest);
    reveal_with_fuel(live, 2);
    if e.1 is Some {
        assert(kept(e).drop_last() =~= Seq::<Entry>::empty());
        assert(live(kept(e)) =~= seq![(e.0, e.1->0)]);
    } else {
        assert(live(kept(e)) + live(rest) =~= live(rest));
    }
}

/// Appends a pair for an entry that has a value.
fn push_live(out: &mut Vec<(Vec<u8>, Vec<u8>)>, record: &TableRecord)
    ensures
        pairs_view(final(out)@) == pairs_view(old(out)@) + live(kept(entries::entry_view(*record))),
{
    let ghost e = entries::entry_view(*record);
    let ghost before = out@;
    proof {
        lemma_live_kept(e, Seq::empty());
        assert(kept(e) + Seq::<Entry>::empty() =~= kept(e));
    }
    if let Some(v) = &record.1 {
        let pair = (writer::copy(&record.0), writer::copy(v));
        let ghost view = (pair.0@, pair.1@);
        out.push(pair);
        assert(pairs_view(out@) =~= pairs_view(before).push(view));
    }
    assert(pairs_view(out@) =~= pairs_view(before) + live(kept(e)));
}

/// Lays `newer` over `older` and lists what has a value.
fn overlay(older: &Vec<TableRecord>, newer: &Vec<TableRecord>) -> (r: Vec<(Vec<u8>, Vec<u8>)>)
    ensures
        pairs_view(r@) == live(
            merge::merged(
                seq![entries::entries_view(older@), entries::entries_view(newer@)],
                true,
            ),
        ),
{
    let ghost a = entries::entries_view(older@);
    let ghost b = entries::entries_view(newer@);
    let ghost goal = live(merge::merged(seq![a, b], true));
    let mut r: Vec<(Vec<u8>, Vec<u8>)> = Vec::new();
    let mut i: usize = 0;
    let mut j: usize = 0;
    proof {
        assert(a.skip(0) =~= a && b.skip(0) =~= b);
        assert(pairs_view(r@) + goal =~= goal);
    }
    while i < older.len() || j < newer.len()
        invariant
            i <= older@.len(),
            j <= newer@.len(),
            a == entries::entries_view(older@),
            b == entries::entries_view(newer@),
            goal == pairs_view(r@) + live(
                merge::merged(seq![a.skip(i as int), b.skip(j as int)], true),
            ),
        decreases older@.len() - i + newer@.len() - j,
    {
        let ghost x = a.skip(i as int);
        let ghost y = b.skip(j as int);
        let ghost before = pairs_view(r@);
        proof {
            lemma_merge_of_two(x, y);
            if x.len() > 0 {
                assert(x[0] == a[i as int] && x.skip(1) =~= a.skip(i + 1));
            }
            if y.len() > 0 {
                assert(y[0] == b[j as int] && y.skip(1) =~= b.skip(j + 1));
            }
            if x.len() > 0 && y.len() > 0 {
                order::lemma_lex_total(x[0].0, y[0].0);
                if order::lex_lt(x[0].0, y[0].0) {
                    order::lemma_lex_asymmetric(x[0].0, y[0].0);
                }
                if order::lex_lt(y[0].0, x[0].0) {
                    order::lemma_lex_asymmetric(y[0].0, x[0].0);
                }
            }
        }
        let side: KeyOrder = if j == newer.len() {
            KeyOrder::Less
        } else if i == older.len() {
            KeyOrder::Greater
        } else {
            order::compare(older[i].0.as_slice(), newer[j].0.as_slice())
        };
        let ghost mut e: Entry;
        let ghost mut rest: Seq<Entry>;
        match side {
            KeyOrder::Less => {
                push_live(&mut r, &older[i]);
                i = i + 1;
                proof {
                    e = x[0];
                    rest = merge::merged(seq![x.skip(1), y], true);
                }
            },
            KeyOrder::Equal => {
                push_live(&mut r, &newer[j]);
                i = i + 1;
                j = j + 1;
                proof {
                    e = y[0];
                    rest = merge::merged(seq![x.skip(1), y.skip(1)], true);
                }
            },
            KeyOrder::Greater => {
                push_live(&mut r, &newer[j]);
                j = j + 1;
                proof {
                    e = y[0];
                    rest = merge::merged(seq![x, y.skip(1)], true);
                }
            },
        }
        proof {
            lemma_live_concat(kept(e), rest);
            assert(before + (live(kept(e)) + live(rest)) =~= before + live(kept(e)) + live(rest));
        }
    }
    proof {
        let x = a.skip(i as int);
        let y = b.skip(j as int);
        lemma_merge_of_two(x, y);
        assert(live(Seq::<Entry>::empty()) =~= Seq::empty());
        assert(goal =~= pairs_view(r@));
    }
    r
}

impl<F> Scan<F> {
    pub open spec fn spec_map(&self) -> Seq<Entry> {
        entries::entries_view(self.map@)
    }

    pub open spec fn well_formed(&self) -> bool {
        &&& self.merge.well_formed()
        &&& !self.merge.drop_tombstones
        &&& entries::sorted(self.spec_map())
    }

    /// All blocks that were read came from intact files of these entries.
    pub open spec fn read_all(&self, files: Seq<Seq<u8>>, layers: Seq<Seq<Entry>>) -> bool {
        &&& stored::hold_all(self.merge.tables(), files, layers)
        &&& forall|i: int|
            0 <= i < files.len() ==> stored::read_from(
                #[trigger] self.merge.tables()[i].meta.parts(),
                files[i],
                self.merge.fed()[i],
            )
    }

    /// A scan of the tables in `merge`, with `map` as the newest entries.
    pub fn new(merge: Merge<F>, map: &[TableRecord]) -> (r: Self)
        ensures
            r.merge == merge,
            r.spec_map() == entries::entries_view(map@),
    {
        let mut copy: Vec<TableRecord> = Vec::new();
        let mut i: usize = 0;
        while i < map.len()
            invariant
                i <= map@.len(),
                entries::entries_view(copy@) =~= entries::entries_view(map@).take(i as int),
            decreases map@.len() - i,
        {
            let ghost before = copy@;
            let record: TableRecord = (writer::copy(&map[i].0), memtable::copy_value(&map[i].1));
            let ghost view = entries::entry_view(record);
            copy.push(record);
            assert(entries::entries_view(copy@) =~= entries::entries_view(before).push(view));
            i = i + 1;
        }
        let ghost all = entries::entries_view(map@);
        assert(all.take(i as int) =~= all);
        Scan { merge, map: copy }
    }

    /// What the scan lists, once the tables have been merged.
    pub fn pairs(&self) -> (r: Vec<(Vec<u8>, Vec<u8>)>)
        requires
            self.well_formed(),
            self.merge.complete(),
        ensures
            pairs_view(r@) == live(
                merge::merged(
                    seq![
                        merge::merged(merge::given(self.merge.fed()), false),
                        self.spec_map(),
                    ],
                    true,
                ),
            ),
            forall|files: Seq<Seq<u8>>, layers: Seq<Seq<Entry>>| #[trigger]
                self.read_all(files, layers) ==> pairs_view(r@) == listing(layers, self.spec_map()),
    {
        proof {
            assert forall|files: Seq<Seq<u8>>, layers: Seq<Seq<Entry>>| #[trigger]
                self.read_all(files, layers) implies merge::merged(
                seq![entries::entries_view(self.merge.merged@), self.spec_map()],
                true,
            ) == merge::merged(layers.push(self.spec_map()), true) by {
                stored::intact_tables_merge(self.merge, files, layers);
                assert forall|i: int| 0 <= i < layers.len() implies entries::sorted(
                    #[trigger] layers[i],
                ) by {
                    assert(stored::holds(
                        self.merge.tables()[i].meta.parts(),
                        files[i],
                        layers[i],
                    ));
                }
                lemma_merge_in_two_steps(layers, self.spec_map());
            }
        }
        overlay(&self.merge.merged, &self.map)
    }
}

/// Merging the tables first and then laying the memtable over them is the merge
/// of everything.
proof fn lemma_merge_in_two_steps(layers: Seq<Seq<Entry>>, map: Seq<Entry>)
    requires
        merge::all_sorted(layers),
        entries::sorted(map),
    ensures
        merge::merged(seq![merge::merged(layers, false), map], true) == merge::merged(
            layers.push(map),
            true,
        ),
{
    let m = merge::merged(layers, false);
    let two = seq![m, map];
    let all = layers.push(map);
    merge::merge_is_sorted(layers, false);
    assert forall|i: int| 0 <= i < two.len() implies entries::sorted(#[trigger] two[i]) by {}
    assert forall|i: int| 0 <= i < all.len() implies entries::sorted(#[trigger] all[i]) by {}
    merge::merge_is_sorted(two, true);
    merge::merge_is_sorted(all, true);
    assert forall|k: Seq<u8>| #[trigger]
        entries::find(merge::merged(two, true), k) == entries::find(merge::merged(all, true), k) by {
        merge::merge_keeps_the_newest(two, true, k);
        merge::merge_keeps_the_newest(all, true, k);
        merge::merge_keeps_the_newest(layers, false, k);
        entries::lemma_find_flatten_last(two, k);
        entries::lemma_find_flatten_last(all, k);
        assert(all.drop_last() =~= layers);
        assert(two.drop_last() =~= seq![m]);
        entries::lemma_find_flatten_last(seq![m], k);
        assert(seq![m].drop_last() =~= Seq::<Seq<Entry>>::empty());
    }
    entries::lemma_sorted_unique(merge::merged(two, true), merge::merged(all, true));
}

/// A pair is live where its entry is there.
proof fn lemma_live_contains(es: Seq<Entry>, k: Seq<u8>, v: Seq<u8>)
    ensures
        live(es).contains((k, v)) <==> es.contains((k, Some(v))),
    decreases es.len(),
{
    if es.len() > 0 {
        let rest = es.drop_last();
        let last = es.last();
        lemma_live_contains(rest, k, v);
        if es.contains((k, Some(v))) {
            let i = choose|i: int| 0 <= i < es.len() && es[i] == (k, Some(v));
            if i < es.len() - 1 {
                assert(rest[i] == (k, Some(v)));
                assert(live(rest).contains((k, v)));
                let j = choose|j: int| 0 <= j < live(rest).len() && live(rest)[j] == (k, v);
                assert(live(es)[j] == (k, v));
            } else {
                assert(live(es)[live(es).len() - 1] == (k, v));
            }
        }
        if live(es).contains((k, v)) {
            let j = choose|j: int| 0 <= j < live(es).len() && live(es)[j] == (k, v);
            if j < live(rest).len() {
                assert(live(rest)[j] == (k, v));
                let i = choose|i: int| 0 <= i < rest.len() && rest[i] == (k, Some(v));
                assert(es[i] == (k, Some(v)));
            } else {
                assert(es[es.len() - 1] == (k, Some(v)));
            }
        }
    }
}

/// Keys that ascend still do without the deletions.
proof fn lemma_live_ascends(es: Seq<Entry>)
    requires
        entries::sorted(es),
    ensures
        forall|i: int, j: int|
            0 <= i < j < live(es).len() ==> order::lex_lt(
                #[trigger] live(es)[i].0,
                #[trigger] live(es)[j].0,
            ),
    decreases es.len(),
{
    if es.len() > 0 {
        let rest = es.drop_last();
        entries::lemma_sorted_subrange(es, 0, es.len() - 1);
        assert(es.subrange(0, es.len() - 1) =~= rest);
        lemma_live_ascends(rest);
        assert forall|i: int, j: int| 0 <= i < j < live(es).len() implies order::lex_lt(
            #[trigger] live(es)[i].0,
            #[trigger] live(es)[j].0,
        ) by {
            let (k, v) = live(rest)[i];
            assert(live(es)[i] == (k, v));
            if j < live(rest).len() {
                assert(live(es)[j] == live(rest)[j]);
            } else {
                assert(live(rest).contains((k, v)));
                lemma_live_contains(rest, k, v);
                let m = choose|m: int| 0 <= m < rest.len() && rest[m] == (k, Some(v));
                assert(order::lex_lt(es[m].0, es[es.len() - 1].0));
            }
        }
    }
}

/// A scan lists the keys in ascending order, and every key with the value that a
/// read of it gives: a pair is listed where a read sees it, and nowhere else.
pub proof fn a_scan_lists_what_reads_see(
    layers: Seq<Seq<Entry>>,
    map: Seq<Entry>,
    k: Seq<u8>,
    v: Seq<u8>,
)
    requires
        merge::all_sorted(layers),
        entries::sorted(map),
    ensures
        listing(layers, map).contains((k, v)) <==> db::reads(layers, map, k) == Some(v),
        forall|i: int, j: int|
            0 <= i < j < listing(layers, map).len() ==> order::lex_lt(
                #[trigger] listing(layers, map)[i].0,
                #[trigger] listing(layers, map)[j].0,
            ),
{
    let all = layers.push(map);
    let es = merge::merged(all, true);
    assert forall|i: int| 0 <= i < all.len() implies entries::sorted(#[trigger] all[i]) by {}
    merge::merge_is_sorted(all, true);
    merge::merge_keeps_the_newest(all, true, k);
    lemma_live_contains(es, k, v);
    lemma_live_ascends(es);
    entries::lemma_find_witness(es, k);
    if es.contains((k, Some(v))) {
        let i = choose|i: int| 0 <= i < es.len() && es[i] == (k, Some(v));
        entries::lemma_find_sorted(es, i);
    }
}

/// What is shown of the pairs of a scan is each key and its value as they are.
pub proof fn pairs_are_shown_whole(ps: Seq<(Vec<u8>, Vec<u8>)>, i: int)
    requires
        0 <= i < ps.len(),
    ensures
        pairs_view(ps).len() == ps.len(),
        pairs_view(ps)[i] == (ps[i].0@, ps[i].1@),
{
}

/// The keys of a scan ascend byte by byte: where two of them first differ, the
/// later one has the larger byte, or the earlier one has ended.
pub proof fn scanned_keys_ascend_byte_by_byte(
    layers: Seq<Seq<Entry>>,
    map: Seq<Entry>,
    i: int,
    j: int,
    at: int,
)
    requires
        merge::all_sorted(layers),
        entries::sorted(map),
        0 <= i < j < listing(layers, map).len(),
        ({
            let a = listing(layers, map)[i].0;
            let b = listing(layers, map)[j].0;
            &&& 0 <= at <= a.len()
            &&& at <= b.len()
            &&& a.take(at) == b.take(at)
            &&& at < a.len() && at < b.len() ==> a[at] != b[at]
        }),
    ensures
        ({
            let a = listing(layers, map)[i].0;
            let b = listing(layers, map)[j].0;
            &&& at < b.len()
            &&& at < a.len() ==> a[at] < b[at]
        }),
{
    let a = listing(layers, map)[i].0;
    let b = listing(layers, map)[j].0;
    a_scan_lists_what_reads_see(layers, map, a, Seq::empty());
    assert(order::lex_lt(a, b));
    assert forall|k: int| 0 <= k < at implies a[k] == b[k] by {
        assert(a.take(at)[k] == b.take(at)[k]);
    }
    order::lemma_lex_asymmetric(a, b);
    if at == b.len() {
        let more = a.skip(at);
        assert(a =~= b + more) by {
            assert(a =~= a.take(at) + more);
            assert(b =~= b.take(at));
        }
        if more.len() > 0 {
            order::a_prefix_comes_first(b, more);
        } else {
            assert(a =~= b);
        }
    } else if at < a.len() && b[at] < a[at] {
        order::the_first_different_byte_decides(b, a, at);
    }
}

} // verus!
