//! The newest entries of the store, in memory and in key order.
use crate::entries;
use crate::entries::{Entry, TableRecord};
use crate::order;
use crate::order::KeyOrder;
use crate::sstable::writer;
use vstd::prelude::*;

verus! {

/// One entry per key: its latest value, or the fact that it was deleted.
pub struct Memtable {
    records: Vec<TableRecord>,
}

impl View for Memtable {
    type V = Seq<Entry>;

    closed spec fn view(&self) -> Seq<Entry> {
        entries::entries_view(self.records@)
    }
}

/// A copy of a value.
pub fn copy_value(v: &Option<Vec<u8>>) -> (r: Option<Vec<u8>>)
    ensures
        entries::option_view(r) == entries::option_view(*v),
{
    match v {
        Some(bytes) => Some(writer::copy(bytes)),
        None => None,
    }
}

/// `es` with an entry put in at `at`, in the place of the one that is there if
/// that has the same key.
pub open spec fn placed(es: Seq<Entry>, at: int, found: bool, e: Entry) -> Seq<Entry> {
    if found {
        es.update(at, e)
    } else {
        es.insert(at, e)
    }
}

/// `at` is where `key` belongs: smaller keys come before it, and it is there
/// already or larger keys come from there on.
pub open spec fn place_of(es: Seq<Entry>, key: Seq<u8>, at: int, found: bool) -> bool {
    &&& 0 <= at <= es.len()
    &&& forall|i: int| 0 <= i < at ==> order::lex_lt(#[trigger] es[i].0, key)
    &&& found ==> at < es.len() && es[at].0 == key
    &&& !found ==> forall|i: int| at <= i < es.len() ==> order::lex_lt(key, #[trigger] es[i].0)
}

pub proof fn lemma_placed(es: Seq<Entry>, at: int, found: bool, e: Entry)
    requires
        entries::sorted(es),
        place_of(es, e.0, at, found),
    ensures
        entries::sorted(placed(es, at, found, e)),
        forall|k: Seq<u8>| #[trigger]
            entries::find(placed(es, at, found, e), k) == (if k == e.0 {
                Some(e.1)
            } else {
                entries::find(es, k)
            }),
{
    let out = placed(es, at, found, e);
    let gap: int = if found { 0 } else { 1 };
    assert forall|i: int, j: int| 0 <= i < j < out.len() implies order::lex_lt(
        #[trigger] out[i].0,
        #[trigger] out[j].0,
    ) by {
        let a = if i <= at { i } else { i - gap };
        let b = if j <= at { j } else { j - gap };
        if i != at {
            assert(out[i] == es[a]);
        }
        if j != at {
            assert(out[j] == es[b]);
        }
        if i == at && found {
            assert(order::lex_lt(es[at].0, es[b].0));
        }
    }
    assert forall|k: Seq<u8>| #[trigger]
        entries::find(out, k) == (if k == e.0 {
            Some(e.1)
        } else {
            entries::find(es, k)
        }) by {
        assert(out[at] == e);
        if k == e.0 {
            entries::lemma_find_sorted(out, at);
        } else {
            entries::lemma_find_witness(es, k);
            entries::lemma_find_witness(out, k);
            match entries::find(es, k) {
                Some(v) => {
                    let i = choose|i: int| 0 <= i < es.len() && #[trigger] es[i] == (k, v);
                    let j = if i < at { i } else { i + gap };
                    assert(es[i].0 == k);
                    assert(out[j] == es[i]);
                    entries::lemma_find_sorted(out, j);
                },
                None => {
                    if entries::find(out, k) is Some {
                        let v = entries::find(out, k)->0;
                        let j = choose|j: int| 0 <= j < out.len() && #[trigger] out[j] == (k, v);
                        assert(out[j].0 == k);
                        let i = if j < at { j } else { j - gap };
                        assert(out[j] == es[i]);
                        assert(es[i].0 != k);
                    }
                },
            }
        }
    }
}

impl Memtable {
    /// Keys ascend, and none occurs twice.
    pub open spec fn well_formed(&self) -> bool {
        entries::sorted(self@)
    }

    pub fn new() -> (r: Self)
        ensures
            r.well_formed(),
            r@ == Seq::<Entry>::empty(),
    {
        let r = Memtable { records: Vec::new() };
        assert(r@ =~= Seq::<Entry>::empty());
        r
    }

    pub fn len(&self) -> (n: usize)
        ensures
            n == self@.len(),
    {
        self.records.len()
    }

    /// The entries, in key order.
    pub fn records(&self) -> (r: &[TableRecord])
        ensures
            entries::entries_view(r@) == self@,
    {
        self.records.as_slice()
    }

    /// Where the entry for `key` is, or where it belongs.
    fn place(&self, key: &[u8]) -> (r: (usize, bool))
        requires
            self.well_formed(),
        ensures
            place_of(self@, key@, r.0 as int, r.1),
    {
        let ghost es = self@;
        let mut lo: usize = 0;
        let mut hi: usize = self.records.len();
        while lo < hi
            invariant
                lo <= hi <= self.records@.len(),
                es == self@,
                entries::sorted(es),
                forall|i: int| 0 <= i < lo ==> order::lex_lt(#[trigger] es[i].0, key@),
                forall|i: int| hi <= i < es.len() ==> order::lex_lt(key@, #[trigger] es[i].0),
            decreases hi - lo,
        {
            let mid: usize = lo + (hi - lo) / 2;
            assert(es[mid as int].0 == self.records@[mid as int].0@);
            match order::compare(self.records[mid].0.as_slice(), key) {
                KeyOrder::Equal => {
                    return (mid, true);
                },
                KeyOrder::Less => {
                    proof {
                        assert forall|i: int| 0 <= i < mid + 1 implies order::lex_lt(
                            #[trigger] es[i].0,
                            key@,
                        ) by {
                            if i < mid {
                                order::lemma_lex_transitive(es[i].0, es[mid as int].0, key@);
                            }
                        }
                    }
                    lo = mid + 1;
                },
                KeyOrder::Greater => {
                    proof {
                        assert forall|i: int| mid <= i < es.len() implies order::lex_lt(
                            key@,
                            #[trigger] es[i].0,
                        ) by {
                            if mid < i {
                                order::lemma_lex_transitive(key@, es[mid as int].0, es[i].0);
                            }
                        }
                    }
                    hi = mid;
                },
            }
        }
        (lo, false)
    }

    /// What the memtable says about `key`: a value, that it was deleted, or
    /// nothing.
    pub fn get(&self, key: &[u8]) -> (r: Option<Option<Vec<u8>>>)
        requires
            self.well_formed(),
        ensures
            match r {
                Some(v) => entries::find(self@, key@) == Some(entries::option_view(v)),
                None => entries::find(self@, key@) is None,
            },
    {
        let (at, found) = self.place(key);
        proof {
            if found {
                entries::lemma_find_sorted(self@, at as int);
            } else {
                entries::lemma_find_witness(self@, key@);
                if entries::find(self@, key@) is Some {
                    let v = entries::find(self@, key@)->0;
                    let i = choose|i: int| 0 <= i < self@.len() && #[trigger] self@[i] == (key@, v);
                    order::lemma_lex_irreflexive(key@);
                    assert(self@[i].0 == key@);
                }
            }
        }
        if found {
            Some(copy_value(&self.records[at].1))
        } else {
            None
        }
    }

    /// Sets `key` to `value`, or marks it as deleted.
    pub fn insert(&mut self, key: Vec<u8>, value: Option<Vec<u8>>)
        requires
            old(self).well_formed(),
        ensures
            final(self).well_formed(),
            forall|k: Seq<u8>| #[trigger]
                entries::find(final(self)@, k) == (if k == key@ {
                    Some(entries::option_view(value))
                } else {
                    entries::find(old(self)@, k)
                }),
            entries::all_fit(old(self)@) && entries::entry_fits((key@, entries::option_view(value)))
                ==> entries::all_fit(final(self)@),
            final(self)@.len() <= old(self)@.len() + 1,
    {
        let ghost es = self@;
        let ghost e = (key@, entries::option_view(value));
        let (at, found) = self.place(key.as_slice());
        if found {
            self.records.set(at, (key, value));
        } else {
            self.records.insert(at, (key, value));
        }
        proof {
            assert(self@ =~= placed(es, at as int, found, e));
            lemma_placed(es, at as int, found, e);
            if entries::all_fit(es) && entries::entry_fits(e) {
                let out = self@;
                assert forall|i: int| 0 <= i < out.len() implies entries::entry_fits(
                    #[trigger] out[i],
                ) by {
                    if i != at {
                        let j = if i < at || found { i } else { i - 1 };
                        assert(out[i] == es[j]);
                    }
                }
            }
        }
    }

    /// Forgets everything.
    pub fn clear(&mut self)
        ensures
            final(self).well_formed(),
            final(self)@ == Seq::<Entry>::empty(),
    {
        self.records.clear();
        assert(self@ =~= Seq::<Entry>::empty());
    }
}

} // verus!
