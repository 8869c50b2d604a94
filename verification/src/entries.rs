//! What the store holds, as a sequence of entries: a key with its value, or
//! with nothing where the key was deleted. Later entries overrule earlier ones,
//! so a memtable, a table, a run of tables and a replayed log all mean the same
//! thing: the last entry for a key is the one that counts.
use crate::order;
use vstd::prelude::*;

verus! {

/// A key and its value; no value marks a deletion.
pub type Entry = (Seq<u8>, Option<Seq<u8>>);

/// An entry as the program holds it.
pub type TableRecord = (Vec<u8>, Option<Vec<u8>>);

pub open spec fn option_view(v: Option<Vec<u8>>) -> Option<Seq<u8>> {
    match v {
        Some(bytes) => Some(bytes@),
        None => None,
    }
}

pub open spec fn entry_view(r: TableRecord) -> Entry {
    (r.0@, option_view(r.1))
}

pub open spec fn entries_view(rs: Seq<TableRecord>) -> Seq<Entry> {
    Seq::new(rs.len(), |i: int| entry_view(rs[i]))
}

/// The last entry for `key`: a value, a deletion, or nothing at all.
pub open spec fn find(es: Seq<Entry>, key: Seq<u8>) -> Option<Option<Seq<u8>>>
    decreases es.len(),
{
    if es.len() == 0 {
        None
    } else if es.last().0 == key {
        Some(es.last().1)
    } else {
        find(es.drop_last(), key)
    }
}

/// What a reader sees of an entry: a deletion looks like nothing at all.
pub open spec fn visible(found: Option<Option<Seq<u8>>>) -> Option<Seq<u8>> {
    match found {
        Some(v) => v,
        None => None,
    }
}

/// Keys strictly ascend, so no key occurs twice.
pub open spec fn sorted(es: Seq<Entry>) -> bool {
    forall|i: int, j: int| 0 <= i < j < es.len() ==> order::lex_lt(#[trigger] es[i].0, #[trigger] es[j].0)
}

/// Keys and values short enough for a four-byte length.
pub open spec fn entry_fits(e: Entry) -> bool {
    &&& e.0.len() <= u32::MAX
    &&& e.1 matches Some(v) ==> v.len() <= u32::MAX
}

pub open spec fn all_fit(es: Seq<Entry>) -> bool {
    forall|i: int| 0 <= i < es.len() ==> entry_fits(#[trigger] es[i])
}

/// All entries of `layers`, oldest layer first.
pub open spec fn flatten(layers: Seq<Seq<Entry>>) -> Seq<Entry>
    decreases layers.len(),
{
    if layers.len() == 0 {
        Seq::empty()
    } else {
        flatten(layers.drop_last()) + layers.last()
    }
}

/// Newer entries overrule older ones.
pub proof fn lemma_find_concat(a: Seq<Entry>, b: Seq<Entry>, key: Seq<u8>)
    ensures
        find(a + b, key) == (if find(b, key) is Some {
            find(b, key)
        } else {
            find(a, key)
        }),
    decreases b.len(),
{
    if b.len() == 0 {
        assert(a + b =~= a);
    } else {
        assert((a + b).last() == b.last());
        assert((a + b).drop_last() =~= a + b.drop_last());
        lemma_find_concat(a, b.drop_last(), key);
    }
}

/// The first entry counts only where no later one has its key.
pub proof fn lemma_find_front(es: Seq<Entry>, key: Seq<u8>)
    requires
        es.len() > 0,
    ensures
        find(es, key) == (if find(es.skip(1), key) is Some {
            find(es.skip(1), key)
        } else if es[0].0 == key {
            Some(es[0].1)
        } else {
            None
        }),
{
    let one = seq![es[0]];
    reveal_with_fuel(find, 2);
    assert(one.drop_last() =~= Seq::<Entry>::empty());
    assert(es =~= one + es.skip(1));
    lemma_find_concat(one, es.skip(1), key);
}

pub proof fn lemma_find_push(es: Seq<Entry>, e: Entry, key: Seq<u8>)
    ensures
        find(es.push(e), key) == (if e.0 == key {
            Some(e.1)
        } else {
            find(es, key)
        }),
{
    assert(es.push(e).drop_last() =~= es);
}

/// A key is found exactly where some entry has it.
pub proof fn lemma_find_witness(es: Seq<Entry>, key: Seq<u8>)
    ensures
        match find(es, key) {
            Some(v) => exists|i: int| 0 <= i < es.len() && #[trigger] es[i] == (key, v),
            None => forall|i: int| 0 <= i < es.len() ==> #[trigger] es[i].0 != key,
        },
    decreases es.len(),
{
    if es.len() > 0 && es.last().0 != key {
        lemma_find_witness(es.drop_last(), key);
        match find(es, key) {
            Some(v) => {
                let i = choose|i: int| 0 <= i < es.len() - 1 && #[trigger] es.drop_last()[i] == (key, v);
                assert(es[i] == (key, v));
            },
            None => {
                assert forall|i: int| 0 <= i < es.len() implies #[trigger] es[i].0 != key by {
                    if i < es.len() - 1 {
                        assert(es.drop_last()[i] == es[i]);
                    }
                }
            },
        }
    } else if es.len() > 0 {
        assert(es[es.len() - 1] == (key, es.last().1));
    }
}

/// In a sorted sequence the entry at any position is the one that is found.
pub proof fn lemma_find_sorted(es: Seq<Entry>, i: int)
    requires
        sorted(es),
        0 <= i < es.len(),
    ensures
        find(es, es[i].0) == Some(es[i].1),
{
    let key = es[i].0;
    lemma_find_witness(es, key);
    match find(es, key) {
        Some(v) => {
            let j = choose|j: int| 0 <= j < es.len() && #[trigger] es[j] == (key, v);
            order::lemma_lex_irreflexive(key);
            if i < j {
                assert(order::lex_lt(es[i].0, es[j].0));
            } else if j < i {
                assert(order::lex_lt(es[j].0, es[i].0));
            }
        },
        None => {},
    }
}

/// Part of a sorted sequence is sorted.
pub proof fn lemma_sorted_subrange(es: Seq<Entry>, from: int, to: int)
    requires
        sorted(es),
        0 <= from <= to <= es.len(),
    ensures
        sorted(es.subrange(from, to)),
{
    let part = es.subrange(from, to);
    assert forall|i: int, j: int| 0 <= i < j < part.len() implies order::lex_lt(
        #[trigger] part[i].0,
        #[trigger] part[j].0,
    ) by {
        assert(part[i] == es[from + i]);
        assert(part[j] == es[from + j]);
    }
}

/// A sorted sequence is known by what it says of each key.
pub proof fn lemma_sorted_unique(a: Seq<Entry>, b: Seq<Entry>)
    requires
        sorted(a),
        sorted(b),
        forall|k: Seq<u8>| #[trigger] find(a, k) == find(b, k),
    ensures
        a == b,
    decreases a.len(),
{
    if a.len() == 0 {
        if b.len() > 0 {
            assert(find(b, b.last().0) is Some);
            assert(find(a, b.last().0) is Some);
        }
        assert(a =~= b);
    } else {
        let x = a.last();
        assert(find(a, x.0) == Some(x.1));
        assert(find(b, x.0) == Some(x.1));
        lemma_find_witness(b, x.0);
        let j = choose|j: int| 0 <= j < b.len() && #[trigger] b[j] == (x.0, x.1);
        let y = b.last();
        assert(find(b, y.0) == Some(y.1));
        assert(find(a, y.0) == Some(y.1));
        lemma_find_witness(a, y.0);
        let i = choose|i: int| 0 <= i < a.len() && #[trigger] a[i] == (y.0, y.1);
        if j < b.len() - 1 {
            assert(order::lex_lt(b[j].0, b[b.len() - 1].0));
            order::lemma_lex_asymmetric(x.0, y.0);
            if i < a.len() - 1 {
                assert(order::lex_lt(a[i].0, a[a.len() - 1].0));
            }
        }
        assert(x == y);
        let a2 = a.drop_last();
        let b2 = b.drop_last();
        lemma_sorted_subrange(a, 0, a.len() - 1);
        lemma_sorted_subrange(b, 0, b.len() - 1);
        assert(a2 =~= a.subrange(0, a.len() - 1));
        assert(b2 =~= b.subrange(0, b.len() - 1));
        assert forall|k: Seq<u8>| #[trigger] find(a2, k) == find(b2, k) by {
            assert(find(a, k) == find(b, k));
            if k == x.0 {
                lemma_last_key_is_new(a);
                lemma_last_key_is_new(b);
            }
        }
        lemma_sorted_unique(a2, b2);
        assert(a =~= a2.push(x));
        assert(b =~= b2.push(y));
    }
}

/// The last key of a sorted sequence does not occur before.
proof fn lemma_last_key_is_new(es: Seq<Entry>)
    requires
        sorted(es),
        es.len() > 0,
    ensures
        find(es.drop_last(), es.last().0) is None,
{
    let rest = es.drop_last();
    let k = es.last().0;
    lemma_find_witness(rest, k);
    if find(rest, k) is Some {
        let v = find(rest, k)->0;
        let i = choose|i: int| 0 <= i < rest.len() && #[trigger] rest[i] == (k, v);
        assert(order::lex_lt(es[i].0, es[es.len() - 1].0));
        order::lemma_lex_irreflexive(k);
    }
}

/// The newest layer that knows a key decides.
pub proof fn lemma_find_flatten_last(layers: Seq<Seq<Entry>>, key: Seq<u8>)
    requires
        layers.len() > 0,
    ensures
        find(flatten(layers), key) == (if find(layers.last(), key) is Some {
            find(layers.last(), key)
        } else {
            find(flatten(layers.drop_last()), key)
        }),
{
    lemma_find_concat(flatten(layers.drop_last()), layers.last(), key);
}

pub proof fn lemma_flatten_concat(a: Seq<Seq<Entry>>, b: Seq<Seq<Entry>>)
    ensures
        flatten(a + b) == flatten(a) + flatten(b),
    decreases b.len(),
{
    if b.len() == 0 {
        assert(a + b =~= a);
        assert(flatten(a) + flatten(b) =~= flatten(a));
    } else {
        assert((a + b).drop_last() =~= a + b.drop_last());
        assert((a + b).last() == b.last());
        lemma_flatten_concat(a, b.drop_last());
        assert(flatten(a + b) =~= flatten(a) + flatten(b));
    }
}

// --------------------------------------------------------------------- laws

/// What is shown of an entry is its key and its value as they are.
pub proof fn entries_are_shown_whole(rs: Seq<TableRecord>, i: int)
    requires
        0 <= i < rs.len(),
    ensures
        entries_view(rs).len() == rs.len(),
        entries_view(rs)[i].0 == rs[i].0@,
        match rs[i].1 {
            Some(v) => entries_view(rs)[i].1 == Some(v@) && option_view(rs[i].1) == Some(v@),
            None => entries_view(rs)[i].1 is None && option_view(rs[i].1) is None,
        },
{
}

/// The last entry for a key counts, and only that one: entries for other keys
/// behind it change nothing.
pub proof fn the_last_entry_counts(before: Seq<Entry>, e: Entry, after: Seq<Entry>)
    requires
        forall|i: int| 0 <= i < after.len() ==> (#[trigger] after[i]).0 != e.0,
    ensures
        find(before.push(e) + after, e.0) == Some(e.1),
        find(after, e.0) is None,
        visible(find(before.push(e) + after, e.0)) == e.1,
        visible(find(after, e.0)) is None,
{
    lemma_find_witness(after, e.0);
    if find(after, e.0) is Some {
        let v = find(after, e.0)->0;
        let i = choose|i: int| 0 <= i < after.len() && #[trigger] after[i] == (e.0, v);
        assert(after[i].0 == e.0);
    }
    lemma_find_concat(before.push(e), after, e.0);
    lemma_find_push(before, e, e.0);
}

/// Layers are read as one sequence, the older ones first.
pub proof fn newer_layers_come_behind(layers: Seq<Seq<Entry>>, newest: Seq<Entry>)
    ensures
        flatten(Seq::empty()) == Seq::<Entry>::empty(),
        flatten(layers.push(newest)) == flatten(layers) + newest,
{
    assert(layers.push(newest).drop_last() =~= layers);
}

/// In sorted entries every key comes before all later ones, and none occurs twice.
pub proof fn sorted_keys_ascend(es: Seq<Entry>, i: int, j: int)
    requires
        sorted(es),
        0 <= i < j < es.len(),
    ensures
        es[i].0 != es[j].0,
        order::lex_lt(es[i].0, es[j].0),
{
    order::lemma_lex_irreflexive(es[i].0);
}

} // verus!
