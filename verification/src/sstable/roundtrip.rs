//! Reading gives back what was written: the parts of a table, its records, and
//! the answer for every single key.
use crate::bloom;
use crate::codec;
use crate::entries;
use crate::entries::Entry;
use crate::hash;
use crate::order;
use crate::sstable::layout;
use crate::sstable::layout::{IndexEntry, TableError, TableParts};
use crate::sstable::records;
use crate::sstable::table;
use vstd::prelude::*;

verus! {

/// The position of record `i`.
pub open spec fn offset(es: Seq<Entry>, i: int) -> nat {
    layout::records_bytes(es.take(i)).len()
}

/// Which records begin a block.
pub open spec fn starts(es: Seq<Entry>) -> Seq<int>
    decreases es.len(),
{
    if es.len() == 0 {
        Seq::empty()
    } else {
        let before = es.drop_last();
        if layout::records_bytes(before).len() == layout::block_start(before) {
            starts(before).push(before.len() as int)
        } else {
            starts(before)
        }
    }
}

/// The first record behind block `j`.
pub open spec fn block_stop(es: Seq<Entry>, j: int) -> int {
    if j + 1 < starts(es).len() {
        starts(es)[j + 1]
    } else {
        es.len() as int
    }
}

/// `es` can be written: lengths fit their fields, and so do all positions.
pub open spec fn writable(es: Seq<Entry>, bits_per_key: nat) -> bool {
    &&& entries::all_fit(es)
    &&& 64 * bloom::words_for(es.len(), bits_per_key) <= u64::MAX
    &&& layout::table_bytes(es, bits_per_key).len() <= u64::MAX
}

// ------------------------------------------------------------ concatenation

pub proof fn lemma_records_concat(a: Seq<Entry>, b: Seq<Entry>)
    ensures
        layout::records_bytes(a + b) == layout::records_bytes(a) + layout::records_bytes(b),
    decreases b.len(),
{
    if b.len() == 0 {
        assert(a + b =~= a);
        assert(layout::records_bytes(a) + layout::records_bytes(b) =~= layout::records_bytes(a));
    } else {
        assert((a + b).drop_last() =~= a + b.drop_last());
        lemma_records_concat(a, b.drop_last());
        assert(layout::records_bytes(a + b) =~= layout::records_bytes(a) + layout::records_bytes(b));
    }
}

proof fn lemma_index_concat(a: Seq<IndexEntry>, b: Seq<IndexEntry>)
    ensures
        layout::index_bytes(a + b) == layout::index_bytes(a) + layout::index_bytes(b),
    decreases b.len(),
{
    if b.len() == 0 {
        assert(a + b =~= a);
        assert(layout::index_bytes(a) + layout::index_bytes(b) =~= layout::index_bytes(a));
    } else {
        assert((a + b).drop_last() =~= a + b.drop_last());
        lemma_index_concat(a, b.drop_last());
        assert(layout::index_bytes(a + b) =~= layout::index_bytes(a) + layout::index_bytes(b));
    }
}

/// The first record stands first.
proof fn lemma_records_front(es: Seq<Entry>)
    requires
        es.len() > 0,
    ensures
        layout::records_bytes(es) == layout::record_bytes(es[0]) + layout::records_bytes(es.skip(1)),
{
    let one = seq![es[0]];
    reveal_with_fuel(layout::records_bytes, 2);
    assert(one.drop_last() =~= Seq::<Entry>::empty());
    assert(layout::records_bytes(one) =~= layout::record_bytes(es[0]));
    assert(es =~= one + es.skip(1));
    lemma_records_concat(one, es.skip(1));
}

proof fn lemma_index_front(index: Seq<IndexEntry>)
    requires
        index.len() > 0,
    ensures
        layout::index_bytes(index) == layout::index_entry_bytes(index[0]) + layout::index_bytes(
            index.skip(1),
        ),
{
    let one = seq![index[0]];
    reveal_with_fuel(layout::index_bytes, 2);
    assert(one.drop_last() =~= Seq::<IndexEntry>::empty());
    assert(layout::index_bytes(one) =~= layout::index_entry_bytes(index[0]));
    assert(index =~= one + index.skip(1));
    lemma_index_concat(one, index.skip(1));
}

/// The bytes from record `i` up to record `k` are the records between them.
pub proof fn lemma_records_subrange(es: Seq<Entry>, i: int, k: int)
    requires
        0 <= i <= k <= es.len(),
    ensures
        offset(es, i) <= offset(es, k) <= layout::records_bytes(es).len(),
        layout::records_bytes(es).subrange(offset(es, i) as int, offset(es, k) as int)
            == layout::records_bytes(es.subrange(i, k)),
{
    let a = es.take(i);
    let b = es.subrange(i, k);
    let c = es.skip(k);
    lemma_records_concat(a, b);
    lemma_records_concat(a + b, c);
    assert(a + b =~= es.take(k));
    assert(a + b + c =~= es);
    assert(layout::records_bytes(es).subrange(offset(es, i) as int, offset(es, k) as int)
        =~= layout::records_bytes(b));
}

// ------------------------------------------------------------------ records

/// One record is read back wherever it stands.
pub proof fn lemma_record_roundtrip(before: Seq<u8>, e: Entry, after: Seq<u8>)
    requires
        entries::entry_fits(e),
    ensures
        layout::record_bytes(e).len() >= 9,
        layout::record_at(before + layout::record_bytes(e) + after, before.len() as int) == Some(
            (
                layout::RawRecord {
                    key: e.0,
                    value: layout::value_bytes(e.1),
                    op: layout::op_byte(e.1),
                },
                (before.len() + layout::record_bytes(e).len()) as int,
            ),
        ),
{
    let k = codec::prefixed(e.0);
    let v = codec::prefixed(layout::value_bytes(e.1));
    let o = seq![layout::op_byte(e.1)];
    let all = before + layout::record_bytes(e) + after;
    codec::lemma_prefixed_roundtrip(before, e.0, v + o + after);
    assert(all =~= before + k + (v + o + after));
    codec::lemma_prefixed_roundtrip(before + k, layout::value_bytes(e.1), o + after);
    assert(all =~= before + k + v + (o + after));
}

/// All records are read back, in order.
pub proof fn lemma_entries_roundtrip(before: Seq<u8>, es: Seq<Entry>)
    requires
        entries::all_fit(es),
    ensures
        layout::entries_from(before + layout::records_bytes(es), before.len() as int) == Ok::<
            Seq<Entry>,
            TableError,
        >(es),
    decreases es.len(),
{
    let all = before + layout::records_bytes(es);
    if es.len() == 0 {
        assert(es =~= Seq::<Entry>::empty());
    } else {
        let head = es[0];
        let rest = es.skip(1);
        assert(entries::entry_fits(es[0]));
        assert forall|i: int| 0 <= i < rest.len() implies entries::entry_fits(#[trigger] rest[i]) by {
            assert(rest[i] == es[i + 1]);
        }
        lemma_records_front(es);
        assert(es =~= seq![(head.0, head.1)] + rest);
        lemma_record_roundtrip(before, head, layout::records_bytes(rest));
        assert(all =~= before + layout::record_bytes(head) + layout::records_bytes(rest));
        lemma_entries_roundtrip(before + layout::record_bytes(head), rest);
        assert(all =~= (before + layout::record_bytes(head)) + layout::records_bytes(rest));
    }
}

/// Scanning sorted records finds what they say about a key.
pub proof fn lemma_scan_roundtrip(before: Seq<u8>, es: Seq<Entry>, key: Seq<u8>)
    requires
        entries::all_fit(es),
        entries::sorted(es),
    ensures
        layout::scan_from(before + layout::records_bytes(es), before.len() as int, key) == Ok::<
            Option<Option<Seq<u8>>>,
            TableError,
        >(entries::find(es, key)),
    decreases es.len(),
{
    let all = before + layout::records_bytes(es);
    if es.len() > 0 {
        let head = es[0];
        let rest = es.skip(1);
        assert(entries::entry_fits(es[0]));
        assert forall|i: int| 0 <= i < rest.len() implies entries::entry_fits(#[trigger] rest[i]) by {
            assert(rest[i] == es[i + 1]);
        }
        entries::lemma_sorted_subrange(es, 1, es.len() as int);
        assert(rest =~= es.subrange(1, es.len() as int));
        lemma_records_front(es);
        lemma_record_roundtrip(before, head, layout::records_bytes(rest));
        assert(all =~= before + layout::record_bytes(head) + layout::records_bytes(rest));
        entries::lemma_find_front(es, key);
        if order::lex_lt(head.0, key) {
            lemma_scan_roundtrip(before + layout::record_bytes(head), rest, key);
            assert(all =~= (before + layout::record_bytes(head)) + layout::records_bytes(rest));
            order::lemma_lex_asymmetric(head.0, key);
        } else {
            // The rest is after the head, so the key is not among it.
            entries::lemma_find_witness(rest, key);
            if entries::find(rest, key) is Some {
                let v = entries::find(rest, key)->0;
                let i = choose|i: int| 0 <= i < rest.len() && #[trigger] rest[i] == (key, v);
                assert(rest[i] == es[i + 1]);
                assert(order::lex_lt(es[0].0, es[i + 1].0));
                assert(false);
            }
        }
    }
}

// -------------------------------------------------------------------- index

proof fn lemma_index_roundtrip(before: Seq<u8>, index: Seq<IndexEntry>, after: Seq<u8>)
    requires
        forall|i: int|
            0 <= i < index.len() ==> (#[trigger] index[i]).0.len() <= u32::MAX && index[i].1
                <= u64::MAX,
    ensures
        layout::index_from(
            before + layout::index_bytes(index) + after,
            before.len() as int,
            (before.len() + layout::index_bytes(index).len()) as int,
        ) == Ok::<Seq<IndexEntry>, TableError>(index),
    decreases index.len(),
{
    let all = before + layout::index_bytes(index) + after;
    if index.len() == 0 {
        assert(index =~= Seq::<IndexEntry>::empty());
    } else {
        let head = index[0];
        let rest = index.skip(1);
        let head_bytes = layout::index_entry_bytes(head);
        assert forall|i: int| 0 <= i < rest.len() implies (#[trigger] rest[i]).0.len() <= u32::MAX
            && rest[i].1 <= u64::MAX by {
            assert(rest[i] == index[i + 1]);
        }
        lemma_index_front(index);
        assert(index =~= seq![(head.0, head.1)] + rest);
        let k = codec::prefixed(head.0);
        let o = codec::le_bytes(head.1, 8);
        let tail = layout::index_bytes(rest) + after;
        codec::lemma_prefixed_roundtrip(before, head.0, o + tail);
        assert(all =~= before + k + (o + tail));
        codec::lemma_pow256_values();
        codec::lemma_le_roundtrip(head.1, 8);
        let p = (before.len() + k.len()) as int;
        assert(all.subrange(p, p + 8) =~= o);
        lemma_index_roundtrip(before + head_bytes, rest, after);
        assert(all =~= (before + head_bytes) + layout::index_bytes(rest) + after);
    }
}

/// The index lists the first record of each block with its position.
pub proof fn lemma_index_is_starts(es: Seq<Entry>)
    ensures
        starts(es).len() == layout::index_entries(es).len(),
        es.len() > 0 ==> starts(es).len() > 0 && starts(es)[0] == 0,
        forall|j: int|
            0 <= j < starts(es).len() ==> 0 <= #[trigger] starts(es)[j] < es.len()
                && layout::index_entries(es)[j] == (es[starts(es)[j]].0, offset(es, starts(es)[j])),
        forall|i: int, j: int|
            0 <= i < j < starts(es).len() ==> #[trigger] starts(es)[i] < #[trigger] starts(es)[j],
    decreases es.len(),
{
    if es.len() > 0 {
        let before = es.drop_last();
        lemma_index_is_starts(before);
        assert forall|j: int| 0 <= j < starts(es).len() implies 0 <= #[trigger] starts(es)[j]
            < es.len() && layout::index_entries(es)[j] == (
            es[starts(es)[j]].0,
            offset(es, starts(es)[j]),
        ) by {
            if j < starts(before).len() {
                assert(starts(es)[j] == starts(before)[j]);
                assert(before.take(starts(before)[j]) =~= es.take(starts(before)[j]));
            } else {
                assert(es.take(before.len() as int) =~= before);
            }
        }
        if before.len() == 0 {
            assert(layout::records_bytes(before).len() == 0);
        } else {
            assert(starts(es)[0] == starts(before)[0]);
        }
    }
}

/// The block that an index entry names holds the records from there up to the
/// next index entry.
pub proof fn lemma_block_bytes(es: Seq<Entry>, bits_per_key: nat, j: int)
    requires
        0 <= j < layout::index_entries(es).len(),
    ensures
        ({
            let p = layout::parts_of(es, bits_per_key);
            let from = starts(es)[j];
            let to = block_stop(es, j);
            &&& 0 <= from < to <= es.len()
            &&& p.index[j].0 == es[from].0
            &&& p.index[j].1 <= table::block_end(p, j) <= layout::records_bytes(es).len()
            &&& layout::records_bytes(es).subrange(
                p.index[j].1 as int,
                table::block_end(p, j) as int,
            ) == layout::records_bytes(es.subrange(from, to))
        }),
{
    let p = layout::parts_of(es, bits_per_key);
    let from = starts(es)[j];
    let to = block_stop(es, j);
    lemma_index_is_starts(es);
    if j + 1 < starts(es).len() {
        assert(starts(es)[j] < starts(es)[j + 1]);
        assert(table::block_end(p, j) == offset(es, to));
    } else {
        assert(es.take(es.len() as int) =~= es);
        assert(table::block_end(p, j) == offset(es, to));
    }
    lemma_records_subrange(es, from, to);
}

// ------------------------------------------------------------------- filter

proof fn lemma_words_concat(a: Seq<u64>, b: Seq<u64>)
    ensures
        layout::words_bytes(a + b) == layout::words_bytes(a) + layout::words_bytes(b),
    decreases b.len(),
{
    if b.len() == 0 {
        assert(a + b =~= a);
        assert(layout::words_bytes(a) + layout::words_bytes(b) =~= layout::words_bytes(a));
    } else {
        assert((a + b).drop_last() =~= a + b.drop_last());
        lemma_words_concat(a, b.drop_last());
        assert(layout::words_bytes(a + b) =~= layout::words_bytes(a) + layout::words_bytes(b));
    }
}

proof fn lemma_words_len(words: Seq<u64>)
    ensures
        layout::words_bytes(words).len() == 8 * words.len(),
    decreases words.len(),
{
    if words.len() > 0 {
        lemma_words_len(words.drop_last());
        codec::lemma_le_bytes_len(words.last() as nat, 8);
    }
}

proof fn lemma_words_roundtrip(before: Seq<u8>, words: Seq<u64>, after: Seq<u8>)
    ensures
        layout::words_at(
            before + layout::words_bytes(words) + after,
            before.len() as int,
            words.len(),
        ) == words,
{
    let all = before + layout::words_bytes(words) + after;
    let got = layout::words_at(all, before.len() as int, words.len());
    assert forall|i: int| 0 <= i < words.len() implies got[i] == words[i] by {
        let a = words.take(i);
        let b = seq![words[i]];
        let c = words.skip(i + 1);
        assert(a + b + c =~= words);
        lemma_words_concat(a + b, c);
        lemma_words_concat(a, b);
        lemma_words_len(a);
        reveal_with_fuel(layout::words_bytes, 2);
        assert(b.drop_last() =~= Seq::<u64>::empty());
        assert(layout::words_bytes(b) =~= codec::le_bytes(words[i] as nat, 8));
        codec::lemma_pow256_values();
        codec::lemma_le_roundtrip(words[i] as nat, 8);
        let at = before.len() + 8 * i;
        assert(all.subrange(at, at + 8) =~= codec::le_bytes(words[i] as nat, 8));
    }
    assert(got =~= words);
}

/// Every key that was written is in the filter.
pub proof fn lemma_filter_holds(es: Seq<Entry>, empty: Seq<u64>, num_bits: u64, num_probes: u32, i: int)
    requires
        0 <= i < es.len(),
        0 < num_bits <= 64 * empty.len(),
    ensures
        bloom::probe_set(hash::spec_hash64(es[i].0), num_bits, num_probes).subset_of(
            bloom::word_ones(layout::filter_words(es, empty, num_bits, num_probes)),
        ),
    decreases es.len(),
{
    let before = layout::filter_words(es.drop_last(), empty, num_bits, num_probes);
    lemma_filter_len(es.drop_last(), empty, num_bits, num_probes);
    let h = hash::spec_hash64(es.last().0);
    bloom::lemma_with_probes(before, h, num_bits, num_probes as nat);
    if i < es.len() - 1 {
        lemma_filter_holds(es.drop_last(), empty, num_bits, num_probes, i);
    }
}

pub proof fn lemma_filter_len(es: Seq<Entry>, empty: Seq<u64>, num_bits: u64, num_probes: u32)
    requires
        0 < num_bits <= 64 * empty.len(),
    ensures
        layout::filter_words(es, empty, num_bits, num_probes).len() == empty.len(),
    decreases es.len(),
{
    if es.len() > 0 {
        lemma_filter_len(es.drop_last(), empty, num_bits, num_probes);
        bloom::lemma_with_probes(
            layout::filter_words(es.drop_last(), empty, num_bits, num_probes),
            hash::spec_hash64(es.last().0),
            num_bits,
            num_probes as nat,
        );
    }
}

// ---------------------------------------------------------------- the table

/// The fields of a trailer are found at the end of the file.
proof fn lemma_trailer(body: Seq<u8>, index_start: nat, filter_start: nat, meta_start: nat)
    requires
        index_start <= u64::MAX,
        filter_start <= u64::MAX,
        meta_start <= u64::MAX,
    ensures
        ({
            let s = body + layout::trailer_bytes(index_start, filter_start, meta_start);
            let t = body.len() as int;
            &&& s.len() == t + 32
            &&& codec::le_value(s.subrange(t, t + 8)) == index_start
            &&& codec::le_value(s.subrange(t + 8, t + 16)) == filter_start
            &&& codec::le_value(s.subrange(t + 16, t + 24)) == meta_start
            &&& s.subrange(t + 24, t + 30) == layout::magic()
            &&& s[t + 30] == layout::FORMAT_VERSION
        }),
{
    let s = body + layout::trailer_bytes(index_start, filter_start, meta_start);
    let t = body.len() as int;
    codec::lemma_pow256_values();
    codec::lemma_le_roundtrip(index_start, 8);
    codec::lemma_le_roundtrip(filter_start, 8);
    codec::lemma_le_roundtrip(meta_start, 8);
    assert(s.subrange(t, t + 8) =~= codec::le_bytes(index_start, 8));
    assert(s.subrange(t + 8, t + 16) =~= codec::le_bytes(filter_start, 8));
    assert(s.subrange(t + 16, t + 24) =~= codec::le_bytes(meta_start, 8));
    assert(s.subrange(t + 24, t + 30) =~= layout::magic());
}

/// A filter is read back wherever it stands.
proof fn lemma_filter_roundtrip(
    before: Seq<u8>,
    words: Seq<u64>,
    num_bits: u64,
    num_probes: u32,
    after: Seq<u8>,
)
    ensures
        ({
            let filter = layout::filter_bytes(words, num_bits, num_probes);
            let s = before + filter + after;
            let f = before.len() as int;
            &&& filter.len() == 12 + 8 * words.len()
            &&& codec::le_value(s.subrange(f, f + 8)) == num_bits
            &&& codec::le_value(s.subrange(f + 8, f + 12)) == num_probes
            &&& layout::words_at(s, f + 12, words.len()) == words
        }),
{
    let filter = layout::filter_bytes(words, num_bits, num_probes);
    let s = before + filter + after;
    let f = before.len() as int;
    let head = codec::le_bytes(num_bits as nat, 8) + codec::le_bytes(num_probes as nat, 4);
    codec::lemma_pow256_values();
    codec::lemma_le_roundtrip(num_bits as nat, 8);
    codec::lemma_le_roundtrip(num_probes as nat, 4);
    lemma_words_len(words);
    lemma_words_roundtrip(before + head, words, after);
    assert(s =~= (before + head) + layout::words_bytes(words) + after);
    assert(s.subrange(f, f + 8) =~= codec::le_bytes(num_bits as nat, 8));
    assert(s.subrange(f + 8, f + 12) =~= codec::le_bytes(num_probes as nat, 4));
}

/// Six strings in a row, grouped in the ways the fields are read.
proof fn lemma_regroup(a: Seq<u8>, b: Seq<u8>, c: Seq<u8>, d: Seq<u8>, e: Seq<u8>, f: Seq<u8>)
    ensures
        a + (b + c + (d + e) + f) == (a + b + c + d + e) + f,
        (a + b + c + d + e) + f == (a + b + c) + d + (e + f),
        (a + b + c + d + e) + f == (a + b + c + d) + e + f,
        (a + b + c + d + e) + f == (a + b) + c + (d + e + f),
        (a + b + c + d + e) + f == a + b + (c + d + e + f),
{
    let all = (a + b + c + d + e) + f;
    assert(a + (b + c + (d + e) + f) =~= all);
    assert((a + b + c) + d + (e + f) =~= all);
    assert((a + b) + c + (d + e + f) =~= all);
    assert(a + b + (c + d + e + f) =~= all);
}

/// Opening a file that was written gives back what was kept of it.
pub proof fn written_table_opens(es: Seq<Entry>, bits_per_key: nat)
    requires
        writable(es, bits_per_key),
    ensures
        layout::parse_table(layout::table_bytes(es, bits_per_key)) == Ok::<TableParts, TableError>(
            layout::parts_of(es, bits_per_key),
        ),
{
    lemma_parts_bounds(es, bits_per_key);
    lemma_parts_roundtrip(layout::records_bytes(es), layout::parts_of(es, bits_per_key));
}

#[verifier::rlimit(50)]
proof fn lemma_parts_roundtrip(data: Seq<u8>, p: TableParts)
    requires
        p.index_start == data.len(),
        p.min_key.len() <= u32::MAX,
        p.max_key.len() <= u32::MAX,
        p.num_bits == 64 * p.words.len(),
        forall|i: int|
            0 <= i < p.index.len() ==> (#[trigger] p.index[i]).0.len() <= u32::MAX && p.index[i].1
                <= u64::MAX,
        (data + layout::tail_bytes(p)).len() <= u64::MAX,
    ensures
        layout::parse_table(data + layout::tail_bytes(p)) == Ok::<TableParts, TableError>(p),
{
    let s = data + layout::tail_bytes(p);
    let index = layout::index_bytes(p.index);
    let filter = layout::filter_bytes(p.words, p.num_bits, p.num_probes);
    let min = codec::prefixed(p.min_key);
    let max = codec::prefixed(p.max_key);
    let filter_start = data.len() + index.len();
    let meta_start = filter_start + filter.len();
    let trailer = layout::trailer_bytes(data.len(), filter_start, meta_start);
    let body = data + index + filter + min + max;
    lemma_regroup(data, index, filter, min, max, trailer);
    assert(s == body + trailer);
    assert(s.len() == body.len() + trailer.len());
    lemma_trailer(body, data.len(), filter_start, meta_start);
    codec::lemma_prefixed_roundtrip(data + index + filter, p.min_key, max + trailer);
    codec::lemma_prefixed_roundtrip(data + index + filter + min, p.max_key, trailer);
    lemma_filter_roundtrip(data + index, p.words, p.num_bits, p.num_probes, min + max + trailer);
    lemma_index_roundtrip(data, p.index, filter + min + max + trailer);
    let f = filter_start as int;
    assert(codec::prefixed_at(s, meta_start as int) == Some(
        (p.min_key, (meta_start + 4 + p.min_key.len()) as int),
    ));
    assert(layout::index_from(s, data.len() as int, f) == Ok::<Seq<IndexEntry>, TableError>(p.index));
    let parsed = layout::parse_table(s);
    assert(parsed is Ok);
    assert(parsed->Ok_0 =~= p);
}

proof fn lemma_parts_bounds(es: Seq<Entry>, bits_per_key: nat)
    requires
        writable(es, bits_per_key),
    ensures
        ({
            let p = layout::parts_of(es, bits_per_key);
            &&& p.min_key.len() <= u32::MAX
            &&& p.max_key.len() <= u32::MAX
            &&& p.num_bits == 64 * p.words.len()
            &&& p.num_bits > 0
            &&& 1 <= p.num_probes <= 30
            &&& forall|i: int|
                0 <= i < p.index.len() ==> (#[trigger] p.index[i]).0.len() <= u32::MAX
                    && p.index[i].1 <= u64::MAX
        }),
{
    let p = layout::parts_of(es, bits_per_key);
    let n = bloom::words_for(es.len(), bits_per_key);
    lemma_filter_len(es, Seq::new(n, |i: int| 0u64), p.num_bits, p.num_probes);
    if es.len() > 0 {
        assert(entries::entry_fits(es[0]));
        assert(entries::entry_fits(es[es.len() - 1]));
    }
    lemma_index_is_starts(es);
    assert forall|i: int| 0 <= i < p.index.len() implies (#[trigger] p.index[i]).0.len()
        <= u32::MAX && p.index[i].1 <= u64::MAX by {
        let k = starts(es)[i];
        assert(entries::entry_fits(es[k]));
        lemma_records_subrange(es, 0, k);
    }
}

/// The records stand at the beginning of the file.
pub proof fn lemma_file_starts_with_records(es: Seq<Entry>, bits_per_key: nat, a: int, b: int)
    requires
        0 <= a <= b <= layout::records_bytes(es).len(),
    ensures
        b <= layout::table_bytes(es, bits_per_key).len(),
        layout::table_bytes(es, bits_per_key).subrange(a, b) == layout::records_bytes(es).subrange(
            a,
            b,
        ),
{
    let tail = layout::tail_bytes(layout::parts_of(es, bits_per_key));
    assert((layout::records_bytes(es) + tail).subrange(a, b) =~= layout::records_bytes(es).subrange(
        a,
        b,
    ));
}

/// The scan of a block answers for every key that can only be in this block.
proof fn lemma_block_answers(es: Seq<Entry>, bits_per_key: nat, j: int, key: Seq<u8>)
    requires
        entries::all_fit(es),
        entries::sorted(es),
        0 <= j < layout::index_entries(es).len(),
        table::splits_at(layout::index_entries(es), key, j + 1),
    ensures
        ({
            let p = layout::parts_of(es, bits_per_key);
            let file = layout::table_bytes(es, bits_per_key);
            &&& p.index[j].1 <= table::block_end(p, j) <= file.len()
            &&& layout::scan_from(
                file.subrange(p.index[j].1 as int, table::block_end(p, j) as int),
                0,
                key,
            ) == Ok::<Option<Option<Seq<u8>>>, TableError>(entries::find(es, key))
        }),
{
    let p = layout::parts_of(es, bits_per_key);
    lemma_index_is_starts(es);
    lemma_block_bytes(es, bits_per_key, j);
    let from = starts(es)[j];
    let to = block_stop(es, j);
    let block = es.subrange(from, to);
    lemma_file_starts_with_records(
        es,
        bits_per_key,
        p.index[j].1 as int,
        table::block_end(p, j) as int,
    );
    entries::lemma_sorted_subrange(es, from, to);
    assert forall|i: int| 0 <= i < block.len() implies entries::entry_fits(#[trigger] block[i]) by {
        assert(entries::entry_fits(es[from + i]));
    }
    lemma_scan_roundtrip(Seq::empty(), block, key);
    assert(Seq::<u8>::empty() + layout::records_bytes(block) =~= layout::records_bytes(block));
    if to < es.len() {
        assert(layout::index_entries(es)[j + 1].0 == es[starts(es)[j + 1]].0);
    }
    lemma_find_in_block(es, from, to, key);
}

/// A table that holds `es` answers every key as `es` do: where `block_for`
/// points to no block the key has no entry, and where it points to one the
/// scan of that block finds the key's entry, or that there is none.
pub proof fn written_table_answers(
    es: Seq<Entry>,
    bits_per_key: nat,
    key: Seq<u8>,
    r: Result<Option<(u64, u64)>, TableError>,
)
    requires
        writable(es, bits_per_key),
        entries::sorted(es),
        table::locates(layout::parts_of(es, bits_per_key), key, hash::spec_hash64(key), r),
    ensures
        match r {
            Ok(None) => entries::find(es, key) is None,
            Ok(Some((start, end))) => {
                &&& start <= end <= layout::table_bytes(es, bits_per_key).len()
                &&& layout::scan_from(
                    layout::table_bytes(es, bits_per_key).subrange(start as int, end as int),
                    0,
                    key,
                ) == Ok::<Option<Option<Seq<u8>>>, TableError>(entries::find(es, key))
            },
            Err(_) => false,
        },
{
    let p = layout::parts_of(es, bits_per_key);
    let file = layout::table_bytes(es, bits_per_key);
    let h = hash::spec_hash64(key);
    assert(file.len() <= u64::MAX);
    entries::lemma_find_witness(es, key);
    if entries::find(es, key) is Some {
        let v = entries::find(es, key)->0;
        let i = choose|i: int| 0 <= i < es.len() && #[trigger] es[i] == (key, v);
        lemma_key_is_worth_reading(es, bits_per_key, i);
    }
    lemma_filter_answers(es, bits_per_key, h);
    if table::worth_reading(p, key, h) {
        let c = choose|c: int| #[trigger]
            table::splits_at(p.index, key, c) && (if c == 0 {
                r == Ok::<Option<(u64, u64)>, TableError>(None)
            } else if p.index[c - 1].1 <= table::block_end(p, c - 1) {
                r == Ok::<Option<(u64, u64)>, TableError>(
                    Some((p.index[c - 1].1 as u64, table::block_end(p, c - 1) as u64)),
                )
            } else {
                r == Err::<Option<(u64, u64)>, TableError>(TableError::InvalidIndex)
            });
        if c == 0 {
            if es.len() > 0 {
                // The first block starts with the smallest key, which is not
                // after a key that is worth reading.
                lemma_index_is_starts(es);
                assert(p.index[0].0 == es[starts(es)[0]].0);
                assert(false);
            }
        } else {
            lemma_block_answers(es, bits_per_key, c - 1, key);
        }
    }
}

/// The words of a written filter are as many as its bits need.
proof fn lemma_filter_size(es: Seq<Entry>, bits_per_key: nat)
    requires
        64 * bloom::words_for(es.len(), bits_per_key) <= u64::MAX,
    ensures
        ({
            let p = layout::parts_of(es, bits_per_key);
            0 < p.num_bits && p.num_bits == 64 * p.words.len()
        }),
{
    let n = bloom::words_for(es.len(), bits_per_key);
    let p = layout::parts_of(es, bits_per_key);
    lemma_filter_len(es, Seq::new(n, |i: int| 0u64), p.num_bits, p.num_probes);
}

/// A key that is in a table passes the range check and the filter.
proof fn lemma_key_is_worth_reading(es: Seq<Entry>, bits_per_key: nat, i: int)
    requires
        writable(es, bits_per_key),
        entries::sorted(es),
        0 <= i < es.len(),
    ensures
        table::worth_reading(
            layout::parts_of(es, bits_per_key),
            es[i].0,
            hash::spec_hash64(es[i].0),
        ),
{
    let p = layout::parts_of(es, bits_per_key);
    let n = bloom::words_for(es.len(), bits_per_key);
    lemma_parts_bounds(es, bits_per_key);
    order::lemma_lex_irreflexive(es[i].0);
    if 0 < i {
        assert(order::lex_lt(es[0].0, es[i].0));
        order::lemma_lex_asymmetric(es[0].0, es[i].0);
    }
    if i < es.len() - 1 {
        assert(order::lex_lt(es[i].0, es[es.len() - 1].0));
        order::lemma_lex_asymmetric(es[i].0, es[es.len() - 1].0);
    }
    lemma_filter_holds(es, Seq::new(n, |k: int| 0u64), p.num_bits, p.num_probes, i);
    lemma_filter_answers(es, bits_per_key, hash::spec_hash64(es[i].0));
}

/// A written filter can be asked for every hash.
proof fn lemma_filter_answers(es: Seq<Entry>, bits_per_key: nat, h: u64)
    requires
        64 * bloom::words_for(es.len(), bits_per_key) <= u64::MAX,
    ensures
        ({
            let p = layout::parts_of(es, bits_per_key);
            table::may_contain(p, h) == Some(
                bloom::probe_set(h, p.num_bits, p.num_probes).subset_of(bloom::word_ones(p.words)),
            )
        }),
{
    let p = layout::parts_of(es, bits_per_key);
    lemma_filter_size(es, bits_per_key);
    assert forall|j: int| 0 <= j < p.num_probes implies #[trigger] bloom::reaches(
        p.words,
        h,
        p.num_bits,
        j,
    ) by {
        bloom::lemma_reaches(p.words, h, p.num_bits, j);
    }
    bloom::lemma_probed(p.words, h, p.num_bits, p.num_probes, 0);
}

/// A key at or after the first key of a block and before the block behind it
/// can only be in that block.
proof fn lemma_find_in_block(es: Seq<Entry>, from: int, to: int, key: Seq<u8>)
    requires
        entries::sorted(es),
        0 <= from < to <= es.len(),
        order::lex_le(es[from].0, key),
        to < es.len() ==> order::lex_lt(key, es[to].0),
    ensures
        entries::find(es, key) == entries::find(es.subrange(from, to), key),
{
    let block = es.subrange(from, to);
    entries::lemma_find_witness(es, key);
    entries::lemma_find_witness(block, key);
    entries::lemma_sorted_subrange(es, from, to);
    order::lemma_lex_irreflexive(key);
    if entries::find(es, key) is Some {
        let v = entries::find(es, key)->0;
        let i = choose|i: int| 0 <= i < es.len() && #[trigger] es[i] == (key, v);
        if i < from {
            assert(order::lex_lt(es[i].0, es[from].0));
            if es[from].0 != key {
                order::lemma_lex_asymmetric(key, es[from].0);
            }
            assert(false);
        }
        if i >= to {
            if i > to {
                assert(order::lex_lt(es[to].0, es[i].0));
                order::lemma_lex_asymmetric(key, es[to].0);
            }
            assert(false);
        }
        assert(block[i - from] == es[i]);
        entries::lemma_find_sorted(block, i - from);
    } else if entries::find(block, key) is Some {
        let v = entries::find(block, key)->0;
        let i = choose|i: int| 0 <= i < block.len() && #[trigger] block[i] == (key, v);
        assert(es[from + i].0 == key);
    }
}

/// The blocks that the index of a file names.
pub open spec fn blocks_of(p: TableParts, file: Seq<u8>) -> Seq<Seq<u8>> {
    Seq::new(
        p.index.len(),
        |j: int| file.subrange(p.index[j].1 as int, table::block_end(p, j) as int),
    )
}

/// Reading all blocks of a table gives back all of its entries, in order.
pub proof fn written_table_streams(es: Seq<Entry>, bits_per_key: nat)
    requires
        entries::all_fit(es),
    ensures
        records::stream(
            blocks_of(
                layout::parts_of(es, bits_per_key),
                layout::table_bytes(es, bits_per_key),
            ),
        ) == Ok::<Seq<Entry>, TableError>(es),
{
    let blocks = blocks_of(
        layout::parts_of(es, bits_per_key),
        layout::table_bytes(es, bits_per_key),
    );
    lemma_index_is_starts(es);
    lemma_stream_prefix(es, bits_per_key, blocks.len() as int);
    assert(blocks.take(blocks.len() as int) =~= blocks);
    assert(es.take(es.len() as int) =~= es);
}

/// The blocks before block `j` hold the entries before it.
pub proof fn lemma_stream_prefix(es: Seq<Entry>, bits_per_key: nat, j: int)
    requires
        entries::all_fit(es),
        0 <= j <= layout::index_entries(es).len(),
    ensures
        ({
            let blocks = blocks_of(
                layout::parts_of(es, bits_per_key),
                layout::table_bytes(es, bits_per_key),
            );
            let n = if j < starts(es).len() {
                starts(es)[j]
            } else {
                es.len() as int
            };
            records::stream(blocks.take(j)) == Ok::<Seq<Entry>, TableError>(es.take(n))
        }),
    decreases j,
{
    let p = layout::parts_of(es, bits_per_key);
    let file = layout::table_bytes(es, bits_per_key);
    let blocks = blocks_of(p, file);
    lemma_index_is_starts(es);
    if j == 0 {
        assert(es.take(0) =~= Seq::<Entry>::empty());
    } else {
        let i = j - 1;
        lemma_stream_prefix(es, bits_per_key, i);
        lemma_block_bytes(es, bits_per_key, i);
        lemma_file_starts_with_records(
            es,
            bits_per_key,
            p.index[i].1 as int,
            table::block_end(p, i) as int,
        );
        let from = starts(es)[i];
        let to = block_stop(es, i);
        let part = es.subrange(from, to);
        assert forall|k: int| 0 <= k < part.len() implies entries::entry_fits(#[trigger] part[k]) by {
            assert(entries::entry_fits(es[from + k]));
        }
        lemma_entries_roundtrip(Seq::empty(), part);
        assert(Seq::<u8>::empty() + layout::records_bytes(part) =~= layout::records_bytes(part));
        assert(blocks.take(j).drop_last() =~= blocks.take(i));
        assert(es.take(from) + part =~= es.take(to));
    }
}

/// The filter of a table has exactly the bits set that belong to its keys.
pub proof fn a_filter_has_the_bits_of_its_keys(es: Seq<Entry>, bits_per_key: nat, p: int)
    requires
        64 * bloom::words_for(es.len(), bits_per_key) <= u64::MAX,
    ensures
        ({
            let t = layout::parts_of(es, bits_per_key);
            bloom::word_ones(t.words).contains(p) <==> exists|i: int|
                0 <= i < es.len() && bloom::probe_set(
                    hash::spec_hash64((#[trigger] es[i]).0),
                    t.num_bits,
                    t.num_probes,
                ).contains(p)
        }),
{
    let n = bloom::words_for(es.len(), bits_per_key);
    let t = layout::parts_of(es, bits_per_key);
    let empty = Seq::new(n, |i: int| 0u64);
    lemma_filter_bits(es, empty, t.num_bits, t.num_probes, p);
    let b = (p % 64) as u64;
    assert((0u64 >> b) & 1 == 0) by (bit_vector);
    assert(!bloom::word_ones(empty).contains(p));
}

proof fn lemma_filter_bits(es: Seq<Entry>, empty: Seq<u64>, num_bits: u64, num_probes: u32, p: int)
    requires
        0 < num_bits <= 64 * empty.len(),
    ensures
        bloom::word_ones(layout::filter_words(es, empty, num_bits, num_probes)).contains(p) <==> (
        bloom::word_ones(empty).contains(p) || exists|i: int|
            0 <= i < es.len() && bloom::probe_set(
                hash::spec_hash64((#[trigger] es[i]).0),
                num_bits,
                num_probes,
            ).contains(p)),
    decreases es.len(),
{
    if es.len() > 0 {
        let rest = es.drop_last();
        let before = layout::filter_words(rest, empty, num_bits, num_probes);
        let h = hash::spec_hash64(es.last().0);
        lemma_filter_bits(rest, empty, num_bits, num_probes, p);
        lemma_filter_len(rest, empty, num_bits, num_probes);
        bloom::lemma_with_probes(before, h, num_bits, num_probes as nat);
        let in_rest = exists|i: int|
            0 <= i < rest.len() && bloom::probe_set(
                hash::spec_hash64((#[trigger] rest[i]).0),
                num_bits,
                num_probes,
            ).contains(p);
        let in_all = exists|i: int|
            0 <= i < es.len() && bloom::probe_set(
                hash::spec_hash64((#[trigger] es[i]).0),
                num_bits,
                num_probes,
            ).contains(p);
        if in_rest {
            let i = choose|i: int|
                0 <= i < rest.len() && bloom::probe_set(
                    hash::spec_hash64((#[trigger] rest[i]).0),
                    num_bits,
                    num_probes,
                ).contains(p);
            assert(es[i] == rest[i]);
        }
        if in_all {
            let i = choose|i: int|
                0 <= i < es.len() && bloom::probe_set(
                    hash::spec_hash64((#[trigger] es[i]).0),
                    num_bits,
                    num_probes,
                ).contains(p);
            if i < rest.len() {
                assert(rest[i] == es[i]);
            }
        }
        assert(es[es.len() - 1] == es.last());
    }
}

} // verus!
