//! What a data directory holds when the store is opened: which tables to load,
//! in which order, and which files a crash left behind.
use crate::order;
use crate::order::KeyOrder;
use crate::sstable::names;
use crate::sstable::names::FileKind;
use crate::sstable::tableset;
use vstd::prelude::*;

verus! {

/// A table file and the flushes it covers.
pub struct TableFile {
    pub name: Vec<u8>,
    pub first_seq: u64,
    pub last_seq: u64,
}

/// A table file, as contracts speak of it.
pub struct FileView {
    pub name: Seq<u8>,
    pub first: u64,
    pub last: u64,
}

impl View for TableFile {
    type V = FileView;

    open spec fn view(&self) -> FileView {
        FileView { name: self.name@, first: self.first_seq, last: self.last_seq }
    }
}

pub open spec fn files_view(fs: Seq<TableFile>) -> Seq<FileView> {
    Seq::new(fs.len(), |i: int| fs[i]@)
}

/// The order of tables, oldest first: by the first flush, the last flush and
/// then the name.
pub open spec fn file_before(a: FileView, b: FileView) -> bool {
    ||| a.first < b.first
    ||| a.first == b.first && a.last < b.last
    ||| a.first == b.first && a.last == b.last && order::lex_lt(a.name, b.name)
}

pub open spec fn files_sorted(fs: Seq<FileView>) -> bool {
    forall|i: int, j: int| 0 <= i < j < fs.len() ==> !file_before(#[trigger] fs[j], #[trigger] fs[i])
}

/// The flushes of `inner` are all among those of `outer`.
pub open spec fn covers(outer: FileView, inner: FileView) -> bool {
    outer.first <= inner.first && inner.last <= outer.last
}

/// Another table covers table `i`. It is an input of a compaction whose output
/// was published, and which ended before it could delete its inputs.
pub open spec fn superseded(fs: Seq<FileView>, i: int) -> bool {
    exists|j: int| 0 <= j < fs.len() && j != i && #[trigger] covers(fs[j], fs[i])
}

/// The number of the next flush.
pub open spec fn next_number(fs: Seq<FileView>) -> nat
    decreases fs.len(),
{
    if fs.len() == 0 {
        0
    } else {
        let before = next_number(fs.drop_last());
        if fs.last().last + 1 > before {
            (fs.last().last + 1) as nat
        } else {
            before
        }
    }
}

pub proof fn lemma_next_number(fs: Seq<FileView>)
    ensures
        forall|i: int| 0 <= i < fs.len() ==> (#[trigger] fs[i]).last < next_number(fs),
        next_number(fs) <= u64::MAX + 1,
        next_number(fs) > 0 ==> exists|i: int|
            0 <= i < fs.len() && (#[trigger] fs[i]).last + 1 == next_number(fs),
        next_number(fs) == 0 ==> fs.len() == 0,
    decreases fs.len(),
{
    if fs.len() > 0 {
        let before = fs.drop_last();
        lemma_next_number(before);
        assert(fs.last() == fs[fs.len() - 1]);
        assert forall|i: int| 0 <= i < fs.len() implies (#[trigger] fs[i]).last < next_number(fs) by {
            if i < fs.len() - 1 {
                assert(before[i] == fs[i]);
            }
        }
        if fs.last().last + 1 <= next_number(before) {
            let i = choose|i: int|
                0 <= i < before.len() && (#[trigger] before[i]).last + 1 == next_number(before);
            assert(fs[i] == before[i]);
        }
    }
}

/// What to do with a file that was found.
#[derive(PartialEq, Eq, Structural, Clone, Copy, Debug)]
pub enum Noted {
    /// It is a table; it has been noted.
    Table,
    /// It was never finished, and has to be deleted.
    Delete,
    /// It is none of the store's tables.
    Ignore,
    /// It claims to be a table, and its name does not follow the scheme.
    Reject,
}

/// The tables that have been found in a data directory, in their order.
pub struct Directory {
    files: Vec<TableFile>,
}

/// One thing to do on the way to an open store.
pub enum RecoveryStep {
    /// Open this table. It comes after those opened before.
    Load(TableFile),
    /// Delete this file.
    Delete(TableFile),
}

pub open spec fn step_view(s: RecoveryStep) -> (FileView, bool) {
    match s {
        RecoveryStep::Load(f) => (f@, true),
        RecoveryStep::Delete(f) => (f@, false),
    }
}

pub open spec fn steps_view(s: Seq<RecoveryStep>) -> Seq<(FileView, bool)> {
    Seq::new(s.len(), |i: int| step_view(s[i]))
}

/// The steps that open a directory.
pub open spec fn steps_for(fs: Seq<FileView>) -> Seq<(FileView, bool)> {
    Seq::new(fs.len(), |i: int| (fs[i], !superseded(fs, i)))
}

fn compare_files(a: &TableFile, b: &TableFile) -> (before: bool)
    ensures
        before == file_before(a@, b@),
{
    if a.first_seq != b.first_seq {
        a.first_seq < b.first_seq
    } else if a.last_seq != b.last_seq {
        a.last_seq < b.last_seq
    } else {
        order::compare(a.name.as_slice(), b.name.as_slice()) == KeyOrder::Less
    }
}

pub proof fn lemma_file_order(a: FileView, b: FileView, c: FileView)
    ensures
        file_before(a, b) ==> !file_before(b, a),
        !file_before(b, a) && !file_before(c, b) ==> !file_before(c, a),
{
    if file_before(a, b) && file_before(b, a) {
        order::lemma_lex_asymmetric(a.name, b.name);
    }
    if !file_before(b, a) && !file_before(c, b) && file_before(c, a) {
        order::lemma_lex_total(a.name, b.name);
        order::lemma_lex_total(b.name, c.name);
        if order::lex_lt(a.name, b.name) && order::lex_lt(b.name, c.name) {
            order::lemma_lex_transitive(a.name, b.name, c.name);
        }
        order::lemma_lex_asymmetric(a.name, c.name);
        order::lemma_lex_irreflexive(a.name);
    }
}

impl Directory {
    /// The tables found so far.
    pub closed spec fn found(&self) -> Seq<FileView> {
        files_view(self.files@)
    }

    /// Nothing has been found yet.
    pub fn new() -> (r: Self)
        ensures
            r.found() == Seq::<FileView>::empty(),
            files_sorted(r.found()),
    {
        let r = Directory { files: Vec::new() };
        assert(r.found() =~= Seq::<FileView>::empty());
        r
    }

    /// Takes in a file that was found, and says what to do with it.
    pub fn note(&mut self, name: Vec<u8>) -> (r: Noted)
        requires
            files_sorted(old(self).found()),
        ensures
            files_sorted(final(self).found()),
            match names::kind_of(name@) {
                FileKind::Table(first, last) => {
                    &&& r == Noted::Table
                    &&& final(self).found().to_multiset() == old(self).found().to_multiset().insert(
                        (FileView { name: name@, first, last }),
                    )
                },
                FileKind::Unrecognised => r == Noted::Reject && *final(self) == *old(self),
                FileKind::Unfinished => r == Noted::Delete && *final(self) == *old(self),
                FileKind::Other => r == Noted::Ignore && *final(self) == *old(self),
            },
    {
        match names::classify(name.as_slice()) {
            FileKind::Table(first, last) => {
                let file = TableFile { name, first_seq: first, last_seq: last };
                let ghost v = file@;
                let ghost fs = self.found();
                let mut at: usize = self.files.len();
                while at > 0 && compare_files(&file, &self.files[at - 1])
                    invariant
                        at <= self.files@.len(),
                        *self == *old(self),
                        file@ == v,
                        fs == old(self).found(),
                        files_sorted(fs),
                        forall|i: int| at <= i < fs.len() ==> file_before(v, #[trigger] fs[i]),
                    decreases at,
                {
                    at = at - 1;
                }
                self.files.insert(at, file);
                proof {
                    assert(self.found() =~= fs.insert(at as int, v));
                    vstd::seq_lib::to_multiset_insert(fs, at as int, v);
                    let after = self.found();
                    assert forall|i: int, j: int| 0 <= i < j < after.len() implies !file_before(
                        #[trigger] after[j],
                        #[trigger] after[i],
                    ) by {
                        let a = if i < at { i } else { i - 1 };
                        let b = if j < at { j } else { j - 1 };
                        if i == at {
                            lemma_file_order(v, fs[b], v);
                        } else if j == at {
                            if i < at - 1 {
                                lemma_file_order(fs[i], fs[at - 1], v);
                            }
                        } else {
                            assert(after[i] == fs[a] && after[j] == fs[b]);
                        }
                    }
                }
                Noted::Table
            },
            FileKind::Unrecognised => Noted::Reject,
            FileKind::Unfinished => Noted::Delete,
            FileKind::Other => Noted::Ignore,
        }
    }

    /// The number of the next flush: one more than the highest number that any
    /// table covers. None is left once a table covers the last number there is.
    pub fn next_seq(&self) -> (r: Option<u64>)
        ensures
            r == (if next_number(self.found()) <= u64::MAX {
                Some(next_number(self.found()) as u64)
            } else {
                None
            }),
    {
        let ghost fs = self.found();
        let mut next: u64 = 0;
        let mut i: usize = 0;
        while i < self.files.len()
            invariant
                i <= self.files@.len(),
                fs == self.found(),
                next == next_number(fs.take(i as int)),
            decreases self.files@.len() - i,
        {
            proof {
                assert(fs.take(i + 1).drop_last() =~= fs.take(i as int));
            }
            let last: u64 = self.files[i].last_seq;
            if last == u64::MAX {
                proof {
                    lemma_next_number(fs);
                    assert(fs[i as int].last == u64::MAX);
                }
                return None;
            }
            if last + 1 > next {
                next = last + 1;
            }
            i = i + 1;
        }
        assert(fs.take(i as int) =~= fs);
        Some(next)
    }

    fn is_superseded(&self, i: usize) -> (r: bool)
        requires
            i < self.files@.len(),
        ensures
            r == superseded(self.found(), i as int),
    {
        let ghost fs = self.found();
        let mut j: usize = 0;
        while j < self.files.len()
            invariant
                j <= self.files@.len(),
                i < self.files@.len(),
                fs == self.found(),
                forall|k: int| 0 <= k < j && k != i ==> !#[trigger] covers(fs[k], fs[i as int]),
            decreases self.files@.len() - j,
        {
            if j != i && self.files[j].first_seq <= self.files[i].first_seq
                && self.files[i].last_seq <= self.files[j].last_seq {
                assert(covers(fs[j as int], fs[i as int]));
                return true;
            }
            j = j + 1;
        }
        false
    }

    /// What to do with each table, oldest first: a table that another one covers
    /// is deleted, and every other one is opened.
    pub fn plan(&self) -> (steps: Vec<RecoveryStep>)
        ensures
            steps_view(steps@) == steps_for(self.found()),
    {
        let ghost fs = self.found();
        let mut steps: Vec<RecoveryStep> = Vec::new();
        let mut i: usize = 0;
        while i < self.files.len()
            invariant
                i <= self.files@.len(),
                fs == self.found(),
                steps@.len() == i,
                forall|k: int|
                    0 <= k < i ==> step_view(#[trigger] steps@[k]) == (fs[k], !superseded(fs, k)),
            decreases self.files@.len() - i,
        {
            let file = TableFile {
                name: crate::sstable::writer::copy(&self.files[i].name),
                first_seq: self.files[i].first_seq,
                last_seq: self.files[i].last_seq,
            };
            assert(file@ == fs[i as int]);
            if self.is_superseded(i) {
                steps.push(RecoveryStep::Delete(file));
            } else {
                steps.push(RecoveryStep::Load(file));
            }
            i = i + 1;
        }
        assert(steps_view(steps@) =~= steps_for(fs));
        steps
    }
}

/// Each table comes after all flushes of the one before.
pub open spec fn disjoint(fs: Seq<FileView>) -> bool {
    &&& forall|i: int| 0 <= i < fs.len() ==> (#[trigger] fs[i]).first <= fs[i].last
    &&& forall|i: int, j: int|
        0 <= i < j < fs.len() ==> (#[trigger] fs[i]).last < (#[trigger] fs[j]).first
}

/// Tables that share no flush are all kept.
pub proof fn disjoint_tables_are_kept(fs: Seq<FileView>, i: int)
    requires
        disjoint(fs),
        0 <= i < fs.len(),
    ensures
        !superseded(fs, i),
{
    assert forall|j: int| 0 <= j < fs.len() && j != i implies !#[trigger] covers(fs[j], fs[i]) by {
        if j < i {
            assert(fs[j].last < fs[i].first);
        } else {
            assert(fs[i].last < fs[j].first);
        }
    }
}

/// A crash between the publication of a compaction's output and the deletion of
/// its inputs is undone on the next open: the inputs are the files that are
/// deleted, and the output and all other tables are kept.
pub proof fn compaction_leftovers_are_deleted(
    fs: Seq<FileView>,
    output: FileView,
    start: int,
    count: int,
    i: int,
)
    requires
        disjoint(fs),
        0 <= start,
        2 <= count,
        start + count <= fs.len(),
        output.first == fs[start].first,
        output.last == fs[start + count - 1].last,
        0 <= i <= fs.len(),
    ensures
        superseded(fs.push(output), i) <==> start <= i < start + count,
{
    let all = fs.push(output);
    let end = start + count - 1;
    assert(fs[start].last < fs[end].first);
    if i == fs.len() {
        assert forall|j: int| 0 <= j < all.len() && j != i implies !#[trigger] covers(all[j], all[i]) by {
            assert(all[j] == fs[j]);
            if start < j {
                assert(fs[start].last < fs[j].first);
            }
            if j < end {
                assert(fs[j].last < fs[end].first);
            }
        }
    } else {
        assert(all[i] == fs[i]);
        disjoint_tables_are_kept(fs, i);
        if start <= i <= end {
            if start < i {
                assert(fs[start].last < fs[i].first);
            }
            if i < end {
                assert(fs[i].last < fs[end].first);
            }
            assert(covers(all[fs.len() as int], all[i]));
        } else {
            assert forall|j: int| 0 <= j < all.len() && j != i implies !#[trigger] covers(
                all[j],
                all[i],
            ) by {
                if j < fs.len() {
                    assert(!covers(fs[j], fs[i]));
                } else if i < start {
                    assert(fs[i].last < fs[start].first);
                } else {
                    assert(fs[end].last < fs[i].first);
                }
            }
        }
    }
}

/// The tables that are opened, oldest first, among the first `n` of a directory.
pub open spec fn loaded(fs: Seq<FileView>, n: int) -> Seq<FileView>
    decreases n,
{
    if n <= 0 {
        Seq::empty()
    } else if superseded(fs, n - 1) {
        loaded(fs, n - 1)
    } else {
        loaded(fs, n - 1).push(fs[n - 1])
    }
}

/// In order, and nothing twice.
spec fn strictly_sorted(fs: Seq<FileView>) -> bool {
    forall|i: int, j: int| 0 <= i < j < fs.len() ==> file_before(#[trigger] fs[i], #[trigger] fs[j])
}

proof fn lemma_file_total(a: FileView, b: FileView)
    ensures
        file_before(a, b) || a == b || file_before(b, a),
        !file_before(a, a),
{
    order::lemma_lex_total(a.name, b.name);
    order::lemma_lex_irreflexive(a.name);
}

/// A sorted list of the same files is sorted strictly, if no file occurs twice.
proof fn lemma_found_is_strict(found: Seq<FileView>, all: Seq<FileView>)
    requires
        files_sorted(found),
        all.no_duplicates(),
        found.to_multiset() == all.to_multiset(),
    ensures
        strictly_sorted(found),
        found.no_duplicates(),
        forall|v: FileView| #[trigger] found.contains(v) <==> all.contains(v),
{
    all.lemma_multiset_has_no_duplicates();
    found.lemma_multiset_has_no_duplicates_conv();
    assert forall|v: FileView| #[trigger] found.contains(v) <==> all.contains(v) by {
        vstd::seq_lib::to_multiset_contains(found, v);
        vstd::seq_lib::to_multiset_contains(all, v);
    }
    assert forall|i: int, j: int| 0 <= i < j < found.len() implies file_before(
        #[trigger] found[i],
        #[trigger] found[j],
    ) by {
        lemma_file_total(found[i], found[j]);
    }
}

/// A strictly sorted list is known by its elements.
proof fn lemma_strict_unique(a: Seq<FileView>, b: Seq<FileView>)
    requires
        strictly_sorted(a),
        strictly_sorted(b),
        forall|v: FileView| #[trigger] a.contains(v) <==> b.contains(v),
    ensures
        a == b,
    decreases a.len(),
{
    if a.len() == 0 {
        if b.len() > 0 {
            assert(b.contains(b[0]));
            assert(a.contains(b[0]));
        }
        assert(a =~= b);
    } else {
        let x = a.last();
        assert(a.contains(x)) by {
            assert(a[a.len() - 1] == x);
        }
        assert(b.contains(x));
        let j = choose|j: int| 0 <= j < b.len() && b[j] == x;
        let y = b.last();
        assert(b.contains(y)) by {
            assert(b[b.len() - 1] == y);
        }
        assert(a.contains(y));
        let i = choose|i: int| 0 <= i < a.len() && a[i] == y;
        if j < b.len() - 1 {
            assert(file_before(b[j], b[b.len() - 1]));
            if i < a.len() - 1 {
                assert(file_before(a[i], a[a.len() - 1]));
                lemma_file_order(x, y, x);
            } else {
                lemma_file_total(x, x);
            }
        }
        assert(x == y);
        let a2 = a.drop_last();
        let b2 = b.drop_last();
        assert forall|v: FileView| #[trigger] a2.contains(v) <==> b2.contains(v) by {
            lemma_file_total(x, x);
            if a2.contains(v) {
                let k = choose|k: int| 0 <= k < a2.len() && a2[k] == v;
                assert(a[k] == v && file_before(a[k], a[a.len() - 1]));
                assert(a.contains(v));
                let m = choose|m: int| 0 <= m < b.len() && b[m] == v;
                assert(m < b.len() - 1);
                assert(b2[m] == v);
            }
            if b2.contains(v) {
                let k = choose|k: int| 0 <= k < b2.len() && b2[k] == v;
                assert(b[k] == v && file_before(b[k], b[b.len() - 1]));
                assert(b.contains(v) && a.contains(v));
                let m = choose|m: int| 0 <= m < a.len() && a[m] == v;
                assert(m < a.len() - 1);
                assert(a2[m] == v);
            }
        }
        lemma_strict_unique(a2, b2);
        assert(a =~= a2.push(x));
        assert(b =~= b2.push(y));
    }
}

/// The opened tables are those that no other table covers, in order.
proof fn lemma_loaded(fs: Seq<FileView>, n: int)
    requires
        strictly_sorted(fs),
        0 <= n <= fs.len(),
    ensures
        strictly_sorted(loaded(fs, n)),
        forall|v: FileView| #[trigger] loaded(fs, n).contains(v) <==> exists|i: int|
            0 <= i < n && #[trigger] fs[i] == v && !superseded(fs, i),
    decreases n,
{
    let out = loaded(fs, n);
    if n > 0 {
        lemma_loaded(fs, n - 1);
        let before = loaded(fs, n - 1);
        let last = fs[n - 1];
        assert forall|i: int, j: int| 0 <= i < j < out.len() implies file_before(
            #[trigger] out[i],
            #[trigger] out[j],
        ) by {
            if j < before.len() {
                assert(file_before(before[i], before[j]));
            } else {
                assert(before.contains(before[i]));
                let k = choose|k: int|
                    0 <= k < n - 1 && #[trigger] fs[k] == before[i] && !superseded(fs, k);
                assert(file_before(fs[k], fs[n - 1]));
            }
        }
        assert forall|v: FileView| #[trigger] out.contains(v) <==> exists|i: int|
            0 <= i < n && #[trigger] fs[i] == v && !superseded(fs, i) by {
            if out.contains(v) {
                let k = choose|k: int| 0 <= k < out.len() && out[k] == v;
                if k < before.len() {
                    assert(before[k] == v);
                    assert(before.contains(v));
                } else {
                    assert(fs[n - 1] == v);
                }
            }
            if exists|i: int| 0 <= i < n && #[trigger] fs[i] == v && !superseded(fs, i) {
                let k = choose|k: int| 0 <= k < n && #[trigger] fs[k] == v && !superseded(fs, k);
                if k < n - 1 {
                    assert(before.contains(v));
                    let m = choose|m: int| 0 <= m < before.len() && before[m] == v;
                    assert(out[m] == v);
                } else {
                    assert(out[out.len() - 1] == v);
                }
            }
        }
    }
}

/// Whether a table is covered depends on which files there are, not on their
/// order.
proof fn lemma_superseded_anywhere(a: Seq<FileView>, i: int, b: Seq<FileView>, j: int)
    requires
        b.no_duplicates(),
        forall|v: FileView| #[trigger] a.contains(v) ==> b.contains(v),
        a.no_duplicates(),
        0 <= i < a.len(),
        0 <= j < b.len(),
        a[i] == b[j],
    ensures
        superseded(a, i) ==> superseded(b, j),
{
    if superseded(a, i) {
        let k = choose|k: int| 0 <= k < a.len() && k != i && #[trigger] covers(a[k], a[i]);
        assert(a.contains(a[k]));
        let m = choose|m: int| 0 <= m < b.len() && b[m] == a[k];
        assert(a[k] != a[i]);
        assert(covers(b[m], b[j]));
    }
}

/// Opening a directory again loads every table of the store, in the same order.
pub proof fn tables_are_found_again(found: Seq<FileView>, fs: Seq<FileView>)
    requires
        disjoint(fs),
        files_sorted(found),
        found.to_multiset() == fs.to_multiset(),
    ensures
        found == fs,
        loaded(found, found.len() as int) == fs,
        forall|i: int| 0 <= i < fs.len() ==> (#[trigger] fs[i]).last < next_number(found),
{
    assert forall|i: int, j: int| 0 <= i < fs.len() && 0 <= j < fs.len() && i != j implies fs[i]
        != fs[j] by {
        if i < j {
            assert(fs[i].last < fs[j].first);
        } else {
            assert(fs[j].last < fs[i].first);
        }
    }
    lemma_found_is_strict(found, fs);
    assert forall|i: int, j: int| 0 <= i < j < fs.len() implies file_before(
        #[trigger] fs[i],
        #[trigger] fs[j],
    ) by {
        assert(fs[i].last < fs[j].first);
    }
    lemma_strict_unique(found, fs);
    lemma_all_loaded(fs, fs.len() as int);
    lemma_next_number(found);
}

proof fn lemma_all_loaded(fs: Seq<FileView>, n: int)
    requires
        disjoint(fs),
        0 <= n <= fs.len(),
    ensures
        loaded(fs, n) == fs.take(n),
    decreases n,
{
    if n > 0 {
        lemma_all_loaded(fs, n - 1);
        disjoint_tables_are_kept(fs, n - 1);
        assert(fs.take(n - 1).push(fs[n - 1]) =~= fs.take(n));
    } else {
        assert(fs.take(0) =~= Seq::<FileView>::empty());
    }
}

/// A crash between the publication of a compaction's output and the deletion of
/// its inputs: the next open loads the tables as if the compaction had ended,
/// the output in the place of its inputs.
pub proof fn an_interrupted_compaction_is_completed(
    found: Seq<FileView>,
    fs: Seq<FileView>,
    output: FileView,
    start: int,
    count: int,
)
    requires
        disjoint(fs),
        0 <= start,
        2 <= count,
        start + count <= fs.len(),
        output.first == fs[start].first,
        output.last == fs[start + count - 1].last,
        files_sorted(found),
        found.to_multiset() == fs.push(output).to_multiset(),
    ensures
        loaded(found, found.len() as int) == tableset::splice(fs, start, count, Some(output)),
{
    let all = fs.push(output);
    let end = start + count - 1;
    let goal = tableset::splice(fs, start, count, Some(output));
    assert(fs[start].last < fs[end].first);
    assert forall|i: int, j: int| 0 <= i < all.len() && 0 <= j < all.len() && i != j implies all[i]
        != all[j] by {
        let a = if i < j { i } else { j };
        let b = if i < j { j } else { i };
        if b < fs.len() {
            assert(fs[a].last < fs[b].first);
        } else if a < start {
            assert(fs[a].last < fs[start].first);
        } else if a > end {
            assert(fs[end].last < fs[a].first);
        } else {
            if a < end {
                assert(fs[a].last < fs[end].first);
            } else {
                assert(fs[start].last < fs[a].first);
            }
        }
    }
    lemma_found_is_strict(found, all);
    lemma_loaded(found, found.len() as int);
    let out = loaded(found, found.len() as int);
    assert forall|i: int, j: int| 0 <= i < j < goal.len() implies file_before(
        #[trigger] goal[i],
        #[trigger] goal[j],
    ) by {
        let a = if i <= start { i } else { i - 1 + count };
        let b = if j <= start { j } else { j - 1 + count };
        if i != start {
            assert(goal[i] == fs[a]);
        }
        if j != start {
            assert(goal[j] == fs[b]);
        }
        if i == start {
            assert(fs[end].last < fs[b].first);
        } else if j == start {
            assert(fs[a].last < fs[start].first);
        } else {
            assert(fs[a].last < fs[b].first);
        }
    }
    assert forall|v: FileView| #[trigger] out.contains(v) <==> goal.contains(v) by {
        if out.contains(v) {
            let i = choose|i: int| 0 <= i < found.len() && #[trigger] found[i] == v && !superseded(
                found,
                i,
            );
            assert(found.contains(v));
            let k = choose|k: int| 0 <= k < all.len() && all[k] == v;
            lemma_superseded_anywhere(all, k, found, i);
            compaction_leftovers_are_deleted(fs, output, start, count, k);
            if k == fs.len() {
                assert(goal[start] == v);
            } else if k < start {
                assert(goal[k] == v);
            } else {
                assert(goal[k + 1 - count] == v);
            }
        }
        if goal.contains(v) {
            let g = choose|g: int| 0 <= g < goal.len() && goal[g] == v;
            let k = if g < start {
                g
            } else if g == start {
                fs.len() as int
            } else {
                g - 1 + count
            };
            assert(all[k] == v);
            assert(all.contains(v));
            assert(found.contains(v));
            let i = choose|i: int| 0 <= i < found.len() && found[i] == v;
            compaction_leftovers_are_deleted(fs, output, start, count, k);
            lemma_superseded_anywhere(found, i, all, k);
            assert(found[i] == v && !superseded(found, i));
        }
    }
    lemma_strict_unique(out, goal);
}

/// Tables are ordered by their first flush, then by their last, and then by name.
pub proof fn tables_are_ordered_by_their_flushes(a: FileView, b: FileView)
    ensures
        a.first < b.first ==> file_before(a, b) && !file_before(b, a),
        a.first == b.first && a.last < b.last ==> file_before(a, b) && !file_before(b, a),
        a.first == b.first && a.last == b.last ==> file_before(a, b) == order::lex_lt(
            a.name,
            b.name,
        ),
{
}

/// Every table that was found is dealt with once, in order: it is deleted exactly
/// where another one has all its flushes, and opened otherwise.
pub proof fn every_table_is_opened_or_deleted(fs: Seq<FileView>, i: int)
    requires
        0 <= i < fs.len(),
    ensures
        steps_for(fs).len() == fs.len(),
        steps_for(fs)[i].0 == fs[i],
        !steps_for(fs)[i].1 <==> exists|j: int|
            0 <= j < fs.len() && j != i && (#[trigger] fs[j]).first <= fs[i].first && fs[i].last
                <= fs[j].last,
{
    if superseded(fs, i) {
        let j = choose|j: int| 0 <= j < fs.len() && j != i && #[trigger] covers(fs[j], fs[i]);
        assert(fs[j].first <= fs[i].first && fs[i].last <= fs[j].last);
    }
    if exists|j: int|
        0 <= j < fs.len() && j != i && (#[trigger] fs[j]).first <= fs[i].first && fs[i].last
            <= fs[j].last {
        let j = choose|j: int|
            0 <= j < fs.len() && j != i && (#[trigger] fs[j]).first <= fs[i].first && fs[i].last
                <= fs[j].last;
        assert(covers(fs[j], fs[i]));
    }
}

/// What is shown of a step and of a file is what they hold.
pub proof fn steps_are_shown_whole(steps: Seq<RecoveryStep>, i: int)
    requires
        0 <= i < steps.len(),
    ensures
        steps_view(steps).len() == steps.len(),
        steps_view(steps)[i] == (match steps[i] {
            RecoveryStep::Load(f) => (
                FileView { name: f.name@, first: f.first_seq, last: f.last_seq },
                true,
            ),
            RecoveryStep::Delete(f) => (
                FileView { name: f.name@, first: f.first_seq, last: f.last_seq },
                false,
            ),
        }),
{
}

} // verus!
