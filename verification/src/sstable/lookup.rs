//! Looking a key up in a set of tables, newest first.
use crate::entries;
use crate::entries::Entry;
use crate::hash;
use crate::sstable::layout;
use crate::sstable::layout::TableError;
use crate::sstable::merge;
use crate::sstable::stored;
use crate::sstable::table;
use crate::sstable::table::{Found, SSTable};
use std::sync::Arc;
use vstd::prelude::*;

verus! {

/// The tables behind a list of pointers.
pub open spec fn pointees<F>(ts: Seq<Arc<SSTable<F>>>) -> Seq<SSTable<F>> {
    Seq::new(ts.len(), |i: int| *ts[i])
}

/// A lookup in progress. It says which block it needs, and is given it. It works
/// on the tables that the set had when it began, whatever happens to the set.
pub struct Lookup<F> {
    tables: Arc<Vec<Arc<SSTable<F>>>>,
    key: Vec<u8>,
    hash: u64,
    /// The tables before this one have not been asked, or not answered yet.
    left: usize,
    /// The block that the newest of those has asked for.
    asked: Option<(u64, u64)>,
}

/// What a lookup needs to go on, or what it found.
pub enum LookupStep<F> {
    /// The bytes of the table's file from `start` to `end`.
    Read { table: Arc<SSTable<F>>, start: u64, end: u64 },
    /// The value, if the key has one.
    Done(Option<Vec<u8>>),
}

impl<F> Lookup<F> {
    pub closed spec fn spec_tables(&self) -> Seq<SSTable<F>> {
        pointees(self.tables@)
    }

    pub closed spec fn spec_key(&self) -> Seq<u8> {
        self.key@
    }

    /// How many tables are left, counting the one that is being read.
    pub closed spec fn spec_left(&self) -> int {
        self.left as int
    }

    pub closed spec fn spec_asked(&self) -> Option<(u64, u64)> {
        self.asked
    }

    pub closed spec fn well_formed(&self) -> bool {
        &&& self.left <= self.tables@.len()
        &&& self.hash == hash::spec_hash64(self.key@)
        &&& self.asked is Some ==> self.left > 0 && self.locates(self.left - 1, Ok(self.asked))
    }

    /// What the wanted block of a file holds.
    pub open spec fn wanted(&self, file: Seq<u8>) -> Seq<u8> {
        match self.spec_asked() {
            Some((start, end)) => file.subrange(start as int, end as int),
            None => Seq::empty(),
        }
    }

    /// A block of the newest table that is left is wanted.
    pub open spec fn reading(&self) -> bool {
        self.spec_asked() is Some
    }

    /// Table `i` cannot hold the key, or says where it would be.
    pub open spec fn locates(&self, i: int, r: Result<Option<(u64, u64)>, TableError>) -> bool {
        table::locates(
            self.spec_tables()[i].meta.parts(),
            self.spec_key(),
            hash::spec_hash64(self.spec_key()),
            r,
        )
    }

    /// None of the tables `from` to `to` can hold the key.
    pub open spec fn ruled_out(&self, from: int, to: int) -> bool {
        forall|i: int| from <= i < to ==> #[trigger] self.locates(i, Ok(None))
    }

    /// The same lookup, however far it has come.
    pub open spec fn same_search(&self, other: &Self) -> bool {
        &&& self.spec_tables() == other.spec_tables()
        &&& self.spec_key() == other.spec_key()
    }

    /// What asking the tables before `n`, newest first, leads to.
    pub open spec fn continues(
        &self,
        n: int,
        r: Result<LookupStep<F>, TableError>,
        after: &Self,
    ) -> bool {
        match r {
            Ok(LookupStep::Read { table, start, end }) => {
                &&& 0 < after.spec_left() <= n
                &&& after.spec_asked() == Some((start, end))
                &&& *table == self.spec_tables()[after.spec_left() - 1]
                &&& self.ruled_out(after.spec_left(), n)
                &&& self.locates(after.spec_left() - 1, Ok(Some((start, end))))
            },
            Ok(LookupStep::Done(v)) => v is None && self.ruled_out(0, n),
            Err(e) => exists|i: int|
                0 <= i < n && self.ruled_out(i + 1, n) && #[trigger] self.locates(i, Err(e)),
        }
    }

    /// The files are intact, and the tables that are left know as much of the
    /// key as all of them.
    pub open spec fn tracks(&self, files: Seq<Seq<u8>>, layers: Seq<Seq<Entry>>) -> bool {
        &&& stored::hold_all(self.spec_tables(), files, layers)
        &&& entries::find(entries::flatten(layers), self.spec_key()) == entries::find(
            entries::flatten(layers.take(self.spec_left())),
            self.spec_key(),
        )
    }

    /// The step is right for intact files: a result is the key's value, and a
    /// block that is wanted is in the file.
    pub open spec fn right(
        &self,
        r: Result<LookupStep<F>, TableError>,
        files: Seq<Seq<u8>>,
        layers: Seq<Seq<Entry>>,
    ) -> bool {
        match r {
            Ok(LookupStep::Read { table, start, end }) => {
                &&& self.tracks(files, layers)
                &&& start <= end <= files[self.spec_left() - 1].len()
            },
            Ok(LookupStep::Done(v)) => entries::option_view(v) == entries::visible(
                entries::find(entries::flatten(layers), self.spec_key()),
            ),
            Err(_) => false,
        }
    }

    /// A lookup of `key` in `tables`, oldest first.
    pub fn new(tables: Arc<Vec<Arc<SSTable<F>>>>, key: &[u8]) -> (r: Self)
        ensures
            r.well_formed(),
            !r.reading(),
            r.spec_tables() == pointees(tables@),
            r.spec_key() == key@,
            r.spec_left() == tables@.len(),
            forall|files: Seq<Seq<u8>>, layers: Seq<Seq<Entry>>|
                stored::hold_all(r.spec_tables(), files, layers) ==> #[trigger] r.tracks(files, layers),
    {
        let hash: u64 = hash::hash64(key);
        let left: usize = tables.len();
        let r = Lookup { tables, key: vstd::slice::slice_to_vec(key), hash, left, asked: None };
        proof {
            assert forall|files: Seq<Seq<u8>>, layers: Seq<Seq<Entry>>|
                stored::hold_all(r.spec_tables(), files, layers) implies #[trigger] r.tracks(
                files,
                layers,
            ) by {
                assert(layers.take(left as int) =~= layers);
            }
        }
        r
    }

    /// Asks the tables that are left until one has to be read.
    pub fn advance(&mut self) -> (r: Result<LookupStep<F>, TableError>)
        requires
            old(self).well_formed(),
            !old(self).reading(),
        ensures
            final(self).well_formed(),
            final(self).same_search(old(self)),
            0 <= final(self).spec_left() <= old(self).spec_left(),
            r is Ok && r->Ok_0 is Read <==> final(self).reading(),
            old(self).continues(old(self).spec_left(), r, final(self)),
            forall|files: Seq<Seq<u8>>, layers: Seq<Seq<Entry>>| #[trigger]
                old(self).tracks(files, layers) ==> final(self).right(r, files, layers),
    {
        let ghost before = *self;
        while self.left > 0
            invariant
                self.well_formed(),
                !self.reading(),
                before == *old(self),
                self.same_search(&before),
                self.tables == before.tables,
                0 <= self.left <= before.left,
                before.ruled_out(self.left as int, before.left as int),
                forall|files: Seq<Seq<u8>>, layers: Seq<Seq<Entry>>| #[trigger]
                    before.tracks(files, layers) ==> self.tracks(files, layers),
            decreases self.left,
        {
            let i: usize = self.left - 1;
            let tables: &Vec<Arc<SSTable<F>>> = &self.tables;
            let found = tables[i].meta.block_for(self.key.as_slice(), self.hash);
            assert(before.locates(i as int, found));
            let ghost here = *self;
            proof {
                assert forall|files: Seq<Seq<u8>>, layers: Seq<Seq<Entry>>| #[trigger]
                    before.tracks(files, layers) implies match found {
                    Ok(None) => entries::find(entries::flatten(layers), before.key@)
                        == entries::find(entries::flatten(layers.take(i as int)), before.key@),
                    Ok(Some((start, end))) => start <= end <= files[i as int].len(),
                    Err(_) => false,
                } by {
                    assert(self.tracks(files, layers));
                    stored::intact_table_answers(
                        before.spec_tables()[i as int].meta.parts(),
                        files[i as int],
                        layers[i as int],
                        before.key@,
                        found,
                    );
                    let some = layers.take(i + 1);
                    entries::lemma_find_flatten_last(some, before.key@);
                    assert(some.drop_last() =~= layers.take(i as int));
                }
            }
            match found {
                Err(e) => {
                    return Err(e);
                },
                Ok(Some((start, end))) => {
                    let table = merge::share(&tables[i]);
                    self.asked = Some((start, end));
                    proof {
                        assert forall|files: Seq<Seq<u8>>, layers: Seq<Seq<Entry>>| #[trigger]
                            before.tracks(files, layers) implies self.tracks(files, layers) by {
                            assert(here.tracks(files, layers));
                        }
                    }
                    return Ok(LookupStep::Read { table, start, end });
                },
                Ok(None) => {
                    self.left = i;
                },
            }
        }
        proof {
            assert forall|files: Seq<Seq<u8>>, layers: Seq<Seq<Entry>>| #[trigger]
                before.tracks(files, layers) implies entries::find(
                entries::flatten(layers),
                before.key@,
            ) is None by {
                assert(self.tracks(files, layers));
                assert(layers.take(0) =~= Seq::<Seq<Entry>>::empty());
            }
        }
        Ok(LookupStep::Done(None))
    }

    /// Goes on with the block that was asked for.
    pub fn resume(&mut self, block: &[u8]) -> (r: Result<LookupStep<F>, TableError>)
        requires
            old(self).well_formed(),
            old(self).reading(),
        ensures
            final(self).well_formed(),
            final(self).same_search(old(self)),
            0 <= final(self).spec_left() < old(self).spec_left(),
            r is Ok && r->Ok_0 is Read <==> final(self).reading(),
            match layout::scan_from(block@, 0, old(self).spec_key()) {
                Ok(Some(v)) => r matches Ok(LookupStep::Done(found)) && entries::option_view(found) == v,
                Ok(None) => old(self).continues(old(self).spec_left() - 1, r, final(self)),
                Err(e) => r == Err::<LookupStep<F>, TableError>(e),
            },
            forall|files: Seq<Seq<u8>>, layers: Seq<Seq<Entry>>| #[trigger]
                old(self).tracks(files, layers) && block@ == old(self).wanted(
                    files[old(self).spec_left() - 1],
                ) ==> final(self).right(r, files, layers),
    {
        let ghost before = *self;
        let ghost i = self.left - 1;
        let ghost scanned = layout::scan_from(block@, 0, self.key@);
        let found = table::search_block(block, self.key.as_slice());
        self.asked = None;
        self.left = self.left - 1;
        proof {
            assert forall|files: Seq<Seq<u8>>, layers: Seq<Seq<Entry>>| #[trigger]
                before.tracks(files, layers) && block@ == before.wanted(files[i]) implies match scanned {
                Ok(Some(v)) => entries::find(entries::flatten(layers), before.key@) == Some(v),
                Ok(None) => self.tracks(files, layers),
                Err(_) => false,
            } by {
                stored::intact_table_answers(
                    before.spec_tables()[i].meta.parts(),
                    files[i],
                    layers[i],
                    before.key@,
                    Ok(before.asked),
                );
                let some = layers.take(i + 1);
                entries::lemma_find_flatten_last(some, before.key@);
                assert(some.drop_last() =~= layers.take(i));
                assert(some.last() == layers[i]);
            }
        }
        match found {
            Err(e) => Err(e),
            Ok(Some(Found::Value(value))) => Ok(LookupStep::Done(Some(value))),
            Ok(Some(Found::Tombstone)) => Ok(LookupStep::Done(None)),
            Ok(None) => {
                let ghost middle = *self;
                let r = self.advance();
                proof {
                    assert forall|k: int, a: Result<Option<(u64, u64)>, TableError>|
                        #[trigger] before.locates(k, a) == middle.locates(k, a) by {}
                    match r {
                        Err(e) => {
                            let k = choose|k: int|
                                0 <= k < middle.spec_left() && middle.ruled_out(
                                    k + 1,
                                    middle.spec_left(),
                                ) && #[trigger] middle.locates(k, Err(e));
                            assert(before.locates(k, Err(e)));
                        },
                        _ => {},
                    }
                }
                r
            },
        }
    }
}

/// A lookup of intact tables ends with the value that the newest entry for its key
/// has, and with nothing where that is a deletion or there is none; it never
/// fails, and asks only for blocks that are there.
pub proof fn a_finished_lookup_is_right<F>(
    l: Lookup<F>,
    r: Result<LookupStep<F>, TableError>,
    files: Seq<Seq<u8>>,
    layers: Seq<Seq<Entry>>,
)
    requires
        l.right(r, files, layers),
    ensures
        r is Ok,
        match r->Ok_0 {
            LookupStep::Done(v) => match entries::find(entries::flatten(layers), l.spec_key()) {
                Some(Some(bytes)) => v matches Some(found) && found@ == bytes,
                _ => v is None,
            },
            LookupStep::Read { table, start, end } => start <= end <= files[l.spec_left()
                - 1].len(),
        },
{
}

/// Tables are asked from the newest to the oldest, each one only where all newer
/// ones cannot hold the key.
pub proof fn tables_are_asked_newest_first<F>(
    before: Lookup<F>,
    n: int,
    r: Result<LookupStep<F>, TableError>,
    after: Lookup<F>,
    i: int,
)
    requires
        before.continues(n, r, &after),
        0 <= i < n,
        r is Ok,
        r->Ok_0 is Read ==> after.spec_left() <= i,
    ensures
        table::locates(
            before.spec_tables()[i].meta.parts(),
            before.spec_key(),
            hash::spec_hash64(before.spec_key()),
            Ok(None),
        ),
{
    assert(before.locates(i, Ok(None)));
}

/// What is shown of a list of tables is each table as it is.
pub proof fn tables_are_shown_one_by_one<F>(ts: Seq<Arc<SSTable<F>>>, i: int)
    requires
        0 <= i < ts.len(),
    ensures
        pointees(ts).len() == ts.len(),
        pointees(ts)[i] == *ts[i],
{
}

} // verus!
