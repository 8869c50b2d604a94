//! Reading a table from its first record to its last, one block at a time.
use crate::entries;
use crate::entries::{Entry, TableRecord};
use crate::sstable::layout;
use crate::sstable::layout::{TableError, OP_TOMBSTONE, OP_VALUE};
use crate::sstable::table;
use crate::sstable::table::SSTable;
use std::sync::Arc;
use vstd::prelude::*;

verus! {

/// All entries of some blocks, in order; the first fault ends them.
pub open spec fn stream(blocks: Seq<Seq<u8>>) -> Result<Seq<Entry>, TableError>
    decreases blocks.len(),
{
    if blocks.len() == 0 {
        Ok(Seq::empty())
    } else {
        match stream(blocks.drop_last()) {
            Err(e) => Err(e),
            Ok(es) => match layout::entries_from(blocks.last(), 0) {
                Err(e) => Err(e),
                Ok(more) => Ok(es + more),
            },
        }
    }
}

/// The entry of the record at `at`, and the position behind it.
pub open spec fn entry_at(s: Seq<u8>, at: int) -> Result<(Entry, int), TableError> {
    match layout::record_at(s, at) {
        None => Err(TableError::Truncated),
        Some((r, next)) => match layout::raw_value(r) {
            None => Err(TableError::InvalidOperation),
            Some(v) => Ok(((r.key, v), next)),
        },
    }
}

/// The entries of the records from `at` to `to`; nothing where no record ends at
/// `to`, or one of them is damaged.
pub open spec fn entries_between(s: Seq<u8>, at: int, to: int) -> Option<Seq<Entry>>
    decreases to - at,
{
    if at == to {
        Some(Seq::empty())
    } else {
        match entry_at(s, at) {
            Err(_) => None,
            Ok((e, next)) => if !(at < next <= to) {
                None
            } else {
                match entries_between(s, next, to) {
                    None => None,
                    Some(rest) => Some(seq![e] + rest),
                }
            },
        }
    }
}

/// Reading on from where some records end.
proof fn lemma_reading_on(s: Seq<u8>, at: int, to: int)
    requires
        0 <= at <= to <= s.len(),
        entries_between(s, at, to) is Some,
    ensures
        layout::entries_from(s, at) == (match layout::entries_from(s, to) {
            Ok(rest) => Ok(entries_between(s, at, to)->0 + rest),
            Err(e) => Err(e),
        }),
    decreases to - at,
{
    if at == to {
        if let Ok(rest) = layout::entries_from(s, to) {
            assert(entries_between(s, at, to)->0 + rest =~= rest);
        }
    } else if let Ok((e, next)) = entry_at(s, at) {
        lemma_reading_on(s, next, to);
        if let Ok(rest) = layout::entries_from(s, to) {
            let some = entries_between(s, next, to)->0;
            assert((seq![e] + some) + rest =~= seq![e] + (some + rest));
        }
    }
}

/// One record more.
proof fn lemma_one_more(s: Seq<u8>, at: int, to: int, e: Entry, next: int)
    requires
        0 <= at <= to < next <= s.len(),
        entries_between(s, at, to) is Some,
        entry_at(s, to) == Ok::<(Entry, int), TableError>((e, next)),
    ensures
        entries_between(s, at, next) == Some(entries_between(s, at, to)->0.push(e)),
    decreases to - at,
{
    if at == to {
        assert(entries_between(s, next, next) == Some(Seq::<Entry>::empty()));
        assert(seq![e] + Seq::<Entry>::empty() =~= Seq::<Entry>::empty().push(e));
    } else if let Ok((f, p)) = entry_at(s, at) {
        lemma_one_more(s, p, to, e, next);
        let some = entries_between(s, p, to)->0;
        assert(seq![f] + some.push(e) =~= (seq![f] + some).push(e));
    }
}

/// A position in a table. The blocks are handed in from outside, in order.
pub struct Records<F> {
    pub table: Arc<SSTable<F>>,
    /// How many blocks have been handed in.
    pub block: usize,
    /// The block that is being read.
    pub buf: Vec<u8>,
    /// How much of it has been read.
    pub cursor: usize,
    /// The blocks that have been handed in.
    pub fed: Ghost<Seq<Seq<u8>>>,
    /// The entries that have been given out.
    pub pulled: Ghost<Seq<Entry>>,
}

/// What comes next.
pub enum NextRecord {
    /// A record.
    Record(TableRecord),
    /// The bytes of the file from `start` to `end` are needed first.
    Read { start: u64, end: u64 },
    /// There are no more records.
    End,
}

impl<F> Records<F> {
    /// `buf` is the last block that was handed in, and the entries given out are
    /// those of the blocks before it and of its first `cursor` bytes.
    pub open spec fn well_formed(&self) -> bool {
        &&& self.cursor <= self.buf@.len()
        &&& self.block == self.fed@.len()
        &&& self.block <= self.table.meta.sparse_index@.len()
        &&& if self.fed@.len() == 0 {
            &&& self.buf@.len() == 0
            &&& self.pulled@ == Seq::<Entry>::empty()
        } else {
            &&& self.buf@ == self.fed@.last()
            &&& stream(self.fed@.drop_last()) is Ok
            &&& entries_between(self.buf@, 0, self.cursor as int) is Some
            &&& self.pulled@ == stream(self.fed@.drop_last())->Ok_0 + entries_between(
                self.buf@,
                0,
                self.cursor as int,
            )->0
        }
    }

    /// The entries given out and those still in the current block are what the
    /// blocks so far hold.
    pub proof fn lemma_stream(&self)
        requires
            self.well_formed(),
        ensures
            match layout::entries_from(self.buf@, self.cursor as int) {
                Ok(rest) => stream(self.fed@) == Ok::<Seq<Entry>, TableError>(self.pulled@ + rest),
                Err(e) => stream(self.fed@) == Err::<Seq<Entry>, TableError>(e),
            },
    {
        if self.fed@.len() == 0 {
            assert(self.pulled@ + Seq::<Entry>::empty() =~= Seq::<Entry>::empty());
        } else {
            lemma_reading_on(self.buf@, 0, self.cursor as int);
            if let Ok(rest) = layout::entries_from(self.buf@, self.cursor as int) {
                let before = stream(self.fed@.drop_last())->Ok_0;
                let some = entries_between(self.buf@, 0, self.cursor as int)->0;
                assert((before + some) + rest =~= before + (some + rest));
            }
        }
    }

    /// At the end, the entries given out are all that the blocks hold.
    pub proof fn lemma_all_read(&self)
        requires
            self.well_formed(),
            self.finished(),
        ensures
            stream(self.fed@) == Ok::<Seq<Entry>, TableError>(self.pulled@),
    {
        self.lemma_stream();
        assert(self.pulled@ + Seq::<Entry>::empty() =~= self.pulled@);
    }

    /// `e` is why there is no next record: the one that comes next is damaged, or
    /// the next block ends before it starts.
    pub open spec fn fails(&self, e: TableError) -> bool {
        if self.drained() {
            &&& e == TableError::InvalidIndex
            &&& self.fed@.len() < self.table.meta.sparse_index@.len()
            &&& block_range(*self.table, self.fed@.len() as int).0 > block_range(
                *self.table,
                self.fed@.len() as int,
            ).1
        } else {
            entry_at(self.buf@, self.cursor as int) == Err::<(Entry, int), TableError>(e)
        }
    }

    /// The current block has been read to its end.
    pub open spec fn drained(&self) -> bool {
        self.cursor == self.buf@.len()
    }

    /// Every block has been handed in and read to its end.
    pub open spec fn finished(&self) -> bool {
        &&& self.drained()
        &&& self.fed@.len() == self.table.meta.sparse_index@.len()
    }

    /// The start of `table`.
    pub fn new(table: Arc<SSTable<F>>) -> (r: Self)
        ensures
            r.well_formed(),
            r.drained(),
            r.table == table,
            r.fed@ == Seq::<Seq<u8>>::empty(),
            r.pulled@ == Seq::<Entry>::empty(),
    {
        Records {
            table,
            block: 0,
            buf: Vec::new(),
            cursor: 0,
            fed: Ghost(Seq::empty()),
            pulled: Ghost(Seq::empty()),
        }
    }

    /// Takes the next record, or says which bytes it needs first.
    pub fn next_record(&mut self) -> (r: Result<NextRecord, TableError>)
        requires
            old(self).well_formed(),
        ensures
            final(self).well_formed(),
            final(self).table == old(self).table,
            final(self).block == old(self).block,
            final(self).buf == old(self).buf,
            final(self).fed == old(self).fed,
            match r {
                Ok(NextRecord::Record(record)) => {
                    &&& !old(self).drained()
                    &&& entry_at(old(self).buf@, old(self).cursor as int) == Ok::<
                        (Entry, int),
                        TableError,
                    >((entries::entry_view(record), final(self).cursor as int))
                    &&& final(self).pulled@ == old(self).pulled@.push(entries::entry_view(record))
                    &&& final(self).cursor >= old(self).cursor + 9
                },
                Ok(NextRecord::Read { start, end }) => {
                    &&& *final(self) == *old(self)
                    &&& old(self).drained()
                    &&& old(self).fed@.len() < old(self).table.meta.sparse_index@.len()
                    &&& block_range(*old(self).table, old(self).fed@.len() as int) == (
                        start as int,
                        end as int,
                    )
                    &&& start <= end
                },
                Ok(NextRecord::End) => *final(self) == *old(self) && old(self).finished(),
                Err(e) => {
                    &&& *final(self) == *old(self)
                    &&& old(self).fails(e)
                    &&& faulty(*old(self).table, old(self).fed@, e)
                },
            },
    {
        proof {
            self.lemma_stream();
        }
        if self.cursor >= self.buf.len() {
            let index: &Vec<(Vec<u8>, u64)> = &self.table.meta.sparse_index;
            if self.block >= index.len() {
                return Ok(NextRecord::End);
            }
            let start: u64 = index[self.block].1;
            let end: u64 = self.table.meta.end_of_block(self.block);
            if start > end {
                return Err(TableError::InvalidIndex);
            }
            return Ok(NextRecord::Read { start, end });
        }
        let (key, value, op, next) = match table::read_record(self.buf.as_slice(), self.cursor) {
            Some(found) => found,
            None => return Err(TableError::Truncated),
        };
        let record: TableRecord = if op == OP_VALUE {
            (key, Some(value))
        } else if op == OP_TOMBSTONE {
            (key, None)
        } else {
            return Err(TableError::InvalidOperation);
        };
        let ghost e = entries::entry_view(record);
        proof {
            lemma_one_more(self.buf@, 0, self.cursor as int, e, next as int);
            let before = stream(self.fed@.drop_last())->Ok_0;
            let some = entries_between(self.buf@, 0, self.cursor as int)->0;
            assert(before + some.push(e) =~= (before + some).push(e));
        }
        self.cursor = next;
        self.pulled = Ghost(self.pulled@.push(e));
        Ok(NextRecord::Record(record))
    }

    /// Hands in the next block.
    pub fn feed(&mut self, block: Vec<u8>)
        requires
            old(self).well_formed(),
            old(self).drained(),
            old(self).fed@.len() < old(self).table.meta.sparse_index@.len(),
        ensures
            final(self).well_formed(),
            final(self).table == old(self).table,
            final(self).pulled == old(self).pulled,
            final(self).fed@ == old(self).fed@.push(block@),
            final(self).buf == block,
            final(self).cursor == 0,
    {
        proof {
            self.lemma_stream();
            assert(old(self).pulled@ + Seq::<Entry>::empty() =~= old(self).pulled@);
            assert(old(self).fed@.push(block@).drop_last() =~= old(self).fed@);
        }
        self.fed = Ghost(self.fed@.push(block@));
        self.buf = block;
        self.cursor = 0;
        assert(self.block < self.table.meta.sparse_index.len());
        self.block = self.block + 1;
    }
}

/// The position of block `b` in the file.
pub open spec fn block_range<F>(t: SSTable<F>, b: int) -> (int, int) {
    (t.meta.parts().index[b].1 as int, table::block_end(t.meta.parts(), b) as int)
}

/// `e` is why a table of which `fed` has been handed in cannot be read on: the
/// blocks are damaged, or the next block ends before it starts.
pub open spec fn faulty<F>(t: SSTable<F>, fed: Seq<Seq<u8>>, e: TableError) -> bool {
    ||| stream(fed) == Err::<Seq<Entry>, TableError>(e)
    ||| {
        &&& e == TableError::InvalidIndex
        &&& fed.len() < t.meta.parts().index.len()
        &&& block_range(t, fed.len() as int).0 > block_range(t, fed.len() as int).1
    }
}

} // verus!
