//! Which tables to merge. Only tables of comparable size are merged, so a small
//! flush is never rewritten into a large table.
use crate::sstable::tableset::SSTableSet;
use vstd::prelude::*;

verus! {

pub open spec fn smallest(sizes: Seq<u64>) -> u64
    decreases sizes.len(),
{
    if sizes.len() <= 1 {
        sizes[0]
    } else {
        let s = smallest(sizes.drop_last());
        if sizes.last() < s {
            sizes.last()
        } else {
            s
        }
    }
}

pub open spec fn largest(sizes: Seq<u64>) -> u64
    decreases sizes.len(),
{
    if sizes.len() <= 1 {
        sizes[0]
    } else {
        let l = largest(sizes.drop_last());
        if sizes.last() > l {
            sizes.last()
        } else {
            l
        }
    }
}

/// The sizes from `start` to `end`, `end` included, are of one tier.
pub open spec fn comparable(
    sizes: Seq<u64>,
    start: int,
    end: int,
    exceeds: spec_fn(u64, u64) -> bool,
) -> bool {
    let run = sizes.subrange(start, end + 1);
    !exceeds(smallest(run), largest(run))
}

/// Where the run ends that has reached `end`: before the first table that does
/// not fit in, or behind the last table.
pub open spec fn run_end(
    sizes: Seq<u64>,
    start: int,
    end: int,
    exceeds: spec_fn(u64, u64) -> bool,
) -> int
    decreases sizes.len() - end,
{
    if end < sizes.len() && comparable(sizes, start, end, exceeds) {
        run_end(sizes, start, end + 1, exceeds)
    } else {
        end
    }
}

/// The run that begins at `start` is long enough.
pub open spec fn long_enough(
    sizes: Seq<u64>,
    start: int,
    min_run: int,
    exceeds: spec_fn(u64, u64) -> bool,
) -> bool {
    run_end(sizes, start, start + 1, exceeds) - start >= min_run
}

/// `r` is the oldest run that is long enough, as its start and length.
pub open spec fn is_oldest_run(
    sizes: Seq<u64>,
    min_run: int,
    exceeds: spec_fn(u64, u64) -> bool,
    r: Option<(int, int)>,
) -> bool {
    match r {
        Some((at, count)) => {
            &&& 0 <= at < sizes.len()
            &&& long_enough(sizes, at, min_run, exceeds)
            &&& count == run_end(sizes, at, at + 1, exceeds) - at
            &&& forall|s: int| 0 <= s < at ==> !#[trigger] long_enough(sizes, s, min_run, exceeds)
        },
        None => forall|s: int|
            0 <= s < sizes.len() ==> !#[trigger] long_enough(sizes, s, min_run, exceeds),
    }
}

/// Whatever the executable test returns is what `f` says.
pub open spec fn decides<C: Fn(u64, u64) -> bool>(
    exceeds: C,
    f: spec_fn(u64, u64) -> bool,
) -> bool {
    forall|s: u64, l: u64, b: bool| exceeds.ensures((s, l), b) ==> b == f(s, l)
}

pub proof fn lemma_run_end(sizes: Seq<u64>, start: int, end: int, exceeds: spec_fn(u64, u64) -> bool)
    requires
        0 <= start < end <= sizes.len(),
    ensures
        end <= run_end(sizes, start, end, exceeds) <= sizes.len(),
        forall|e: int|
            end <= e < run_end(sizes, start, end, exceeds) ==> #[trigger] comparable(
                sizes,
                start,
                e,
                exceeds,
            ),
        run_end(sizes, start, end, exceeds) < sizes.len() ==> !comparable(
            sizes,
            start,
            run_end(sizes, start, end, exceeds),
            exceeds,
        ),
    decreases sizes.len() - end,
{
    if end < sizes.len() && comparable(sizes, start, end, exceeds) {
        lemma_run_end(sizes, start, end + 1, exceeds);
    }
}

/// A run that is picked lies within the list and is long enough. Its tables are
/// of one tier, and the table behind it does not fit in.
pub proof fn picked_run_is_one_tier(
    sizes: Seq<u64>,
    min_run: int,
    exceeds: spec_fn(u64, u64) -> bool,
    at: int,
    count: int,
)
    requires
        is_oldest_run(sizes, min_run, exceeds, Some((at, count))),
    ensures
        1 <= count,
        min_run <= count,
        at + count <= sizes.len(),
        count >= 2 ==> comparable(sizes, at, at + count - 1, exceeds),
        at + count < sizes.len() ==> !comparable(sizes, at, at + count, exceeds),
{
    lemma_run_end(sizes, at, at + 1, exceeds);
    if count >= 2 {
        assert(comparable(sizes, at, at + count - 1, exceeds));
    }
}

/// A run is missed only if there is none: tables that can be taken in one after
/// the other, and are enough, are found, or an older run is.
pub proof fn a_long_run_is_not_missed(
    sizes: Seq<u64>,
    min_run: int,
    exceeds: spec_fn(u64, u64) -> bool,
    r: Option<(int, int)>,
    start: int,
)
    requires
        is_oldest_run(sizes, min_run, exceeds, r),
        0 <= start,
        1 <= min_run,
        start + min_run <= sizes.len(),
        forall|e: int| start < e < start + min_run ==> #[trigger] comparable(sizes, start, e, exceeds),
    ensures
        r matches Some((at, count)) && at <= start,
{
    lemma_run_end(sizes, start, start + 1, exceeds);
    let end = run_end(sizes, start, start + 1, exceeds);
    if end < start + min_run {
        assert(comparable(sizes, start, end, exceeds));
    }
    assert(long_enough(sizes, start, min_run, exceeds));
}

impl<F> SSTableSet<F> {
    /// The oldest run of tables that is worth merging, as its start and length.
    /// `sizes` are the sizes of the tables' files, and `exceeds` says whether the
    /// largest table of a run is too large for the smallest.
    pub fn pick_run<C: Fn(u64, u64) -> bool>(sizes: &[u64], min_run: usize, exceeds: C) -> (r: Option<
        (usize, usize),
    >)
        requires
            forall|s: u64, l: u64| #[trigger] exceeds.requires((s, l)),
        ensures
            forall|f: spec_fn(u64, u64) -> bool| #[trigger]
                decides(exceeds, f) ==> is_oldest_run(
                    sizes@,
                    min_run as int,
                    f,
                    match r {
                        Some((at, count)) => Some((at as int, count as int)),
                        None => None,
                    },
                ),
            r matches Some((at, count)) ==> 1 <= count && at + count <= sizes@.len(),
    {
        let mut start: usize = 0;
        while start < sizes.len()
            invariant
                start <= sizes@.len(),
                forall|s: u64, l: u64| #[trigger] exceeds.requires((s, l)),
                forall|f: spec_fn(u64, u64) -> bool, s: int|
                    #![trigger decides(exceeds, f), long_enough(sizes@, s, min_run as int, f)]
                    decides(exceeds, f) && 0 <= s < start ==> !long_enough(
                        sizes@,
                        s,
                        min_run as int,
                        f,
                    ),
            decreases sizes@.len() - start,
        {
            let end: usize = Self::extend_run(sizes, start, &exceeds);
            if end - start >= min_run {
                return Some((start, end - start));
            }
            start = start + 1;
        }
        None
    }

    /// Where the run that begins at `start` ends.
    fn extend_run<C: Fn(u64, u64) -> bool>(sizes: &[u64], start: usize, exceeds: &C) -> (end: usize)
        requires
            start < sizes@.len(),
            forall|s: u64, l: u64| #[trigger] exceeds.requires((s, l)),
        ensures
            forall|f: spec_fn(u64, u64) -> bool| #[trigger]
                decides(*exceeds, f) ==> end == run_end(sizes@, start as int, start + 1, f),
            start < end <= sizes@.len(),
    {
        let mut low: u64 = sizes[start];
        let mut high: u64 = sizes[start];
        let mut end: usize = start + 1;
        proof {
            let one = sizes@.subrange(start as int, start + 1);
            assert(one.len() == 1 && one[0] == sizes@[start as int]);
        }
        while end < sizes.len()
            invariant
                start < end <= sizes@.len(),
                forall|s: u64, l: u64| #[trigger] exceeds.requires((s, l)),
                low == smallest(sizes@.subrange(start as int, end as int)),
                high == largest(sizes@.subrange(start as int, end as int)),
                forall|f: spec_fn(u64, u64) -> bool| #[trigger]
                    decides(*exceeds, f) ==> run_end(sizes@, start as int, start + 1, f) == run_end(
                        sizes@,
                        start as int,
                        end as int,
                        f,
                    ),
            decreases sizes@.len() - end,
        {
            let size: u64 = sizes[end];
            proof {
                let run = sizes@.subrange(start as int, end + 1);
                assert(run.drop_last() =~= sizes@.subrange(start as int, end as int));
                assert(run.last() == size);
            }
            if size < low {
                low = size;
            }
            if size > high {
                high = size;
            }
            if exceeds(low, high) {
                return end;
            }
            end = end + 1;
        }
        end
    }
}

proof fn lemma_bounds(run: Seq<u64>)
    requires
        run.len() > 0,
    ensures
        forall|i: int| 0 <= i < run.len() ==> smallest(run) <= #[trigger] run[i] <= largest(run),
        run.contains(smallest(run)),
        run.contains(largest(run)),
    decreases run.len(),
{
    if run.len() > 1 {
        let rest = run.drop_last();
        lemma_bounds(rest);
        assert forall|i: int| 0 <= i < run.len() implies smallest(run) <= #[trigger] run[i]
            <= largest(run) by {
            if i < rest.len() {
                assert(rest[i] == run[i]);
            }
        }
        let s = choose|i: int| 0 <= i < rest.len() && rest[i] == smallest(rest);
        let l = choose|i: int| 0 <= i < rest.len() && rest[i] == largest(rest);
        assert(run[s] == smallest(rest));
        assert(run[l] == largest(rest));
        assert(run[run.len() - 1] == run.last());
    } else {
        assert(run[0] == smallest(run));
    }
}

/// A test that speaks of the distance between two sizes: a smaller size and a
/// larger one are no closer.
pub open spec fn widens(exceeds: spec_fn(u64, u64) -> bool) -> bool {
    forall|s: u64, l: u64, lower: u64, higher: u64|
        lower <= s && l <= higher && #[trigger] exceeds(s, l) ==> #[trigger] exceeds(lower, higher)
}

/// No size from `from` to before `to` is too large for another of them.
pub open spec fn close_together(
    sizes: Seq<u64>,
    from: int,
    to: int,
    exceeds: spec_fn(u64, u64) -> bool,
) -> bool {
    forall|i: int, j: int|
        from <= i < to && from <= j < to ==> !exceeds(#[trigger] sizes[i], #[trigger] sizes[j])
}

/// Tables are of one tier exactly where no two of them are too far apart.
proof fn lemma_comparable(
    sizes: Seq<u64>,
    start: int,
    end: int,
    exceeds: spec_fn(u64, u64) -> bool,
)
    requires
        0 <= start <= end < sizes.len(),
        widens(exceeds),
    ensures
        comparable(sizes, start, end, exceeds) == close_together(sizes, start, end + 1, exceeds),
{
    let run = sizes.subrange(start, end + 1);
    lemma_bounds(run);
    let low = smallest(run);
    let high = largest(run);
    if comparable(sizes, start, end, exceeds) {
        assert forall|i: int, j: int| start <= i < end + 1 && start <= j < end + 1 implies !exceeds(
            #[trigger] sizes[i],
            #[trigger] sizes[j],
        ) by {
            assert(run[i - start] == sizes[i]);
            assert(run[j - start] == sizes[j]);
            if exceeds(sizes[i], sizes[j]) {
                assert(exceeds(low, high));
            }
        }
    } else {
        let i = choose|i: int| 0 <= i < run.len() && run[i] == low;
        let j = choose|j: int| 0 <= j < run.len() && run[j] == high;
        assert(exceeds(sizes[start + i], sizes[start + j]));
    }
}

/// In a run that is picked no table is too large for another one, whichever two
/// of them are taken. The run is long enough, and the table behind it is too far
/// from one of its tables.
pub proof fn a_picked_run_is_close_together(
    sizes: Seq<u64>,
    min_run: int,
    exceeds: spec_fn(u64, u64) -> bool,
    at: int,
    count: int,
)
    requires
        is_oldest_run(sizes, min_run, exceeds, Some((at, count))),
        widens(exceeds),
    ensures
        0 <= at,
        1 <= count,
        min_run <= count,
        at + count <= sizes.len(),
        count >= 2 ==> close_together(sizes, at, at + count, exceeds),
        at + count < sizes.len() ==> !close_together(sizes, at, at + count + 1, exceeds),
{
    picked_run_is_one_tier(sizes, min_run, exceeds, at, count);
    lemma_comparable(sizes, at, at + count - 1, exceeds);
    if at + count < sizes.len() {
        lemma_comparable(sizes, at, at + count, exceeds);
    }
}

/// Wherever enough neighbours are close together a run is picked, and it starts
/// there or before.
pub proof fn the_oldest_run_is_picked(
    sizes: Seq<u64>,
    min_run: int,
    exceeds: spec_fn(u64, u64) -> bool,
    r: Option<(int, int)>,
    start: int,
)
    requires
        is_oldest_run(sizes, min_run, exceeds, r),
        widens(exceeds),
        0 <= start < sizes.len(),
        start + min_run <= sizes.len(),
        min_run <= 1 || close_together(sizes, start, start + min_run, exceeds),
    ensures
        r matches Some((at, count)) && at <= start,
{
    lemma_run_end(sizes, start, start + 1, exceeds);
    let end = run_end(sizes, start, start + 1, exceeds);
    if end < start + min_run {
        lemma_comparable(sizes, start, end, exceeds);
        assert(close_together(sizes, start, end + 1, exceeds));
    }
    assert(long_enough(sizes, start, min_run, exceeds));
}

/// A run that starts before the one that is picked is too short: two of its first
/// `min_run` tables are too far apart, or there are not that many.
pub proof fn no_older_run_is_long_enough(
    sizes: Seq<u64>,
    min_run: int,
    exceeds: spec_fn(u64, u64) -> bool,
    r: Option<(int, int)>,
    start: int,
)
    requires
        is_oldest_run(sizes, min_run, exceeds, r),
        widens(exceeds),
        0 <= start < sizes.len(),
        r matches Some((at, count)) ==> start < at,
    ensures
        2 <= min_run,
        start + min_run > sizes.len() || !close_together(sizes, start, start + min_run, exceeds),
{
    lemma_run_end(sizes, start, start + 1, exceeds);
    assert(!long_enough(sizes, start, min_run, exceeds));
    if start + min_run <= sizes.len() && close_together(
        sizes,
        start,
        start + min_run,
        exceeds,
    ) {
        the_oldest_run_is_picked(sizes, min_run, exceeds, r, start);
    }
}

/// Whatever agrees with the executable test on each of its answers stands for it.
pub proof fn what_agrees_decides<C: Fn(u64, u64) -> bool>(
    exceeds: C,
    f: spec_fn(u64, u64) -> bool,
)
    requires
        forall|s: u64, l: u64, b: bool| exceeds.ensures((s, l), b) ==> b == f(s, l),
    ensures
        decides(exceeds, f),
{
}

} // verus!
