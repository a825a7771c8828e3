use vstd::prelude::*;
use crate::oram::{Op, PathORAM};

verus! {

/// Number of entries of `s` strictly greater than `r`.
pub open spec fn count_greater(s: Seq<usize>, r: int) -> nat
    decreases s.len(),
{
    if s.len() == 0 {
        0
    } else {
        count_greater(s.drop_last(), r) + if s.last() > r {
            1nat
        } else {
            0nat
        }
    }
}

/// The tail of a run of stash sizes: how many accesses were measured, and
/// for each `R = 0, 1, ...` while it is nonzero, how many of them left more
/// than `R` blocks in the stash.
pub struct StashTail {
    pub accesses: usize,
    pub exceeding: Vec<usize>,
}

/// A larger threshold is exceeded no more often, and never more often than
/// there are entries; every entry exceeds `-1`.
pub proof fn lemma_count_greater_monotone(s: Seq<usize>, r1: int, r2: int)
    requires
        r1 <= r2,
    ensures
        count_greater(s, r2) <= count_greater(s, r1),
        count_greater(s, r1) <= s.len(),
        count_greater(s, -1) == s.len(),
    decreases s.len(),
{
    if s.len() > 0 {
        lemma_count_greater_monotone(s.drop_last(), r1, r2);
    }
}

/// Counts the entries of `sizes` greater than `r`.
fn count_greater_exec(sizes: &Vec<usize>, r: usize) -> (c: usize)
    ensures
        c == count_greater(sizes@, r as int),
{
    let mut c: usize = 0;
    let mut i: usize = 0;
    while i < sizes.len()
        invariant
            i <= sizes@.len(),
            c == count_greater(sizes@.subrange(0, i as int), r as int),
        decreases sizes@.len() - i,
    {
        proof {
            assert(sizes@.subrange(0, i + 1).drop_last() =~= sizes@.subrange(0, i as int));
            lemma_count_greater_monotone(sizes@.subrange(0, i as int), r as int, r as int);
        }
        if sizes[i] > r {
            c = c + 1;
        }
        i = i + 1;
    }
    assert(sizes@.subrange(0, i as int) =~= sizes@);
    c
}

/// Tabulates stash sizes: `exceeding[R]` counts the sizes greater than `R`,
/// for every `R` from 0 up to the last with a nonzero count. The counts do
/// not grow with `R`, and none exceeds the number of accesses.
pub fn stash_tail(sizes: &Vec<usize>) -> (r: StashTail)
    ensures
        r.accesses == sizes@.len(),
        r.accesses == count_greater(sizes@, -1),
        forall|k: int|
            0 <= k < r.exceeding@.len() ==> #[trigger] r.exceeding@[k] == count_greater(sizes@, k)
                && r.exceeding@[k] > 0,
        count_greater(sizes@, r.exceeding@.len() as int) == 0,
        forall|i: int, j: int|
            0 <= i <= j < r.exceeding@.len() ==> #[trigger] r.exceeding@[i] >= #[trigger] r.exceeding@[j],
        forall|k: int| 0 <= k < r.exceeding@.len() ==> #[trigger] r.exceeding@[k] <= r.accesses,
{
    proof {
        lemma_count_greater_monotone(sizes@, -1, -1);
    }
    let mut exceeding: Vec<usize> = Vec::new();
    let mut threshold: usize = 0;
    let mut c = count_greater_exec(sizes, threshold);
    while c > 0
        invariant
            exceeding@.len() == threshold,
            c == count_greater(sizes@, threshold as int),
            forall|k: int|
                0 <= k < exceeding@.len() ==> #[trigger] exceeding@[k] == count_greater(sizes@, k)
                    && exceeding@[k] > 0,
        decreases usize::MAX - threshold,
    {
        proof {
            if threshold == usize::MAX {
                lemma_nothing_exceeds_max(sizes@);
            }
        }
        exceeding.push(c);
        threshold = threshold + 1;
        c = count_greater_exec(sizes, threshold);
    }
    proof {
        assert forall|i: int, j: int| 0 <= i <= j < exceeding@.len() implies #[trigger] exceeding@[i]
            >= #[trigger] exceeding@[j] by {
            lemma_count_greater_monotone(sizes@, i, j);
        }
        assert forall|k: int| 0 <= k < exceeding@.len() implies #[trigger] exceeding@[k] <= sizes@.len() by {
            lemma_count_greater_monotone(sizes@, k, k);
        }
    }
    StashTail { accesses: sizes.len(), exceeding }
}

/// No `usize` exceeds `usize::MAX`.
proof fn lemma_nothing_exceeds_max(s: Seq<usize>)
    ensures
        count_greater(s, usize::MAX as int) == 0,
    decreases s.len(),
{
    if s.len() > 0 {
        lemma_nothing_exceeds_max(s.drop_last());
    }
}

/// Reads blocks `1, 2, ..., num_blocks, 1, 2, ...` in turn, `warmup + measured`
/// times, and returns the stash size after each of the last `measured` reads.
/// The store's contents are unchanged.
pub fn sequential_read_stash_sizes(oram: &mut PathORAM, warmup: usize, measured: usize) -> (r: Vec<usize>)
    requires
        old(oram).wf(),
        old(oram).full(),
        warmup + measured <= usize::MAX,
    ensures
        final(oram).wf(),
        final(oram).full(),
        final(oram)@ == old(oram)@,
        final(oram).num_blocks == old(oram).num_blocks,
        final(oram).capacity == old(oram).capacity,
        r@.len() == measured,
{
    let total: usize = warmup + measured;
    let n: usize = oram.num_blocks as usize;
    let mut sizes: Vec<usize> = Vec::with_capacity(measured);
    let mut i: usize = 0;
    while i < total
        invariant
            oram.wf(),
            oram.full(),
            oram@ == old(oram)@,
            oram.num_blocks == old(oram).num_blocks,
            oram.capacity == old(oram).capacity,
            n == oram.num_blocks,
            n >= 1,
            total == warmup + measured,
            i <= total,
            sizes@.len() == if i < warmup { 0 } else { i - warmup },
        decreases total - i,
    {
        let id: u32 = (i % n) as u32 + 1;
        let _ = oram.access(Op::Read, id, None);
        if i >= warmup {
            sizes.push(oram.stash_size());
        }
        i = i + 1;
    }
    sizes
}

} // verus!
