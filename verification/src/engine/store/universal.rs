//! When merging tables of like size pays off.

use vstd::prelude::*;

use crate::engine::memtable::{at_most_u64, weight_of};
use crate::engine::store::{files_at, TableFile};
use crate::options::UniversalCompactionOptions;

verus! {

/// The sizes of the level-0 tables, oldest first.
pub open spec fn level0_sizes(tables: Seq<TableFile>) -> Seq<u64>
    decreases tables.len(),
{
    if tables.len() == 0 {
        Seq::empty()
    } else if tables.last().at_level() == 0 {
        level0_sizes(tables.drop_last()).push(
            at_most_u64(weight_of(tables.last().history())) as u64,
        )
    } else {
        level0_sizes(tables.drop_last())
    }
}

/// There are as many sizes as level-0 tables.
proof fn lemma_level0_count(tables: Seq<TableFile>)
    ensures
        level0_sizes(tables).len() == files_at(tables, 0),
    decreases tables.len(),
{
    if tables.len() > 0 {
        lemma_level0_count(tables.drop_last());
    }
}

/// How many of the tables, newest first, join a run that holds `total` bytes:
/// one joins where the run is no more than `ratio` percent short of its size.
pub open spec fn joining(sizes: Seq<u64>, total: nat, ratio: u32) -> nat
    decreases sizes.len(),
{
    if sizes.len() == 0 || total * (100 + ratio) < sizes.last() * 100 {
        0
    } else {
        1 + joining(sizes.drop_last(), at_most_u64(total + sizes.last() as nat), ratio)
    }
}

/// How many tables the run that starts with the newest takes in.
pub open spec fn run_width(sizes: Seq<u64>, ratio: u32) -> nat {
    if sizes.len() == 0 {
        0
    } else {
        1 + joining(sizes.drop_last(), sizes.last() as nat, ratio)
    }
}

/// The sizes added up.
pub open spec fn total_size(sizes: Seq<u64>) -> nat
    decreases sizes.len(),
{
    if sizes.len() == 0 {
        0
    } else {
        at_most_u64(total_size(sizes.drop_last()) + sizes.last() as nat)
    }
}

/// The newer tables hold more than `percent` percent of what the oldest
/// holds.
pub open spec fn amplified(sizes: Seq<u64>, percent: u32) -> bool {
    let newer = total_size(sizes.drop_first());
    if sizes[0] == 0 {
        newer > 0
    } else {
        (newer * 100) / (sizes[0] as nat) > percent
    }
}

/// How many tables a merge of the run takes in: no more than the greatest
/// width.
pub open spec fn run_taken(sizes: Seq<u64>, options: UniversalCompactionOptions) -> nat {
    let width = run_width(sizes, options.size_ratio);
    if width <= options.max_merge_width {
        width
    } else {
        options.max_merge_width as nat
    }
}

/// Whether there is anything to merge: the newest tables make a run of at
/// least the least width, or the newer tables outweigh the oldest.
pub open spec fn universal_due(sizes: Seq<u64>, options: UniversalCompactionOptions) -> bool {
    sizes.len() >= 2 && (amplified(sizes, options.max_size_amplification_percent) || (run_width(
        sizes,
        options.size_ratio,
    ) >= options.min_merge_width && run_taken(sizes, options) >= 2))
}

/// Where the newest `count` level-0 tables begin.
pub open spec fn newest_from(tables: Seq<TableFile>, count: nat) -> int
    decreases tables.len(),
{
    if tables.len() == 0 || count == 0 {
        tables.len() as int
    } else if tables.last().at_level() == 0 {
        newest_from(tables.drop_last(), (count - 1) as nat)
    } else {
        newest_from(tables.drop_last(), count)
    }
}

/// The first table that a merge takes in: the oldest where the newer tables
/// outweigh it, else the last of the run.
pub open spec fn universal_start(
    tables: Seq<TableFile>,
    options: UniversalCompactionOptions,
) -> int {
    let sizes = level0_sizes(tables);
    if amplified(sizes, options.max_size_amplification_percent) {
        0
    } else {
        newest_from(tables, run_taken(sizes, options))
    }
}

proof fn lemma_joining_fits(sizes: Seq<u64>, total: nat, ratio: u32)
    ensures
        joining(sizes, total, ratio) <= sizes.len(),
    decreases sizes.len(),
{
    if sizes.len() > 0 {
        lemma_joining_fits(
            sizes.drop_last(),
            at_most_u64(total + sizes.last() as nat),
            ratio,
        );
    }
}

proof fn lemma_newest_from(tables: Seq<TableFile>, count: nat)
    requires
        count <= files_at(tables, 0),
    ensures
        0 <= newest_from(tables, count) <= tables.len(),
        files_at(tables.skip(newest_from(tables, count)), 0) == count,
    decreases tables.len(),
{
    let n = newest_from(tables, count);
    if tables.len() == 0 || count == 0 {
        assert(tables.skip(n) =~= Seq::<TableFile>::empty());
    } else {
        let rest = tables.drop_last();
        lemma_newest_from(
            rest,
            if tables.last().at_level() == 0 {
                (count - 1) as nat
            } else {
                count
            },
        );
        assert(tables.skip(n).drop_last() =~= rest.skip(n));
        assert(tables.skip(n).last() == tables.last());
    }
}

/// A merge that is due takes in two level-0 tables or more.
pub proof fn lemma_universal_start(tables: Seq<TableFile>, options: UniversalCompactionOptions)
    requires
        universal_due(level0_sizes(tables), options),
    ensures
        0 <= universal_start(tables, options) <= tables.len(),
        files_at(tables.skip(universal_start(tables, options)), 0) >= 2,
{
    let sizes = level0_sizes(tables);
    lemma_level0_count(tables);
    lemma_joining_fits(sizes.drop_last(), sizes.last() as nat, options.size_ratio);
    if amplified(sizes, options.max_size_amplification_percent) {
        assert(tables.skip(0) =~= tables);
    } else {
        lemma_newest_from(tables, run_taken(sizes, options));
    }
}

fn joins(total: u64, next: u64, ratio: u32) -> (r: bool)
    ensures
        r == (total * (100 + ratio) >= next * 100),
{
    let scale: u128 = 100 + ratio as u128;
    assert(total * scale <= 0xffff_ffff_ffff_ffff * 0x1_0000_0100) by (nonlinear_arith)
        requires
            total <= 0xffff_ffff_ffff_ffff,
            scale <= 0x1_0000_0100,
    ;
    total as u128 * scale >= next as u128 * 100
}

fn run_of(sizes: &Vec<u64>, ratio: u32) -> (r: usize)
    ensures
        r == run_width(sizes@, ratio),
{
    if sizes.len() == 0 {
        return 0;
    }
    let mut left: usize = sizes.len() - 1;
    let mut total: u64 = sizes[left];
    assert(sizes@.take(left as int) =~= sizes@.drop_last());
    while left > 0 && joins(total, sizes[left - 1], ratio)
        invariant
            left < sizes@.len(),
            run_width(sizes@, ratio) == (sizes@.len() - left) + joining(
                sizes@.take(left as int),
                total as nat,
                ratio,
            ),
        decreases left,
    {
        proof {
            let rest = sizes@.take(left as int);
            assert(rest.last() == sizes@[left - 1]);
            assert(rest.drop_last() =~= sizes@.take(left - 1));
        }
        left -= 1;
        total = total.saturating_add(sizes[left]);
    }
    proof {
        if left > 0 {
            assert(sizes@.take(left as int).last() == sizes@[left - 1]);
        }
    }
    sizes.len() - left
}

fn is_amplified(sizes: &Vec<u64>, percent: u32) -> (r: bool)
    requires
        sizes@.len() > 0,
    ensures
        r == amplified(sizes@, percent),
{
    let mut newer: u64 = 0;
    let mut i: usize = 1;
    let ghost rest = sizes@.drop_first();
    assert(rest.take(0) =~= Seq::<u64>::empty());
    while i < sizes.len()
        invariant
            1 <= i <= sizes@.len(),
            rest == sizes@.drop_first(),
            newer == total_size(rest.take(i - 1)),
        decreases sizes@.len() - i,
    {
        proof {
            assert(rest.take(i as int).drop_last() =~= rest.take(i - 1));
            assert(rest.take(i as int).last() == sizes@[i as int]);
        }
        newer = newer.saturating_add(sizes[i]);
        i += 1;
    }
    assert(rest.take(i - 1) =~= rest);
    if sizes[0] == 0 {
        newer > 0
    } else {
        (newer as u128 * 100) / sizes[0] as u128 > percent as u128
    }
}

/// Whether there is anything to merge.
pub fn is_universal_due(sizes: &Vec<u64>, options: UniversalCompactionOptions) -> (r: bool)
    ensures
        r == universal_due(sizes@, options),
{
    if sizes.len() < 2 {
        return false;
    }
    let width: usize = run_of(sizes, options.size_ratio);
    is_amplified(sizes, options.max_size_amplification_percent) || (width
        >= options.min_merge_width as usize && width >= 2 && options.max_merge_width >= 2)
}

/// The first table that a merge that is due takes in.
pub fn first_merged(
    tables: &Vec<TableFile>,
    sizes: &Vec<u64>,
    options: UniversalCompactionOptions,
) -> (r: usize)
    requires
        sizes@ == level0_sizes(tables@),
        universal_due(sizes@, options),
    ensures
        r == universal_start(tables@, options),
        r <= tables@.len(),
{
    if is_amplified(sizes, options.max_size_amplification_percent) {
        return 0;
    }
    let width: usize = run_of(sizes, options.size_ratio);
    let cap: usize = options.max_merge_width as usize;
    let mut count: usize = if width <= cap {
        width
    } else {
        cap
    };
    let mut n: usize = tables.len();
    assert(tables@.take(n as int) =~= tables@);
    while n > 0 && count > 0
        invariant
            n <= tables@.len(),
            universal_start(tables@, options) == newest_from(
                tables@.take(n as int),
                count as nat,
            ),
        decreases n,
    {
        proof {
            let seen = tables@.take(n as int);
            assert(seen.last() == tables@[n - 1]);
            assert(seen.drop_last() =~= tables@.take(n - 1));
        }
        n -= 1;
        if tables[n].level() == 0 {
            count -= 1;
        }
    }
    n
}

} // verus!
