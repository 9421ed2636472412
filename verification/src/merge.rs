//! Merging intervals: the size of their union, and the union as separate blocks.

use crate::interval::{
    coverage, discard_empty, holds, lemma_coverage_discard_empty, lemma_coverage_empty,
    lemma_coverage_finite, lemma_coverage_permutation, lemma_coverage_prefix,
    lemma_coverage_push, lemma_points_len, nonempty, points,
};
use crate::sorting::{precedes, sort_intervals, sorted};
use std::ops::Range;
use vstd::prelude::*;
use vstd::set_lib::*;

verus! {

/// Whether `s` is a list of blocks: each holds a point, and each ends strictly before
/// the next one starts, so that no two of them overlap or touch.
pub open spec fn separated(s: Seq<Range<i64>>) -> bool {
    &&& forall|i: int| 0 <= i < s.len() ==> nonempty(#[trigger] s[i])
    &&& forall|i: int, j: int|
        0 <= i < j < s.len() ==> (#[trigger] s[i]).end < (#[trigger] s[j]).start
}

/// The lengths of the intervals of `s`, added up.
pub open spec fn total_length(s: Seq<Range<i64>>) -> int
    decreases s.len(),
{
    if s.len() == 0 {
        0
    } else {
        total_length(s.drop_last()) + (s.last().end - s.last().start)
    }
}

/// The number of integer points that lie in at least one of the intervals.
///
/// Overlapping intervals count their common points once, intervals that touch leave no
/// gap between them, and an interval with `start >= end` counts for nothing. The count
/// must fit in an `i64`.
pub fn merged_length(intervals: &Vec<Range<i64>>) -> (total: i64)
    requires
        coverage(intervals@).len() <= i64::MAX,
    ensures
        total == coverage(intervals@).len(),
{
    let s = sweep_order(intervals);
    sweep_length(&s)
}

/// The union of the intervals as a list of blocks, from left to right.
///
/// The blocks cover exactly the points that the intervals cover. Each block holds a
/// point, and between two neighbouring blocks lies at least one point that is not
/// covered. What is covered decides the list.
pub fn merge_intervals(intervals: &Vec<Range<i64>>) -> (blocks: Vec<Range<i64>>)
    ensures
        separated(blocks@),
        coverage(blocks@) == coverage(intervals@),
{
    let s = sweep_order(intervals);
    let mut blocks: Vec<Range<i64>> = Vec::new();
    if s.len() == 0 {
        proof {
            assert(s@ =~= blocks@);
        }
        return blocks;
    }
    let mut start: i64 = s[0].start;
    let mut end: i64 = s[0].end;
    let mut k: usize = 1;
    proof {
        assert(s@.take(1) =~= blocks@.push(s@[0]));
        assert(nonempty(s@[0]));
    }
    while k < s.len()
        invariant
            1 <= k <= s.len(),
            sorted(s@),
            forall|i: int| 0 <= i < s.len() ==> nonempty(#[trigger] s@[i]),
            separated(blocks@),
            start < end,
            blocks.len() > 0 ==> blocks@.last().end < start,
            start <= s@[k - 1].start,
            coverage(blocks@.push(start..end)) == coverage(s@.take(k as int)),
        decreases s.len() - k,
    {
        let ghost block = start..end;
        let ghost done = blocks@;
        proof {
            let r = s@[k as int];
            assert(nonempty(r));
            assert(precedes(s@[k - 1], r));
            assert(s@.take(k + 1) =~= s@.take(k as int).push(r));
            lemma_coverage_push(s@.take(k as int), r);
        }
        if s[k].start <= end {
            if s[k].end > end {
                end = s[k].end;
            }
            proof {
                lemma_block_grows(done, block, s@[k as int], start..end);
            }
        } else {
            blocks.push(start..end);
            start = s[k].start;
            end = s[k].end;
            proof {
                lemma_coverage_push(blocks@, s@[k as int]);
                assert forall|i: int| 0 <= i < done.len() implies (#[trigger] done[i]).end
                    <= block.end by {
                    if i < done.len() - 1 {
                        assert(done[i].end < done.last().start);
                    }
                }
            }
        }
        k += 1;
    }
    proof {
        assert(s@.take(k as int) =~= s@);
    }
    blocks.push(start..end);
    blocks
}

/// The intervals of `v` that hold a point, in sweep order, cover what `v` covers.
fn sweep_order(v: &Vec<Range<i64>>) -> (s: Vec<Range<i64>>)
    ensures
        sorted(s@),
        forall|i: int| 0 <= i < s.len() ==> nonempty(#[trigger] s@[i]),
        coverage(s@) == coverage(v@),
{
    let kept = discard_empty(v);
    let s = sort_intervals(&kept);
    proof {
        let keep = |r: Range<i64>| nonempty(r);
        lemma_coverage_discard_empty(v@);
        lemma_coverage_permutation(kept@, s@);
        kept@.to_multiset_ensures();
        s@.to_multiset_ensures();
        assert forall|i: int| 0 <= i < s.len() implies nonempty(#[trigger] s@[i]) by {
            assert(s@.contains(s@[i]));
            assert(kept@.to_multiset().count(s@[i]) > 0);
            let j = choose|j: int| 0 <= j < kept.len() && kept@[j] == s@[i];
            v@.lemma_filter_pred(keep, j);
        }
    }
    s
}

/// Sweeps sorted intervals from left to right and adds up what each one contributes.
fn sweep_length(s: &Vec<Range<i64>>) -> (total: i64)
    requires
        sorted(s@),
        forall|i: int| 0 <= i < s.len() ==> nonempty(#[trigger] s@[i]),
        coverage(s@).len() <= i64::MAX,
    ensures
        total == coverage(s@).len(),
{
    if s.len() == 0 {
        proof {
            assert(s@ =~= Seq::<Range<i64>>::empty());
            lemma_coverage_empty();
        }
        return 0;
    }
    let mut frontier: i64 = s[0].start;
    let mut total: i64 = 0;
    let mut k: usize = 0;
    let ghost mut block: int = s@[0].start as int;
    proof {
        assert(s@.take(0) =~= Seq::<Range<i64>>::empty());
        lemma_coverage_empty();
    }
    while k < s.len()
        invariant
            k <= s.len(),
            sorted(s@),
            forall|i: int| 0 <= i < s.len() ==> nonempty(#[trigger] s@[i]),
            coverage(s@).len() <= i64::MAX,
            total == coverage(s@.take(k as int)).len(),
            forall|x: int| coverage(s@.take(k as int)).contains(x) ==> x < frontier,
            forall|x: int| block <= x < frontier ==> coverage(s@.take(k as int)).contains(x),
            k < s.len() ==> block <= s@[k as int].start,
        decreases s.len() - k,
    {
        let start: i64 = s[k].start;
        let end: i64 = s[k].end;
        proof {
            let r = s@[k as int];
            let u = coverage(s@.take(k as int));
            assert(nonempty(r));
            assert(s@.take(k + 1) =~= s@.take(k as int).push(r));
            lemma_coverage_push(s@.take(k as int), r);
            lemma_coverage_finite(s@.take(k as int));
            lemma_coverage_prefix(s@, k + 1);
            lemma_sweep_step(u, block, frontier as int, r);
            lemma_len_subset(points(r), u.union(points(r)));
            lemma_points_len(r);
            if k + 1 < s.len() {
                assert(precedes(s@[k as int], s@[k + 1]));
            }
        }
        let added: i64 = if end <= frontier {
            0
        } else if start >= frontier {
            end - start
        } else {
            end - frontier
        };
        proof {
            if start >= frontier {
                block = start as int;
            }
        }
        if end > frontier {
            frontier = end;
        }
        total = total + added;
        k += 1;
    }
    proof {
        assert(s@.take(k as int) =~= s@);
    }
    total
}

/// What one more interval adds to a union that a sweep has built so far.
///
/// `u` is the union of the intervals swept so far. All of it lies below `frontier`, and
/// it holds every point from `block` up to `frontier`. The next interval starts at
/// `block` or later.
proof fn lemma_sweep_step(u: Set<int>, block: int, frontier: int, r: Range<i64>)
    requires
        u.finite(),
        forall|x: int| u.contains(x) ==> x < frontier,
        forall|x: int| block <= x < frontier ==> u.contains(x),
        block <= r.start < r.end,
    ensures
        u.union(points(r)).finite(),
        r.end <= frontier ==> u.union(points(r)) == u,
        r.start >= frontier ==> u.union(points(r)).len() == u.len() + (r.end - r.start),
        r.start < frontier < r.end ==> u.union(points(r)).len() == u.len() + (r.end - frontier),
{
    let grown = u.union(points(r));
    lemma_points_len(r);
    if r.end <= frontier {
        assert(grown =~= u);
    } else if r.start >= frontier {
        assert(u.disjoint(points(r)));
        lemma_set_disjoint_lens(u, points(r));
    } else {
        let fresh = set_int_range(frontier, r.end as int);
        lemma_int_range(frontier, r.end as int);
        assert(grown =~= u.union(fresh));
        assert(u.disjoint(fresh));
        lemma_set_disjoint_lens(u, fresh);
    }
}

/// What is covered when the block `[start, end)` that a sweep is building grows by an
/// interval that starts inside it or at its end.
proof fn lemma_block_grows(
    done: Seq<Range<i64>>,
    block: Range<i64>,
    r: Range<i64>,
    grown: Range<i64>,
)
    requires
        block.start <= r.start <= block.end,
        nonempty(r),
        grown.start == block.start,
        grown.end == if r.end > block.end {
            r.end
        } else {
            block.end
        },
    ensures
        coverage(done.push(grown)) == coverage(done.push(block)).union(points(r)),
{
    lemma_coverage_push(done, grown);
    lemma_coverage_push(done, block);
    assert(coverage(done).union(points(grown)) =~= coverage(done).union(points(block)).union(
        points(r),
    ));
}

/// Two lists of blocks that cover the same points are the same list: what is covered
/// decides the blocks.
pub proof fn lemma_blocks_unique(a: Seq<Range<i64>>, b: Seq<Range<i64>>)
    requires
        separated(a),
        separated(b),
        coverage(a) == coverage(b),
    ensures
        a == b,
    decreases a.len(),
{
    if a.len() == 0 || b.len() == 0 {
        if a.len() > 0 {
            assert(holds(a[0], a[0].start as int));
            assert(coverage(a).contains(a[0].start as int));
        }
        if b.len() > 0 {
            assert(holds(b[0], b[0].start as int));
            assert(coverage(b).contains(b[0].start as int));
        }
        assert(a =~= b);
    } else {
        lemma_first_block(a, b);
        lemma_first_block(b, a);
        let rest_a = a.skip(1);
        let rest_b = b.skip(1);
        lemma_rest_of_blocks(a, b);
        lemma_rest_of_blocks(b, a);
        assert(coverage(rest_a) =~= coverage(rest_b));
        lemma_blocks_unique(rest_a, rest_b);
        assert(a =~= seq![a[0]] + rest_a);
        assert(b =~= seq![b[0]] + rest_b);
    }
}

/// The first block of `a` does not start before, nor end before, the first block of a
/// list that covers the same points.
proof fn lemma_first_block(a: Seq<Range<i64>>, b: Seq<Range<i64>>)
    requires
        separated(a),
        separated(b),
        coverage(a) == coverage(b),
        a.len() > 0,
        b.len() > 0,
    ensures
        b[0].start <= a[0].start,
        a[0].start == b[0].start ==> b[0].end <= a[0].end,
{
    let x = a[0].start as int;
    assert(holds(a[0], x));
    assert(coverage(a).contains(x));
    assert(coverage(b).contains(x));
    let j = choose|j: int| 0 <= j < b.len() && holds(b[j], x);
    if j > 0 {
        assert(b[0].end < b[j].start);
    }
    if a[0].start == b[0].start && a[0].end < b[0].end {
        let e = a[0].end as int;
        assert(holds(b[0], e));
        assert(coverage(b).contains(e));
        assert(coverage(a).contains(e));
        let k = choose|k: int| 0 <= k < a.len() && holds(a[k], e);
        if k > 0 {
            assert(a[0].end < a[k].start);
        }
    }
}

/// With equal first blocks, what follows them in `a` is covered by what follows them
/// in `b`.
proof fn lemma_rest_of_blocks(a: Seq<Range<i64>>, b: Seq<Range<i64>>)
    requires
        separated(a),
        separated(b),
        coverage(a) == coverage(b),
        a.len() > 0,
        b.len() > 0,
        a[0] == b[0],
    ensures
        separated(a.skip(1)),
        coverage(a.skip(1)).subset_of(coverage(b.skip(1))),
{
    let rest_a = a.skip(1);
    let rest_b = b.skip(1);
    assert forall|i: int, j: int| 0 <= i < j < rest_a.len() implies (#[trigger] rest_a[i]).end
        < (#[trigger] rest_a[j]).start by {
        assert(a[i + 1].end < a[j + 1].start);
    }
    assert forall|i: int| 0 <= i < rest_a.len() implies nonempty(#[trigger] rest_a[i]) by {
        assert(nonempty(a[i + 1]));
    }
    assert forall|x: int| coverage(rest_a).contains(x) implies coverage(rest_b).contains(x) by {
        let i = choose|i: int| 0 <= i < rest_a.len() && holds(rest_a[i], x);
        assert(holds(a[i + 1], x));
        assert(a[0].end < a[i + 1].start);
        assert(coverage(a).contains(x));
        assert(coverage(b).contains(x));
        let j = choose|j: int| 0 <= j < b.len() && holds(b[j], x);
        assert(j > 0);
        assert(holds(rest_b[j - 1], x));
    }
}

/// Blocks share no point, so they cover as many points as their lengths add up to.
pub proof fn lemma_blocks_length(s: Seq<Range<i64>>)
    requires
        separated(s),
    ensures
        coverage(s).len() == total_length(s),
    decreases s.len(),
{
    if s.len() == 0 {
        assert(s =~= Seq::<Range<i64>>::empty());
        lemma_coverage_empty();
    } else {
        let front = s.drop_last();
        let last = s.last();
        assert(separated(front));
        lemma_blocks_length(front);
        assert(front.push(last) =~= s);
        lemma_coverage_push(front, last);
        lemma_coverage_finite(front);
        lemma_points_len(last);
        assert(nonempty(last));
        assert(coverage(front).disjoint(points(last))) by {
            assert forall|x: int| coverage(front).contains(x) implies !points(last).contains(
                x,
            ) by {
                let i = choose|i: int| 0 <= i < front.len() && holds(front[i], x);
                assert(s[i].end < s[s.len() - 1].start);
            }
        }
        lemma_set_disjoint_lens(coverage(front), points(last));
    }
}

} // verus!
