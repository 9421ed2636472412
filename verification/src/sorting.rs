//! Ordering intervals by where they start, by merging sorted runs.

use std::ops::Range;
use vstd::prelude::*;
use vstd::relations::{sorted_by, total_ordering};
use vstd::seq_lib::*;

verus! {

/// The order of the sweep: by start, and among equal starts the shorter interval first.
pub open spec fn precedes(a: Range<i64>, b: Range<i64>) -> bool {
    a.start < b.start || (a.start == b.start && a.end <= b.end)
}

/// Whether each interval of `s` precedes all that come after it.
pub open spec fn sorted(s: Seq<Range<i64>>) -> bool {
    forall|i: int, j: int| 0 <= i <= j < s.len() ==> precedes(#[trigger] s[i], #[trigger] s[j])
}

/// Decides `precedes` on two intervals.
pub fn comes_before(a: &Range<i64>, b: &Range<i64>) -> (r: bool)
    ensures
        r == precedes(*a, *b),
{
    a.start < b.start || (a.start == b.start && a.end <= b.end)
}

/// Merges two sorted runs into one sorted run that holds the intervals of both.
fn merge_runs(a: &Vec<Range<i64>>, b: &Vec<Range<i64>>) -> (out: Vec<Range<i64>>)
    requires
        sorted(a@),
        sorted(b@),
    ensures
        sorted(out@),
        out@.to_multiset() == a@.to_multiset().add(b@.to_multiset()),
{
    let mut out: Vec<Range<i64>> = Vec::new();
    let mut i: usize = 0;
    let mut j: usize = 0;
    proof {
        assert(out@ =~= a@.take(0) + b@.take(0));
    }
    while i < a.len() || j < b.len()
        invariant
            i <= a.len(),
            j <= b.len(),
            sorted(a@),
            sorted(b@),
            sorted(out@),
            out@.to_multiset() == (a@.take(i as int) + b@.take(j as int)).to_multiset(),
            forall|k: int, m: int|
                0 <= k < out.len() && i <= m < a.len() ==> precedes(
                    #[trigger] out@[k],
                    #[trigger] a@[m],
                ),
            forall|k: int, m: int|
                0 <= k < out.len() && j <= m < b.len() ==> precedes(
                    #[trigger] out@[k],
                    #[trigger] b@[m],
                ),
        decreases a.len() - i + b.len() - j,
    {
        let left: bool = if i == a.len() {
            false
        } else if j == b.len() {
            true
        } else {
            comes_before(&a[i], &b[j])
        };
        let ghost before = out@;
        let ghost taken = a@.take(i as int) + b@.take(j as int);
        if left {
            out.push(a[i].start..a[i].end);
            proof {
                assert(a@.take(i + 1) + b@.take(j as int) =~= taken.insert(i as int, a@[i as int]));
                to_multiset_insert(taken, i as int, a@[i as int]);
                to_multiset_build(before, a@[i as int]);
            }
            i += 1;
        } else {
            out.push(b[j].start..b[j].end);
            proof {
                assert(a@.take(i as int) + b@.take(j + 1) =~= taken.push(b@[j as int]));
                to_multiset_build(taken, b@[j as int]);
                to_multiset_build(before, b@[j as int]);
            }
            j += 1;
        }
    }
    proof {
        assert(a@.take(i as int) =~= a@);
        assert(b@.take(j as int) =~= b@);
        lemma_multiset_commutative(a@, b@);
    }
    out
}

/// Sorts the intervals `v[lo..hi]`.
fn sort_span(v: &Vec<Range<i64>>, lo: usize, hi: usize) -> (out: Vec<Range<i64>>)
    requires
        lo <= hi <= v.len(),
    ensures
        sorted(out@),
        out@.to_multiset() == v@.subrange(lo as int, hi as int).to_multiset(),
    decreases hi - lo,
{
    if hi - lo == 0 {
        let out: Vec<Range<i64>> = Vec::new();
        proof {
            assert(v@.subrange(lo as int, hi as int) =~= out@);
        }
        out
    } else if hi - lo == 1 {
        let mut out: Vec<Range<i64>> = Vec::new();
        out.push(v[lo].start..v[lo].end);
        proof {
            assert(v@.subrange(lo as int, hi as int) =~= out@);
        }
        out
    } else {
        let mid: usize = lo + (hi - lo) / 2;
        let left = sort_span(v, lo, mid);
        let right = sort_span(v, mid, hi);
        proof {
            let l = v@.subrange(lo as int, mid as int);
            let r = v@.subrange(mid as int, hi as int);
            assert(v@.subrange(lo as int, hi as int) =~= l + r);
            lemma_multiset_commutative(l, r);
        }
        merge_runs(&left, &right)
    }
}

/// Sorts intervals by start, and among equal starts by length.
///
/// The result holds the same intervals as `v`, each as often as `v` does, and each of
/// them precedes all that follow it. The intervals alone decide the result, not the
/// order in which `v` holds them.
pub fn sort_intervals(v: &Vec<Range<i64>>) -> (out: Vec<Range<i64>>)
    ensures
        sorted(out@),
        out@.to_multiset() == v@.to_multiset(),
{
    proof {
        assert(v@.subrange(0, v.len() as int) =~= v@);
    }
    sort_span(v, 0, v.len())
}

/// Two sorted sequences that hold the same intervals, each as often as the other, are
/// the same sequence: the order of the input leaves no trace in the sorted output.
pub proof fn lemma_sorted_is_unique(a: Seq<Range<i64>>, b: Seq<Range<i64>>)
    requires
        sorted(a),
        sorted(b),
        a.to_multiset() == b.to_multiset(),
    ensures
        a == b,
{
    let leq = |x: Range<i64>, y: Range<i64>| precedes(x, y);
    assert(sorted_by(a, leq)) by {
        assert forall|i: int, j: int| 0 <= i < j < a.len() implies #[trigger] leq(a[i], a[j]) by {
            assert(precedes(a[i], a[j]));
        }
    }
    assert(sorted_by(b, leq)) by {
        assert forall|i: int, j: int| 0 <= i < j < b.len() implies #[trigger] leq(b[i], b[j]) by {
            assert(precedes(b[i], b[j]));
        }
    }
    assert(total_ordering(leq));
    lemma_sorted_unique(a, b, leq);
}

} // verus!
