//! Half-open integer intervals and the set of points that a collection of them covers.
//!
//! An interval is a `Range<i64>`: it holds the integers `x` with `start <= x < end`,
//! and holds nothing when `start >= end`.

use std::ops::Range;
use vstd::prelude::*;
use vstd::set_lib::*;

verus! {

/// Whether `x` lies in the half-open interval `[r.start, r.end)`.
pub open spec fn holds(r: Range<i64>, x: int) -> bool {
    r.start <= x < r.end
}

/// The integer points of the half-open interval `[r.start, r.end)`.
pub open spec fn points(r: Range<i64>) -> Set<int> {
    set_int_range(r.start as int, r.end as int)
}

/// Whether the interval holds at least one point.
pub open spec fn nonempty(r: Range<i64>) -> bool {
    r.start < r.end
}

/// Whether some interval of `s` holds `x`.
pub open spec fn covered(s: Seq<Range<i64>>, x: int) -> bool {
    exists|i: int| 0 <= i < s.len() && #[trigger] holds(s[i], x)
}

/// The union of the points of all intervals of `s`.
pub open spec fn coverage(s: Seq<Range<i64>>) -> Set<int> {
    Set::new(|x: int| covered(s, x))
}

/// The part of the interval `r` that lies in `[lo, hi)`; `0..0` where no point of it does.
pub open spec fn clamped(r: Range<i64>, lo: i64, hi: i64) -> Range<i64> {
    let start = if r.start >= lo {
        r.start
    } else {
        lo
    };
    let end = if r.end <= hi {
        r.end
    } else {
        hi
    };
    if start < end {
        start..end
    } else {
        0..0
    }
}

/// Copies the intervals that hold at least one point, in their order.
pub fn discard_empty(v: &Vec<Range<i64>>) -> (out: Vec<Range<i64>>)
    ensures
        out@ == v@.filter(|r: Range<i64>| nonempty(r)),
{
    let mut out: Vec<Range<i64>> = Vec::new();
    let mut i: usize = 0;
    proof {
        assert(v@.take(0) =~= Seq::<Range<i64>>::empty());
        Seq::<Range<i64>>::empty().lemma_all_neg_filter_empty(|r: Range<i64>| nonempty(r));
    }
    while i < v.len()
        invariant
            i <= v.len(),
            out@ == v@.take(i as int).filter(|r: Range<i64>| nonempty(r)),
        decreases v.len() - i,
    {
        proof {
            assert(v@.take(i + 1) =~= v@.take(i as int).push(v@[i as int]));
            v@.take(i as int).lemma_filter_push(v@[i as int], |r: Range<i64>| nonempty(r));
        }
        if v[i].start < v[i].end {
            out.push(v[i].start..v[i].end);
        }
        i += 1;
    }
    proof {
        assert(v@.take(i as int) =~= v@);
    }
    out
}

/// The part of an interval that lies in `[lo, hi)`; `0..0` where no point of it does.
pub fn clamp(r: &Range<i64>, lo: i64, hi: i64) -> (c: Range<i64>)
    ensures
        c == clamped(*r, lo, hi),
{
    let start: i64 = if r.start >= lo {
        r.start
    } else {
        lo
    };
    let end: i64 = if r.end <= hi {
        r.end
    } else {
        hi
    };
    if start < end {
        start..end
    } else {
        0..0
    }
}

/// The intervals of `ranges`, each cut down to `[lo, hi)`.
pub fn clamp_all(ranges: &Vec<Range<i64>>, lo: i64, hi: i64) -> (out: Vec<Range<i64>>)
    ensures
        out.len() == ranges.len(),
        forall|i: int| 0 <= i < out.len() ==> #[trigger] out@[i] == clamped(ranges@[i], lo, hi),
        coverage(out@) == coverage(ranges@).intersect(set_int_range(lo as int, hi as int)),
{
    let mut out: Vec<Range<i64>> = Vec::new();
    let mut i: usize = 0;
    while i < ranges.len()
        invariant
            i <= ranges.len(),
            out.len() == i,
            forall|j: int| 0 <= j < i ==> #[trigger] out@[j] == clamped(ranges@[j], lo, hi),
        decreases ranges.len() - i,
    {
        let c = clamp(&ranges[i], lo, hi);
        out.push(c);
        i += 1;
    }
    proof {
        let cut = coverage(ranges@).intersect(set_int_range(lo as int, hi as int));
        assert forall|x: int| coverage(out@).contains(x) <==> cut.contains(x) by {
            if covered(out@, x) {
                let j = choose|j: int| 0 <= j < out.len() && holds(out@[j], x);
                lemma_clamped_holds(ranges@[j], lo, hi, x);
                assert(holds(ranges@[j], x));
            }
            if cut.contains(x) {
                let j = choose|j: int| 0 <= j < ranges.len() && holds(ranges@[j], x);
                lemma_clamped_holds(ranges@[j], lo, hi, x);
                assert(holds(out@[j], x));
            }
        }
        assert(coverage(out@) =~= cut);
    }
    out
}

/// No interval, no point.
pub proof fn lemma_coverage_empty()
    ensures
        coverage(Seq::<Range<i64>>::empty()) == Set::<int>::empty(),
{
    assert(coverage(Seq::<Range<i64>>::empty()) =~= Set::<int>::empty());
}

/// One more interval adds exactly its own points to the union.
pub proof fn lemma_coverage_push(s: Seq<Range<i64>>, r: Range<i64>)
    ensures
        coverage(s.push(r)) == coverage(s).union(points(r)),
{
    let t = s.push(r);
    assert forall|x: int| coverage(t).contains(x) <==> coverage(s).union(points(r)).contains(
        x,
    ) by {
        if covered(t, x) {
            let i = choose|i: int| 0 <= i < t.len() && holds(t[i], x);
            if i < s.len() {
                assert(holds(s[i], x));
            }
        }
        if covered(s, x) {
            let i = choose|i: int| 0 <= i < s.len() && holds(s[i], x);
            assert(holds(t[i], x));
        }
        if points(r).contains(x) {
            assert(holds(t[s.len() as int], x));
        }
    }
    assert(coverage(t) =~= coverage(s).union(points(r)));
}

/// The points of one interval are finitely many: `end - start` of them, or none.
pub proof fn lemma_points_len(r: Range<i64>)
    ensures
        points(r).finite(),
        points(r).len() == if nonempty(r) {
            r.end - r.start
        } else {
            0
        },
{
    if nonempty(r) {
        lemma_int_range(r.start as int, r.end as int);
    } else {
        assert(points(r) =~= Set::<int>::empty());
    }
}

/// The union of finitely many intervals is a finite set.
pub proof fn lemma_coverage_finite(s: Seq<Range<i64>>)
    ensures
        coverage(s).finite(),
    decreases s.len(),
{
    if s.len() == 0 {
        assert(s =~= Seq::<Range<i64>>::empty());
        lemma_coverage_empty();
    } else {
        lemma_coverage_finite(s.drop_last());
        lemma_coverage_push(s.drop_last(), s.last());
        lemma_points_len(s.last());
        assert(s.drop_last().push(s.last()) =~= s);
    }
}

/// Intervals that all lie between `lo` and `hi` cover at most `hi - lo` points.
pub proof fn lemma_coverage_within(s: Seq<Range<i64>>, lo: int, hi: int)
    requires
        lo <= hi,
        forall|i: int|
            0 <= i < s.len() && nonempty(#[trigger] s[i]) ==> lo <= s[i].start && s[i].end <= hi,
    ensures
        coverage(s).subset_of(set_int_range(lo, hi)),
        coverage(s).len() <= hi - lo,
{
    assert forall|x: int| coverage(s).contains(x) implies set_int_range(lo, hi).contains(x) by {
        let i = choose|i: int| 0 <= i < s.len() && holds(s[i], x);
        assert(nonempty(s[i]));
    }
    lemma_int_range(lo, hi);
    lemma_len_subset(coverage(s), set_int_range(lo, hi));
}

/// A prefix of the intervals covers a subset of what all of them cover.
pub proof fn lemma_coverage_prefix(s: Seq<Range<i64>>, k: int)
    requires
        0 <= k <= s.len(),
    ensures
        coverage(s.take(k)).subset_of(coverage(s)),
        coverage(s.take(k)).len() <= coverage(s).len(),
{
    let t = s.take(k);
    assert forall|x: int| coverage(t).contains(x) implies coverage(s).contains(x) by {
        let i = choose|i: int| 0 <= i < t.len() && holds(t[i], x);
        assert(holds(s[i], x));
    }
    lemma_coverage_finite(s);
    lemma_len_subset(coverage(t), coverage(s));
}

/// Two collections that hold the same intervals, each as often as the other, cover the
/// same points: the order of the intervals plays no part.
pub proof fn lemma_coverage_permutation(a: Seq<Range<i64>>, b: Seq<Range<i64>>)
    requires
        a.to_multiset() == b.to_multiset(),
    ensures
        coverage(a) == coverage(b),
{
    lemma_coverage_sub_permutation(a, b);
    lemma_coverage_sub_permutation(b, a);
    assert(coverage(a) =~= coverage(b));
}

proof fn lemma_coverage_sub_permutation(a: Seq<Range<i64>>, b: Seq<Range<i64>>)
    requires
        a.to_multiset() == b.to_multiset(),
    ensures
        coverage(a).subset_of(coverage(b)),
{
    a.to_multiset_ensures();
    b.to_multiset_ensures();
    assert forall|x: int| coverage(a).contains(x) implies coverage(b).contains(x) by {
        let i = choose|i: int| 0 <= i < a.len() && holds(a[i], x);
        assert(a.contains(a[i]));
        assert(b.to_multiset().count(a[i]) > 0);
        assert(b.contains(a[i]));
        let j = choose|j: int| 0 <= j < b.len() && b[j] == a[i];
        assert(holds(b[j], x));
    }
}

/// Leaving out every empty interval changes nothing of what is covered.
pub proof fn lemma_coverage_discard_empty(s: Seq<Range<i64>>)
    ensures
        coverage(s.filter(|r: Range<i64>| nonempty(r))) == coverage(s),
{
    let keep = |r: Range<i64>| nonempty(r);
    let t = s.filter(keep);
    assert forall|x: int| coverage(t).contains(x) <==> coverage(s).contains(x) by {
        if covered(t, x) {
            let i = choose|i: int| 0 <= i < t.len() && holds(t[i], x);
            assert(t.contains(t[i]));
            s.lemma_filter_contains_rev(keep, t[i]);
            let j = choose|j: int| 0 <= j < s.len() && s[j] == t[i];
            assert(holds(s[j], x));
        }
        if covered(s, x) {
            let j = choose|j: int| 0 <= j < s.len() && holds(s[j], x);
            assert(keep(s[j]));
            s.lemma_filter_contains(keep, j);
            let i = choose|i: int| 0 <= i < t.len() && t[i] == s[j];
            assert(holds(t[i], x));
        }
    }
    assert(coverage(t) =~= coverage(s));
}

/// An empty interval, put in at any place, changes nothing of what is covered.
pub proof fn lemma_coverage_insert_empty(s: Seq<Range<i64>>, at: int, r: Range<i64>)
    requires
        0 <= at <= s.len(),
        !nonempty(r),
    ensures
        coverage(s.insert(at, r)) == coverage(s),
{
    let t = s.insert(at, r);
    assert forall|x: int| coverage(t).contains(x) <==> coverage(s).contains(x) by {
        if covered(t, x) {
            let i = choose|i: int| 0 <= i < t.len() && holds(t[i], x);
            if i < at {
                assert(holds(s[i], x));
            } else {
                assert(i > at);
                assert(holds(s[i - 1], x));
            }
        }
        if covered(s, x) {
            let j = choose|j: int| 0 <= j < s.len() && holds(s[j], x);
            if j < at {
                assert(holds(t[j], x));
            } else {
                assert(holds(t[j + 1], x));
            }
        }
    }
    assert(coverage(t) =~= coverage(s));
}

/// A clamped interval holds the points of the interval that lie within the bounds.
pub proof fn lemma_clamped_holds(r: Range<i64>, lo: i64, hi: i64, x: int)
    ensures
        holds(clamped(r, lo, hi), x) <==> holds(r, x) && lo <= x < hi,
        clamped(r, lo, hi).start <= clamped(r, lo, hi).end,
{
}

} // verus!
