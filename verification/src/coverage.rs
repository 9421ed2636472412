//! What a set of zones excludes on one line, and how many cells that is.

use crate::interval::{clamp_all, coverage, covered, holds, lemma_coverage_finite};
use crate::merge::merged_length;
use crate::sensor::{lemma_known_point_excluded, lemma_row_is_slice, Sensor};
use std::ops::Range;
use vstd::prelude::*;
use vstd::set_lib::*;

verus! {

/// Whether at least one of the zones excludes the cell `(x, y)`.
pub open spec fn excluded(zones: Seq<Sensor>, x: int, y: int) -> bool {
    exists|i: int| 0 <= i < zones.len() && (#[trigger] zones[i])@.excludes(x, y)
}

/// The x-coordinates on line `y` that at least one of the zones excludes.
pub open spec fn excluded_on_line(zones: Seq<Sensor>, y: int) -> Set<int> {
    Set::new(|x: int| excluded(zones, x, y))
}

/// Whether `(x, y)` is the closest known point of one of the zones.
pub open spec fn known(zones: Seq<Sensor>, x: int, y: int) -> bool {
    exists|i: int|
        0 <= i < zones.len() && (#[trigger] zones[i])@.closest_x == x && zones[i]@.closest_y == y
}

/// The x-coordinates of the known points that lie on line `y`, each once.
pub open spec fn known_on_line(zones: Seq<Sensor>, y: int) -> Set<int> {
    Set::new(|x: int| known(zones, x, y))
}

/// The number of cells on line `y` that at least one zone excludes and that are not a
/// known point.
pub open spec fn excluded_count(zones: Seq<Sensor>, y: int) -> nat {
    excluded_on_line(zones, y).difference(known_on_line(zones, y)).len()
}

/// Whether the widest row of every zone, the one through its centre, lies in
/// `[lo, hi)`.
pub open spec fn rows_within(zones: Seq<Sensor>, lo: int, hi: int) -> bool {
    forall|i: int|
        0 <= i < zones.len() ==> lo <= (#[trigger] zones[i])@.x - zones[i]@.dist && zones[i]@.x
            + zones[i]@.dist + 1 <= hi
}

/// The interval that each zone excludes on line `line`, in the order of the zones.
pub fn line_ranges(zones: &Vec<Sensor>, line: i64) -> (ranges: Vec<Range<i64>>)
    ensures
        ranges.len() == zones.len(),
        forall|i: int|
            0 <= i < zones.len() ==> (#[trigger] ranges@[i]).start == zones@[i]@.row_start(
                line as int,
            ) && ranges@[i].end == zones@[i]@.row_end(line as int),
        coverage(ranges@) == excluded_on_line(zones@, line as int),
{
    let mut ranges: Vec<Range<i64>> = Vec::new();
    let mut i: usize = 0;
    while i < zones.len()
        invariant
            i <= zones.len(),
            ranges.len() == i,
            forall|j: int|
                0 <= j < i ==> (#[trigger] ranges@[j]).start == zones@[j]@.row_start(line as int)
                    && ranges@[j].end == zones@[j]@.row_end(line as int),
            forall|j: int, x: int|
                0 <= j < i ==> (#[trigger] holds(ranges@[j], x) <==> zones@[j]@.excludes(
                    x,
                    line as int,
                )),
        decreases zones.len() - i,
    {
        let r = zones[i].no_beacon_range(line);
        ranges.push(r);
        i += 1;
    }
    proof {
        assert forall|x: int|
            coverage(ranges@).contains(x) <==> excluded_on_line(zones@, line as int).contains(
                x,
            ) by {
            if covered(ranges@, x) {
                let j = choose|j: int| 0 <= j < ranges.len() && holds(ranges@[j], x);
                assert(zones@[j]@.excludes(x, line as int));
            }
            if excluded(zones@, x, line as int) {
                let j = choose|j: int| 0 <= j < zones.len() && zones@[j]@.excludes(x, line as int);
                assert(holds(ranges@[j], x));
            }
        }
        assert(coverage(ranges@) =~= excluded_on_line(zones@, line as int));
    }
    ranges
}

/// The known points on line `line`, each as an interval of one cell.
fn known_ranges(zones: &Vec<Sensor>, line: i64) -> (ranges: Vec<Range<i64>>)
    ensures
        coverage(ranges@) == known_on_line(zones@, line as int),
        known_on_line(zones@, line as int).subset_of(excluded_on_line(zones@, line as int)),
{
    let mut ranges: Vec<Range<i64>> = Vec::new();
    let mut i: usize = 0;
    while i < zones.len()
        invariant
            i <= zones.len(),
            forall|x: int|
                covered(ranges@, x) <==> known(zones@.take(i as int), x, line as int),
            forall|x: int|
                known(zones@.take(i as int), x, line as int) ==> excluded(zones@, x, line as int),
        decreases zones.len() - i,
    {
        let ghost before = ranges@;
        let ghost seen = zones@.take(i as int);
        let ghost next = zones@.take(i + 1);
        let ghost z = zones@[i as int]@;
        let zone = &zones[i];
        proof {
            use_type_invariant(zone);
            lemma_known_point_excluded(z);
        }
        let at_line: bool = zone.closest_y() == line;
        if at_line {
            let x: i64 = zone.closest_x();
            ranges.push(x..x + 1);
        }
        proof {
            assert forall|x: int| covered(ranges@, x) <==> known(next, x, line as int) by {
                if covered(ranges@, x) {
                    let j = choose|j: int| 0 <= j < ranges.len() && holds(ranges@[j], x);
                    if j < before.len() {
                        assert(holds(before[j], x));
                        assert(covered(before, x));
                        assert(known(seen, x, line as int));
                        let m = choose|m: int|
                            0 <= m < seen.len() && (#[trigger] seen[m])@.closest_x == x
                                && seen[m]@.closest_y == line;
                        assert(next[m] == seen[m]);
                    } else {
                        assert(next[i as int]@ == z);
                    }
                }
                if known(next, x, line as int) {
                    let m = choose|m: int|
                        0 <= m < next.len() && (#[trigger] next[m])@.closest_x == x
                            && next[m]@.closest_y == line;
                    if m < i {
                        assert(seen[m] == next[m]);
                        assert(known(seen, x, line as int));
                        assert(covered(before, x));
                        let j = choose|j: int| 0 <= j < before.len() && holds(before[j], x);
                        assert(holds(ranges@[j], x));
                    } else {
                        assert(holds(ranges@[before.len() as int], x));
                    }
                }
            }
            assert forall|x: int| known(next, x, line as int) implies excluded(
                zones@,
                x,
                line as int,
            ) by {
                let m = choose|m: int|
                    0 <= m < next.len() && (#[trigger] next[m])@.closest_x == x
                        && next[m]@.closest_y == line;
                if m < i {
                    assert(seen[m] == next[m]);
                    assert(known(seen, x, line as int));
                } else {
                    assert(zones@[i as int]@.excludes(x, line as int));
                }
            }
        }
        i += 1;
    }
    proof {
        assert(zones@.take(i as int) =~= zones@);
        assert(coverage(ranges@) =~= known_on_line(zones@, line as int));
    }
    ranges
}

/// The number of cells on line `line_y` that at least one zone excludes and that are
/// not themselves a known point.
///
/// Every known point on the line lies in its own zone, so the count is the number of
/// excluded cells less the number of distinct known points on the line. The number of
/// excluded cells must fit in an `i64`.
pub fn count_excluded(line_y: i64, zones: &Vec<Sensor>) -> (count: i64)
    requires
        excluded_on_line(zones@, line_y as int).len() <= i64::MAX,
    ensures
        count == excluded_count(zones@, line_y as int),
        count == excluded_on_line(zones@, line_y as int).len() - known_on_line(
            zones@,
            line_y as int,
        ).len(),
        count >= 0,
{
    let ranges = line_ranges(zones, line_y);
    let total = merged_length(&ranges);
    let marks = known_ranges(zones, line_y);
    proof {
        let all = excluded_on_line(zones@, line_y as int);
        let taken = known_on_line(zones@, line_y as int);
        lemma_coverage_finite(ranges@);
        lemma_coverage_finite(marks@);
        lemma_len_subset(taken, all);
        lemma_set_difference_len(all, taken);
        assert(all.intersect(taken) =~= taken);
    }
    let occupied = merged_length(&marks);
    total - occupied
}

/// The number of cells on line `line` with `min_x <= x < after_max_x` that at least one
/// zone excludes. The count must fit in an `i64`.
pub fn not_usable_count(line: i64, sensors: &Vec<Sensor>, min_x: i64, after_max_x: i64) -> (count:
    i64)
    requires
        excluded_on_line(sensors@, line as int).intersect(
            set_int_range(min_x as int, after_max_x as int),
        ).len() <= i64::MAX,
    ensures
        count == excluded_on_line(sensors@, line as int).intersect(
            set_int_range(min_x as int, after_max_x as int),
        ).len(),
{
    let ranges = line_ranges(sensors, line);
    let cut = clamp_all(&ranges, min_x, after_max_x);
    merged_length(&cut)
}

/// Decides whether the widest row of every zone lies in `[lo, hi)`.
pub fn all_rows_within(zones: &Vec<Sensor>, lo: i64, hi: i64) -> (ok: bool)
    ensures
        ok == rows_within(zones@, lo as int, hi as int),
{
    let mut i: usize = 0;
    while i < zones.len()
        invariant
            i <= zones.len(),
            rows_within(zones@.take(i as int), lo as int, hi as int),
        decreases zones.len() - i,
    {
        let zone = &zones[i];
        proof {
            use_type_invariant(zone);
        }
        if zone.x() - zone.dist() < lo || zone.x() + zone.dist() + 1 > hi {
            return false;
        }
        proof {
            let next = zones@.take(i + 1);
            assert forall|j: int| 0 <= j < next.len() implies lo <= (#[trigger] next[j])@.x
                - next[j]@.dist && next[j]@.x + next[j]@.dist + 1 <= hi by {
                if j < i {
                    assert(zones@.take(i as int)[j] == next[j]);
                }
            }
        }
        i += 1;
    }
    proof {
        assert(zones@.take(i as int) =~= zones@);
    }
    true
}

/// What the zones exclude on a line is what all but the last exclude, and the row of
/// the last.
proof fn lemma_excluded_push(zones: Seq<Sensor>, z: Sensor, y: int)
    ensures
        excluded_on_line(zones.push(z), y) == excluded_on_line(zones, y).union(
            set_int_range(z@.row_start(y), z@.row_end(y)),
        ),
{
    let more = zones.push(z);
    let row = set_int_range(z@.row_start(y), z@.row_end(y));
    assert forall|x: int|
        excluded_on_line(more, y).contains(x) <==> excluded_on_line(zones, y).union(row).contains(
            x,
        ) by {
        lemma_row_is_slice(z@, x, y);
        if excluded(more, x, y) {
            let i = choose|i: int| 0 <= i < more.len() && (#[trigger] more[i])@.excludes(x, y);
            if i < zones.len() {
                assert(zones[i]@.excludes(x, y));
            }
        }
        if excluded(zones, x, y) {
            let i = choose|i: int| 0 <= i < zones.len() && (#[trigger] zones[i])@.excludes(x, y);
            assert(more[i]@.excludes(x, y));
        }
        if row.contains(x) {
            assert(more[zones.len() as int]@.excludes(x, y));
        }
    }
    assert(excluded_on_line(more, y) =~= excluded_on_line(zones, y).union(row));
}

/// Finitely many zones exclude finitely many cells of a line.
pub proof fn lemma_excluded_finite(zones: Seq<Sensor>, y: int)
    ensures
        excluded_on_line(zones, y).finite(),
    decreases zones.len(),
{
    if zones.len() == 0 {
        assert(excluded_on_line(zones, y) =~= Set::<int>::empty());
    } else {
        let z = zones.last();
        lemma_excluded_finite(zones.drop_last(), y);
        lemma_excluded_push(zones.drop_last(), z, y);
        assert(zones.drop_last().push(z) =~= zones);
        if z@.row_start(y) <= z@.row_end(y) {
            lemma_int_range(z@.row_start(y), z@.row_end(y));
        } else {
            assert(set_int_range(z@.row_start(y), z@.row_end(y)) =~= Set::<int>::empty());
        }
    }
}

/// Every known point is excluded by its own zone, so the known points on a line are
/// taken off the excluded cells of that line one for one.
pub proof fn lemma_known_points_subtract(zones: Seq<Sensor>, y: int)
    requires
        forall|i: int| 0 <= i < zones.len() ==> (#[trigger] zones[i]).wf(),
    ensures
        known_on_line(zones, y).subset_of(excluded_on_line(zones, y)),
        known_on_line(zones, y).finite(),
        excluded_count(zones, y) == excluded_on_line(zones, y).len() - known_on_line(
            zones,
            y,
        ).len(),
{
    let all = excluded_on_line(zones, y);
    let taken = known_on_line(zones, y);
    assert forall|x: int| taken.contains(x) implies all.contains(x) by {
        let i = choose|i: int|
            0 <= i < zones.len() && (#[trigger] zones[i])@.closest_x == x && zones[i]@.closest_y
                == y;
        assert(zones[i].wf());
        lemma_known_point_excluded(zones[i]@);
    }
    lemma_excluded_finite(zones, y);
    lemma_len_subset(taken, all);
    lemma_set_difference_len(all, taken);
    assert(all.intersect(taken) =~= taken);
}

/// On a line with exactly one known point, one cell less is counted than the zones
/// exclude.
pub proof fn lemma_single_known_point(zones: Seq<Sensor>, y: int, x: int)
    requires
        forall|i: int| 0 <= i < zones.len() ==> (#[trigger] zones[i]).wf(),
        known(zones, x, y),
        forall|x2: int| known(zones, x2, y) ==> x2 == x,
    ensures
        excluded_count(zones, y) == excluded_on_line(zones, y).len() - 1,
{
    lemma_known_points_subtract(zones, y);
    assert(known_on_line(zones, y) =~= set![x]);
}

/// On a line without a known point, every excluded cell is counted.
pub proof fn lemma_no_known_point(zones: Seq<Sensor>, y: int)
    requires
        forall|x: int| !known(zones, x, y),
    ensures
        excluded_count(zones, y) == excluded_on_line(zones, y).len(),
{
    assert(known_on_line(zones, y) =~= Set::<int>::empty());
    assert(excluded_on_line(zones, y).difference(known_on_line(zones, y)) =~= excluded_on_line(
        zones,
        y,
    ));
}

/// The order in which the zones are given plays no part: two collections that hold the
/// same zones, each as often as the other, exclude the same cells and have the same
/// known points.
pub proof fn lemma_zone_order(a: Seq<Sensor>, b: Seq<Sensor>)
    requires
        a.to_multiset() == b.to_multiset(),
    ensures
        forall|x: int, y: int| #[trigger] excluded(a, x, y) == excluded(b, x, y),
        forall|x: int, y: int| #[trigger] known(a, x, y) == known(b, x, y),
        forall|y: int| #[trigger] excluded_on_line(a, y) == excluded_on_line(b, y),
        forall|y: int| #[trigger] known_on_line(a, y) == known_on_line(b, y),
        forall|y: int| #[trigger] excluded_count(a, y) == excluded_count(b, y),
{
    assert forall|x: int, y: int| #[trigger] excluded(a, x, y) == excluded(b, x, y) by {
        lemma_zone_order_excluded(a, b, x, y);
        lemma_zone_order_excluded(b, a, x, y);
    }
    assert forall|x: int, y: int| #[trigger] known(a, x, y) == known(b, x, y) by {
        lemma_zone_order_known(a, b, x, y);
        lemma_zone_order_known(b, a, x, y);
    }
    assert forall|y: int| #[trigger] excluded_on_line(a, y) == excluded_on_line(b, y) by {
        assert(excluded_on_line(a, y) =~= excluded_on_line(b, y));
    }
    assert forall|y: int| #[trigger] known_on_line(a, y) == known_on_line(b, y) by {
        assert(known_on_line(a, y) =~= known_on_line(b, y));
    }
}

/// A zone of `a` is found again in `b`.
proof fn lemma_zone_found(a: Seq<Sensor>, b: Seq<Sensor>, i: int) -> (j: int)
    requires
        a.to_multiset() == b.to_multiset(),
        0 <= i < a.len(),
    ensures
        0 <= j < b.len(),
        b[j] == a[i],
{
    a.to_multiset_ensures();
    b.to_multiset_ensures();
    assert(a.contains(a[i]));
    assert(b.to_multiset().count(a[i]) > 0);
    choose|j: int| 0 <= j < b.len() && b[j] == a[i]
}

proof fn lemma_zone_order_excluded(a: Seq<Sensor>, b: Seq<Sensor>, x: int, y: int)
    requires
        a.to_multiset() == b.to_multiset(),
    ensures
        excluded(a, x, y) ==> excluded(b, x, y),
{
    if excluded(a, x, y) {
        let i = choose|i: int| 0 <= i < a.len() && (#[trigger] a[i])@.excludes(x, y);
        let j = lemma_zone_found(a, b, i);
        assert(b[j]@.excludes(x, y));
    }
}

proof fn lemma_zone_order_known(a: Seq<Sensor>, b: Seq<Sensor>, x: int, y: int)
    requires
        a.to_multiset() == b.to_multiset(),
    ensures
        known(a, x, y) ==> known(b, x, y),
{
    if known(a, x, y) {
        let i = choose|i: int|
            0 <= i < a.len() && (#[trigger] a[i])@.closest_x == x && a[i]@.closest_y == y;
        let j = lemma_zone_found(a, b, i);
        assert(b[j]@.closest_x == x);
    }
}

/// No more cells are excluded between two bounds than lie between them.
pub proof fn lemma_count_within_bounds(zones: Seq<Sensor>, y: int, lo: int, hi: int)
    ensures
        excluded_on_line(zones, y).intersect(set_int_range(lo, hi)).finite(),
        lo <= hi ==> excluded_on_line(zones, y).intersect(set_int_range(lo, hi)).len() <= hi - lo,
        lo >= hi ==> excluded_on_line(zones, y).intersect(set_int_range(lo, hi)).len() == 0,
{
    let cut = excluded_on_line(zones, y).intersect(set_int_range(lo, hi));
    lemma_excluded_finite(zones, y);
    lemma_len_subset(cut, excluded_on_line(zones, y));
    if lo <= hi {
        lemma_int_range(lo, hi);
        lemma_len_subset(cut, set_int_range(lo, hi));
    }
    if lo >= hi {
        assert(cut =~= Set::<int>::empty());
    }
}

/// Zones whose widest rows all lie in `[lo, hi)` exclude at most `hi - lo` cells of a
/// line.
pub proof fn lemma_excluded_within(zones: Seq<Sensor>, y: int, lo: int, hi: int)
    requires
        lo <= hi,
        rows_within(zones, lo, hi),
    ensures
        excluded_on_line(zones, y).subset_of(set_int_range(lo, hi)),
        excluded_on_line(zones, y).len() <= hi - lo,
{
    assert forall|x: int| excluded_on_line(zones, y).contains(x) implies set_int_range(
        lo,
        hi,
    ).contains(x) by {
        let i = choose|i: int| 0 <= i < zones.len() && (#[trigger] zones[i])@.excludes(x, y);
    }
    lemma_int_range(lo, hi);
    lemma_len_subset(excluded_on_line(zones, y), set_int_range(lo, hi));
}

} // verus!
