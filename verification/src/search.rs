//! Finding the first cell of a bounded region that no zone excludes.

use crate::coverage::{excluded, excluded_on_line, lemma_zone_order, line_ranges};
use crate::interval::{clamp_all, coverage, covered, holds};
use crate::merge::merge_intervals;
use crate::sensor::Sensor;
use vstd::prelude::*;

verus! {

/// A rectangle of cells: the x-coordinates from `min_x` up to but not including
/// `max_exclusive_x`, on the lines from `min_y` up to but not including
/// `max_exclusive_y`.
#[derive(Clone, Copy, Debug, PartialEq, Eq)]
pub struct SearchBound {
    pub min_x: i64,
    pub max_exclusive_x: i64,
    pub min_y: i64,
    pub max_exclusive_y: i64,
}

impl SearchBound {
    /// Whether the cell `(x, y)` lies in the rectangle.
    pub open spec fn contains(self, x: int, y: int) -> bool {
        self.min_x <= x < self.max_exclusive_x && self.min_y <= y < self.max_exclusive_y
    }
}

/// Whether `(x2, y2)` comes before `(x, y)` when the cells are read line by line, each
/// line from left to right.
pub open spec fn earlier(x2: int, y2: int, x: int, y: int) -> bool {
    y2 < y || (y2 == y && x2 < x)
}

/// Whether `(x, y)` is the first cell of the rectangle that no zone excludes.
pub open spec fn is_first_gap(zones: Seq<Sensor>, bound: SearchBound, x: int, y: int) -> bool {
    &&& bound.contains(x, y)
    &&& !excluded(zones, x, y)
    &&& forall|x2: int, y2: int|
        #[trigger] bound.contains(x2, y2) && earlier(x2, y2, x, y) ==> excluded(zones, x2, y2)
}

/// Whether the zones exclude every cell of the rectangle.
pub open spec fn fully_excluded(zones: Seq<Sensor>, bound: SearchBound) -> bool {
    forall|x: int, y: int| #[trigger] bound.contains(x, y) ==> excluded(zones, x, y)
}

/// Whether `x` is the leftmost cell with `min_x <= x < max_exclusive_x` on line `y`
/// that no zone excludes.
pub open spec fn is_first_gap_on_line(
    zones: Seq<Sensor>,
    y: int,
    min_x: int,
    max_exclusive_x: int,
    x: int,
) -> bool {
    &&& min_x <= x < max_exclusive_x
    &&& !excluded(zones, x, y)
    &&& forall|c: int| min_x <= c < x ==> #[trigger] excluded(zones, c, y)
}

/// Whether the zones exclude every cell with `min_x <= x < max_exclusive_x` on line `y`.
pub open spec fn line_fully_excluded(
    zones: Seq<Sensor>,
    y: int,
    min_x: int,
    max_exclusive_x: int,
) -> bool {
    forall|c: int| min_x <= c < max_exclusive_x ==> #[trigger] excluded(zones, c, y)
}

/// The leftmost cell with `min_x <= x < max_exclusive_x` on line `line` that no zone
/// excludes, or `None` where the zones exclude all of them.
pub fn first_gap_on_line(zones: &Vec<Sensor>, line: i64, min_x: i64, max_exclusive_x: i64) -> (gap:
    Option<i64>)
    ensures
        gap is None <==> line_fully_excluded(
            zones@,
            line as int,
            min_x as int,
            max_exclusive_x as int,
        ),
        gap matches Some(x) ==> is_first_gap_on_line(
            zones@,
            line as int,
            min_x as int,
            max_exclusive_x as int,
            x as int,
        ),
{
    if min_x >= max_exclusive_x {
        return None;
    }
    let ranges = line_ranges(zones, line);
    let cut = clamp_all(&ranges, min_x, max_exclusive_x);
    let blocks = merge_intervals(&cut);
    proof {
        assert forall|c: int| min_x <= c < max_exclusive_x implies (covered(blocks@, c)
            <==> #[trigger] excluded(zones@, c, line as int)) by {
            assert(coverage(blocks@).contains(c) <==> coverage(cut@).contains(c));
            assert(excluded_on_line(zones@, line as int).contains(c) <==> coverage(
                ranges@,
            ).contains(c));
        }
        assert forall|c: int| covered(blocks@, c) implies min_x <= c < max_exclusive_x by {
            assert(coverage(blocks@).contains(c));
            assert(coverage(cut@).contains(c));
        }
    }
    if blocks.len() == 0 {
        proof {
            assert(!covered(blocks@, min_x as int));
            assert(!excluded(zones@, min_x as int, line as int));
        }
        return Some(min_x);
    }
    proof {
        let first = blocks@[0];
        assert(holds(first, first.start as int));
        assert(covered(blocks@, first.start as int));
        assert forall|c: int| first.start <= c < first.end implies covered(blocks@, c) by {
            assert(holds(blocks@[0], c));
        }
        assert forall|c: int| c < first.start || c == first.end implies !covered(blocks@, c) by {
            if covered(blocks@, c) {
                let j = choose|j: int| 0 <= j < blocks.len() && holds(blocks@[j], c);
                if j > 0 {
                    assert(blocks@[0].end < blocks@[j].start);
                }
            }
        }
        if first.end < max_exclusive_x {
            assert(holds(first, first.end - 1));
            assert(covered(blocks@, first.end - 1));
            assert(!excluded(zones@, first.end as int, line as int));
        }
        if first.start > min_x {
            assert(!excluded(zones@, min_x as int, line as int));
        }
    }
    if blocks[0].start > min_x {
        Some(min_x)
    } else if blocks[0].end < max_exclusive_x {
        Some(blocks[0].end)
    } else {
        None
    }
}

/// The first cell of the rectangle that no zone excludes, reading line by line and each
/// line from left to right, or `None` where the zones exclude every cell of it.
pub fn find_gap(zones: &Vec<Sensor>, bound: &SearchBound) -> (gap: Option<(i64, i64)>)
    ensures
        gap is None <==> fully_excluded(zones@, *bound),
        gap matches Some((x, y)) ==> is_first_gap(zones@, *bound, x as int, y as int),
{
    if bound.min_y >= bound.max_exclusive_y {
        return None;
    }
    let mut y: i64 = bound.min_y;
    while y < bound.max_exclusive_y
        invariant
            bound.min_y <= y <= bound.max_exclusive_y,
            forall|x2: int, y2: int|
                #[trigger] bound.contains(x2, y2) && y2 < y ==> excluded(zones@, x2, y2),
        decreases bound.max_exclusive_y - y,
    {
        match first_gap_on_line(zones, y, bound.min_x, bound.max_exclusive_x) {
            Some(x) => {
                proof {
                    assert(bound.contains(x as int, y as int));
                }
                return Some((x, y));
            },
            None => {},
        }
        y += 1;
    }
    None
}

/// Where the zones leave exactly one cell of the rectangle out, that cell is the first
/// gap, and no other cell is.
pub proof fn lemma_single_gap(zones: Seq<Sensor>, bound: SearchBound, x: int, y: int)
    requires
        bound.contains(x, y),
        !excluded(zones, x, y),
        forall|x2: int, y2: int|
            #[trigger] bound.contains(x2, y2) && (x2 != x || y2 != y) ==> excluded(zones, x2, y2),
    ensures
        is_first_gap(zones, bound, x, y),
        !fully_excluded(zones, bound),
        forall|x2: int, y2: int| #[trigger]
            is_first_gap(zones, bound, x2, y2) ==> x2 == x && y2 == y,
{
}

/// The order in which the zones are given plays no part in what the first gap is, nor
/// in whether there is one.
pub proof fn lemma_gap_zone_order(a: Seq<Sensor>, b: Seq<Sensor>, bound: SearchBound)
    requires
        a.to_multiset() == b.to_multiset(),
    ensures
        fully_excluded(a, bound) == fully_excluded(b, bound),
        forall|x: int, y: int| #[trigger]
            is_first_gap(a, bound, x, y) == is_first_gap(b, bound, x, y),
{
    lemma_zone_order(a, b);
    assert forall|x: int, y: int| #[trigger]
        is_first_gap(a, bound, x, y) == is_first_gap(b, bound, x, y) by {
        assert(excluded(a, x, y) == excluded(b, x, y));
    }
}

/// There is at most one first gap.
pub proof fn lemma_first_gap_unique(
    zones: Seq<Sensor>,
    bound: SearchBound,
    x1: int,
    y1: int,
    x2: int,
    y2: int,
)
    requires
        is_first_gap(zones, bound, x1, y1),
        is_first_gap(zones, bound, x2, y2),
    ensures
        x1 == x2,
        y1 == y2,
{
    if earlier(x1, y1, x2, y2) {
        assert(bound.contains(x1, y1));
    } else if earlier(x2, y2, x1, y1) {
        assert(bound.contains(x2, y2));
    }
}

} // verus!
