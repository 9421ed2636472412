//! Exclusion zones: a centre and the Manhattan distance to its nearest known point.
//!
//! A zone excludes every grid cell that is no farther from its centre than the known
//! point is. On a line `y` these cells form one interval of x-coordinates.

use crate::interval::holds;
use std::ops::Range;
use vstd::prelude::*;

verus! {

/// Absolute difference of two integers.
pub open spec fn span(a: int, b: int) -> int {
    if a >= b {
        a - b
    } else {
        b - a
    }
}

/// Manhattan distance between `(x1, y1)` and `(x2, y2)`.
pub open spec fn manhattan(x1: int, y1: int, x2: int, y2: int) -> int {
    span(x1, x2) + span(y1, y2)
}

/// Manhattan distance between two grid points, for points whose distance fits in an `i64`.
pub fn manhattan_dist(x1: i64, y1: i64, x2: i64, y2: i64) -> (d: i64)
    requires
        manhattan(x1 as int, y1 as int, x2 as int, y2 as int) <= i64::MAX,
    ensures
        d == manhattan(x1 as int, y1 as int, x2 as int, y2 as int),
{
    let dx: i64 = if x1 >= x2 {
        x1 - x2
    } else {
        x2 - x1
    };
    let dy: i64 = if y1 >= y2 {
        y1 - y2
    } else {
        y2 - y1
    };
    dx + dy
}

/// What a sensor is, as mathematical integers: its own position, the position of the
/// closest known point, and the distance between the two.
pub struct Zone {
    pub x: int,
    pub y: int,
    pub closest_x: int,
    pub closest_y: int,
    pub dist: int,
}

impl Zone {
    /// The zone with the given centre and closest known point.
    pub open spec fn of(x: int, y: int, closest_x: int, closest_y: int) -> Zone {
        Zone { x, y, closest_x, closest_y, dist: manhattan(x, y, closest_x, closest_y) }
    }

    /// The distance is the one between the two points, and the widest row of the zone,
    /// as a half-open interval, has both ends in the range of `i64`.
    pub open spec fn wf(self) -> bool {
        &&& self.dist == manhattan(self.x, self.y, self.closest_x, self.closest_y)
        &&& i64::MIN <= self.x - self.dist
        &&& self.x + self.dist + 1 <= i64::MAX
    }

    /// Whether the cell `(x, y)` is in the zone: no farther from the centre than the
    /// closest known point is.
    pub open spec fn excludes(self, x: int, y: int) -> bool {
        manhattan(self.x, self.y, x, y) <= self.dist
    }

    /// Whether the zone has a cell on line `y`.
    pub open spec fn reaches(self, y: int) -> bool {
        span(y, self.y) <= self.dist
    }

    /// How far the zone extends to either side of its centre column on line `y`.
    pub open spec fn half_width(self, y: int) -> int {
        self.dist - span(y, self.y)
    }

    /// First x-coordinate of the zone's interval on line `y`; 0 where it has none.
    pub open spec fn row_start(self, y: int) -> int {
        if self.reaches(y) {
            self.x - self.half_width(y)
        } else {
            0
        }
    }

    /// The x-coordinate just past the zone's interval on line `y`; 0 where it has none.
    pub open spec fn row_end(self, y: int) -> int {
        if self.reaches(y) {
            self.x + self.half_width(y) + 1
        } else {
            0
        }
    }
}

/// The width of a zone's row: `2 * dist + 1` cells on the line through its centre, one
/// cell on the two lines that are `dist` away from it, and none on the lines further out.
pub proof fn lemma_row_width(z: Zone, y: int)
    requires
        z.wf(),
    ensures
        z.row_end(z.y) - z.row_start(z.y) == 2 * z.dist + 1,
        span(y, z.y) == z.dist ==> z.row_end(y) - z.row_start(y) == 1,
        span(y, z.y) > z.dist ==> z.row_end(y) == z.row_start(y),
        z.reaches(y) ==> z.row_end(y) - z.row_start(y) == 2 * z.half_width(y) + 1,
{
}

/// The row of a zone on a line holds exactly the cells of that line that the zone
/// excludes.
pub proof fn lemma_row_is_slice(z: Zone, x: int, y: int)
    ensures
        z.row_start(y) <= x < z.row_end(y) <==> z.excludes(x, y),
{
}

/// The closest known point lies on the rim of its own zone, and so in the zone's row
/// on the point's line.
pub proof fn lemma_known_point_excluded(z: Zone)
    requires
        z.wf(),
    ensures
        manhattan(z.x, z.y, z.closest_x, z.closest_y) == z.dist,
        z.excludes(z.closest_x, z.closest_y),
        z.row_start(z.closest_y) <= z.closest_x < z.row_end(z.closest_y),
{
}

/// Whether a sensor at `(x, y)` with closest known point `(closest_x, closest_y)` can be
/// held: the widest row of its zone must have both ends in the range of `i64`.
pub open spec fn representable(x: int, y: int, closest_x: int, closest_y: int) -> bool {
    Zone::of(x, y, closest_x, closest_y).wf()
}

/// A sensor, the closest known point to it, and the distance between them.
#[derive(Clone, Copy, Debug, PartialEq, Eq)]
pub struct Sensor {
    x: i64,
    y: i64,
    closest_x: i64,
    closest_y: i64,
    dist: i64,
}

impl View for Sensor {
    type V = Zone;

    closed spec fn view(&self) -> Zone {
        Zone {
            x: self.x as int,
            y: self.y as int,
            closest_x: self.closest_x as int,
            closest_y: self.closest_y as int,
            dist: self.dist as int,
        }
    }
}

impl Sensor {
    /// What holds of every sensor: it keeps the distance between its two points, and
    /// the widest row of its zone has both ends in the range of `i64`.
    #[verifier::type_invariant]
    pub open spec fn wf(&self) -> bool {
        self@.wf()
    }

    /// A sensor at `(x, y)` whose closest known point is `(closest_x, closest_y)`.
    pub fn new(x: i64, y: i64, closest_x: i64, closest_y: i64) -> (s: Sensor)
        requires
            representable(x as int, y as int, closest_x as int, closest_y as int),
        ensures
            s@ == Zone::of(x as int, y as int, closest_x as int, closest_y as int),
            s.wf(),
    {
        Sensor { x, y, closest_x, closest_y, dist: manhattan_dist(x, y, closest_x, closest_y) }
    }

    /// A sensor at `(x, y)` whose closest known point is `(closest_x, closest_y)`, or
    /// `None` where such a sensor cannot be held.
    pub fn try_new(x: i64, y: i64, closest_x: i64, closest_y: i64) -> (s: Option<Sensor>)
        ensures
            s is Some <==> representable(x as int, y as int, closest_x as int, closest_y as int),
            s matches Some(v) ==> v@ == Zone::of(
                x as int,
                y as int,
                closest_x as int,
                closest_y as int,
            ) && v.wf(),
    {
        let dx: i128 = if x >= closest_x {
            x as i128 - closest_x as i128
        } else {
            closest_x as i128 - x as i128
        };
        let dy: i128 = if y >= closest_y {
            y as i128 - closest_y as i128
        } else {
            closest_y as i128 - y as i128
        };
        let dist: i128 = dx + dy;
        if x as i128 - dist >= i64::MIN as i128 && x as i128 + dist + 1 <= i64::MAX as i128 {
            Some(Sensor { x, y, closest_x, closest_y, dist: dist as i64 })
        } else {
            None
        }
    }

    /// The x-coordinates on line `line_num` that the sensor's zone excludes, as a
    /// half-open interval; `0..0` where the zone does not reach the line.
    pub fn no_beacon_range(&self, line_num: i64) -> (r: Range<i64>)
        ensures
            r.start == self@.row_start(line_num as int),
            r.end == self@.row_end(line_num as int),
            forall|x: int| holds(r, x) <==> self@.excludes(x, line_num as int),
    {
        proof {
            use_type_invariant(self);
        }
        let line_dist: i128 = if line_num >= self.y {
            line_num as i128 - self.y as i128
        } else {
            self.y as i128 - line_num as i128
        };
        if line_dist > self.dist as i128 {
            return 0..0;
        }
        let remaining_x: i64 = self.dist - line_dist as i64;
        let left: i64 = self.x - remaining_x;
        let right: i64 = self.x + remaining_x + 1;
        left..right
    }
}

impl Sensor {
    /// The sensor's x-coordinate.
    pub fn x(&self) -> (v: i64)
        ensures
            v == self@.x,
    {
        self.x
    }

    /// The sensor's y-coordinate.
    pub fn y(&self) -> (v: i64)
        ensures
            v == self@.y,
    {
        self.y
    }

    /// The x-coordinate of the closest known point.
    pub fn closest_x(&self) -> (v: i64)
        ensures
            v == self@.closest_x,
    {
        self.closest_x
    }

    /// The y-coordinate of the closest known point.
    pub fn closest_y(&self) -> (v: i64)
        ensures
            v == self@.closest_y,
    {
        self.closest_y
    }

    /// The Manhattan distance from the sensor to the closest known point.
    pub fn dist(&self) -> (v: i64)
        ensures
            v == self@.dist,
            v == manhattan(self@.x, self@.y, self@.closest_x, self@.closest_y),
            v >= 0,
    {
        proof {
            use_type_invariant(self);
        }
        self.dist
    }
}

} // verus!
