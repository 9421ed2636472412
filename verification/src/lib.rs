//! Interval coverage of diamond-shaped exclusion zones on an integer grid.
//!
//! A sensor knows the closest point to it, so no unknown point lies in the diamond
//! around the sensor that reaches to that point. The library answers two questions
//! about a set of such zones: how many cells of one line lie in a zone, and which is
//! the first cell of a rectangle that lies in none.
//!
//! - [`sensor`]: a zone, and the interval that it excludes on a line.
//! - [`interval`]: half-open intervals and the points that a collection of them covers.
//! - [`sorting`]: sorting intervals by start.
//! - [`merge`]: the size of a union of intervals, and the union as separate blocks.
//! - [`coverage`]: the excluded cells of one line, counted.
//! - [`search`]: the first cell of a rectangle that no zone excludes.
//! - [`parse`]: reading a sensor from a line of text.

pub mod coverage;
pub mod interval;
pub mod merge;
pub mod parse;
pub mod search;
pub mod sensor;
pub mod sorting;
