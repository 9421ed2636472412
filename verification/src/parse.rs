//! Reading a sensor from a line of text.
//!
//! A line names four numbers, each written directly after an equals sign: the sensor's
//! x and y, then the x and y of the closest known point. What else the line holds is
//! not looked at.

use crate::sensor::{representable, Sensor, Zone};
use vstd::prelude::*;

verus! {

/// Why a line does not give a sensor.
#[derive(Clone, Copy, Debug, PartialEq, Eq)]
pub enum LineError {
    /// What follows one of the equals signs is not a number that fits in an `i64`.
    BadNumber,
    /// Every equals sign is followed by a number, but there are fewer than four.
    TooFewNumbers,
    /// The four numbers are there, but the zone they describe cannot be held.
    OutOfReach,
}

/// The byte of the digit `0`.
pub const ZERO: u8 = 48;

/// The byte of the digit `9`.
pub const NINE: u8 = 57;

/// The byte of the minus sign.
pub const MINUS: u8 = 45;

/// The byte of the equals sign.
pub const EQUALS: u8 = 61;

/// Whether `b` is an ASCII digit.
pub open spec fn is_digit(b: u8) -> bool {
    ZERO <= b <= NINE
}

/// Whether `b` is an equals sign.
pub open spec fn is_mark(b: u8) -> bool {
    b == EQUALS
}

/// Whether `b` is a minus sign.
pub open spec fn is_minus(b: u8) -> bool {
    b == MINUS
}

/// Whether `b` can be part of the text of a number: a digit or a minus sign.
pub open spec fn is_number_byte(b: u8) -> bool {
    is_digit(b) || is_minus(b)
}

/// Where the run of digits and minus signs that starts at `from` ends.
pub open spec fn run_end(s: Seq<u8>, from: int) -> int
    decreases s.len() - from,
{
    if 0 <= from < s.len() && is_number_byte(s[from]) {
        run_end(s, from + 1)
    } else {
        from
    }
}

/// The value of a string of digits, read as a decimal numeral.
pub open spec fn decimal(digits: Seq<u8>) -> int
    decreases digits.len(),
{
    if digits.len() == 0 {
        0
    } else {
        10 * decimal(digits.drop_last()) + (digits.last() - ZERO)
    }
}

/// Whether `s` holds digits only.
pub open spec fn all_digits(s: Seq<u8>) -> bool {
    forall|i: int| 0 <= i < s.len() ==> is_digit(#[trigger] s[i])
}

/// The number that `text` writes: an optional minus sign and then one digit or more,
/// with a value in the range of `i64`. Any other text writes no number.
pub open spec fn number(text: Seq<u8>) -> Option<int> {
    let negative = text.len() > 0 && is_minus(text[0]);
    let digits = if negative {
        text.skip(1)
    } else {
        text
    };
    let value = if negative {
        -decimal(digits)
    } else {
        decimal(digits)
    };
    if digits.len() > 0 && all_digits(digits) && i64::MIN <= value <= i64::MAX {
        Some(value)
    } else {
        None
    }
}

/// The number written at `from`: the one that the run of digits and minus signs
/// starting there writes.
pub open spec fn number_at(s: Seq<u8>, from: int) -> Option<int> {
    number(s.subrange(from, run_end(s, from)))
}

/// What follows each of the equals signs among the first `upto` bytes of `s`, in order.
pub open spec fn numbers(s: Seq<u8>, upto: int) -> Seq<Option<int>>
    decreases upto,
{
    if upto <= 0 {
        Seq::empty()
    } else if is_mark(s[upto - 1]) {
        numbers(s, upto - 1).push(number_at(s, upto))
    } else {
        numbers(s, upto - 1)
    }
}

/// What a line gives: the zone that its first four numbers describe, or the reason why
/// it gives none.
pub open spec fn parsed(s: Seq<u8>) -> Result<Zone, LineError> {
    let found = numbers(s, s.len() as int);
    if exists|k: int| 0 <= k < found.len() && #[trigger] found[k] is None {
        Err(LineError::BadNumber)
    } else if found.len() < 4 {
        Err(LineError::TooFewNumbers)
    } else if !representable(found[0]->0, found[1]->0, found[2]->0, found[3]->0) {
        Err(LineError::OutOfReach)
    } else {
        Ok(Zone::of(found[0]->0, found[1]->0, found[2]->0, found[3]->0))
    }
}

/// A run ends at or after the place where it starts, and within the text.
proof fn lemma_run_bounds(s: Seq<u8>, from: int)
    requires
        0 <= from <= s.len(),
    ensures
        from <= run_end(s, from) <= s.len(),
        forall|i: int| from <= i < run_end(s, from) ==> is_number_byte(#[trigger] s[i]),
        run_end(s, from) < s.len() ==> !is_number_byte(s[run_end(s, from)]),
    decreases s.len() - from,
{
    if from < s.len() && is_number_byte(s[from]) {
        lemma_run_bounds(s, from + 1);
    }
}

/// A run that starts at `from` and holds all bytes up to `to` ends where the run that
/// starts at `to` ends.
proof fn lemma_run_continues(s: Seq<u8>, from: int, to: int)
    requires
        0 <= from <= to <= s.len(),
        forall|i: int| from <= i < to ==> is_number_byte(#[trigger] s[i]),
    ensures
        run_end(s, from) == run_end(s, to),
    decreases to - from,
{
    if from < to {
        lemma_run_continues(s, from + 1, to);
    }
}

/// The numbers found in a shorter part of the line are the first of those found in a
/// longer part.
proof fn lemma_numbers_prefix(s: Seq<u8>, shorter: int, longer: int)
    requires
        0 <= shorter <= longer <= s.len(),
    ensures
        numbers(s, shorter).len() <= numbers(s, longer).len(),
        forall|k: int|
            0 <= k < numbers(s, shorter).len() ==> numbers(s, shorter)[k] == numbers(s, longer)[k],
    decreases longer - shorter,
{
    if shorter < longer {
        lemma_numbers_prefix(s, shorter, longer - 1);
    }
}

/// Decides `is_digit`.
fn digit(b: u8) -> (r: bool)
    ensures
        r == is_digit(b),
{
    ZERO <= b && b <= NINE
}

/// Reads the number written at `from`.
fn read_number(line: &[u8], from: usize) -> (r: Option<i64>)
    requires
        from <= line.len(),
    ensures
        match r {
            Some(v) => number_at(line@, from as int) == Some(v as int),
            None => number_at(line@, from as int) is None,
        },
{
    let ghost s = line@;
    let negative: bool = from < line.len() && line[from] == MINUS;
    let first: usize = if negative {
        from + 1
    } else {
        from
    };
    let limit: i128 = 0x8000_0000_0000_0000;
    let mut magnitude: i128 = 0;
    let mut too_big: bool = false;
    let mut j: usize = first;
    while j < line.len() && digit(line[j])
        invariant
            first <= j <= line.len(),
            s == line@,
            limit == 0x8000_0000_0000_0000,
            forall|i: int| first <= i < j ==> is_digit(#[trigger] s[i]),
            !too_big ==> magnitude == decimal(s.subrange(first as int, j as int)),
            !too_big ==> 0 <= magnitude <= limit,
            too_big ==> decimal(s.subrange(first as int, j as int)) > limit,
        decreases line.len() - j,
    {
        proof {
            let grown = s.subrange(first as int, j + 1);
            assert(grown.drop_last() =~= s.subrange(first as int, j as int));
            assert(grown.last() == s[j as int]);
        }
        if !too_big {
            magnitude = magnitude * 10 + (line[j] - ZERO) as i128;
            if magnitude > limit {
                too_big = true;
            }
        }
        j += 1;
    }
    proof {
        lemma_run_bounds(s, from as int);
        lemma_run_continues(s, from as int, j as int);
        lemma_run_bounds(s, j as int);
    }
    let ghost end = run_end(s, from as int);
    let ghost text = s.subrange(from as int, end);
    let ghost digits = if negative {
        text.skip(1)
    } else {
        text
    };
    if j < line.len() && line[j] == MINUS {
        proof {
            if j > first || negative {
                assert(digits[j - first] == s[j as int]);
            }
        }
        return None;
    }
    proof {
        assert(end == j);
        assert(digits =~= s.subrange(first as int, j as int));
    }
    if j == first || too_big {
        return None;
    }
    let value: i128 = if negative {
        -magnitude
    } else {
        magnitude
    };
    if value >= i64::MIN as i128 && value <= i64::MAX as i128 {
        Some(value as i64)
    } else {
        None
    }
}

/// Reads a sensor from a line of text.
///
/// The sensor is made of the first four numbers that the line writes after an equals
/// sign. The line is refused where one of its equals signs, also a later one, is not
/// followed by a number.
pub fn parse_sensor(line: &[u8]) -> (r: Result<Sensor, LineError>)
    ensures
        match r {
            Ok(sensor) => parsed(line@) == Ok::<Zone, LineError>(sensor@),
            Err(e) => parsed(line@) == Err::<Zone, LineError>(e),
        },
{
    let mut found: Vec<i64> = Vec::new();
    let mut i: usize = 0;
    while i < line.len()
        invariant
            i <= line.len(),
            numbers(line@, i as int).len() == found.len(),
            forall|k: int|
                0 <= k < found.len() ==> #[trigger] numbers(line@, i as int)[k] == Some(
                    found@[k] as int,
                ),
        decreases line.len() - i,
    {
        if line[i] == EQUALS {
            match read_number(line, i + 1) {
                Some(v) => {
                    found.push(v);
                },
                None => {
                    proof {
                        let all = numbers(line@, line.len() as int);
                        let k = numbers(line@, i as int).len() as int;
                        lemma_numbers_prefix(line@, i + 1, line.len() as int);
                        assert(numbers(line@, i + 1)[k] is None);
                        assert(all[k] is None);
                    }
                    return Err(LineError::BadNumber);
                },
            }
        }
        i += 1;
    }
    if found.len() < 4 {
        return Err(LineError::TooFewNumbers);
    }
    match Sensor::try_new(found[0], found[1], found[2], found[3]) {
        Some(sensor) => Ok(sensor),
        None => Err(LineError::OutOfReach),
    }
}

} // verus!
