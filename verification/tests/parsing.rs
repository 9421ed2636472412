use beacon_exclusion::parse::{parse_sensor, LineError};
use beacon_exclusion::sensor::Sensor;

fn numbers_of(s: &Sensor) -> (i64, i64, i64, i64, i64) {
    (s.x(), s.y(), s.closest_x(), s.closest_y(), s.dist())
}

#[test]
fn parse_sensor_reads_a_report_line() {
    let line = "Sensor at x=2, y=18: closest beacon is at x=-2, y=15";
    let s = parse_sensor(line.as_bytes()).unwrap();
    assert_eq!(numbers_of(&s), (2, 18, -2, 15, 7));
    assert_eq!(s, Sensor::new(2, 18, -2, 15));
}

#[test]
fn parse_sensor_reads_negative_numbers() {
    let line = "Sensor at x=-8, y=-7: closest beacon is at x=-2, y=-10";
    let s = parse_sensor(line.as_bytes()).unwrap();
    assert_eq!(numbers_of(&s), (-8, -7, -2, -10, 9));
}

#[test]
fn parse_sensor_looks_only_at_what_follows_the_equals_signs() {
    let s = parse_sensor("=1=2=3=4".as_bytes()).unwrap();
    assert_eq!(numbers_of(&s), (1, 2, 3, 4, 4));
    let t = parse_sensor("a=10b=20 c=30;d=40 and so on".as_bytes()).unwrap();
    assert_eq!(numbers_of(&t), (10, 20, 30, 40, 40));
}

#[test]
fn parse_sensor_accepts_leading_zeros_and_minus_zero() {
    let line = "x=007, y=-0: x=000, y=0000000000000000000000000000012";
    let s = parse_sensor(line.as_bytes()).unwrap();
    assert_eq!(numbers_of(&s), (7, 0, 0, 12, 19));
}

#[test]
fn parse_sensor_ignores_numbers_after_the_fourth() {
    let s = parse_sensor("x=1, y=2: x=3, y=4, z=5, w=-6".as_bytes()).unwrap();
    assert_eq!(numbers_of(&s), (1, 2, 3, 4, 4));
}

#[test]
fn parse_sensor_too_few_numbers() {
    assert_eq!(parse_sensor("".as_bytes()), Err(LineError::TooFewNumbers));
    assert_eq!(parse_sensor("no sensor here".as_bytes()), Err(LineError::TooFewNumbers));
    assert_eq!(parse_sensor("x=1".as_bytes()), Err(LineError::TooFewNumbers));
    assert_eq!(parse_sensor("x=1, y=2: x=3".as_bytes()), Err(LineError::TooFewNumbers));
    assert_eq!(parse_sensor("1 2 3 4".as_bytes()), Err(LineError::TooFewNumbers));
}

#[test]
fn parse_sensor_bad_number() {
    assert_eq!(parse_sensor("x=, y=2: x=3, y=4".as_bytes()), Err(LineError::BadNumber));
    assert_eq!(parse_sensor("x= 1, y=2: x=3, y=4".as_bytes()), Err(LineError::BadNumber));
    assert_eq!(parse_sensor("x=+1, y=2: x=3, y=4".as_bytes()), Err(LineError::BadNumber));
    assert_eq!(parse_sensor("x=1, y=-: x=3, y=4".as_bytes()), Err(LineError::BadNumber));
    assert_eq!(parse_sensor("x=1, y=--2: x=3, y=4".as_bytes()), Err(LineError::BadNumber));
    assert_eq!(parse_sensor("x=1, y=2: x=3-1, y=4".as_bytes()), Err(LineError::BadNumber));
    assert_eq!(parse_sensor("x=1, y=2: x=3, y=4-".as_bytes()), Err(LineError::BadNumber));
    assert_eq!(parse_sensor("x=1, y=2: x=3, y=a4".as_bytes()), Err(LineError::BadNumber));
    assert_eq!(parse_sensor("x==1, y=2: x=3, y=4".as_bytes()), Err(LineError::BadNumber));
    assert_eq!(parse_sensor("x=1, y=2: x=3, y=4=".as_bytes()), Err(LineError::BadNumber));
}

#[test]
fn parse_sensor_bad_number_after_the_fourth() {
    assert_eq!(parse_sensor("x=1, y=2: x=3, y=4, z=".as_bytes()), Err(LineError::BadNumber));
    assert_eq!(parse_sensor("x=1, y=2: x=3, y=4, z=five".as_bytes()), Err(LineError::BadNumber));
}

#[test]
fn parse_sensor_bad_number_comes_before_too_few() {
    assert_eq!(parse_sensor("x=1, y=".as_bytes()), Err(LineError::BadNumber));
    assert_eq!(parse_sensor("=".as_bytes()), Err(LineError::BadNumber));
}

#[test]
fn parse_sensor_number_out_of_the_number_range() {
    assert_eq!(
        parse_sensor("x=9223372036854775808, y=2: x=3, y=4".as_bytes()),
        Err(LineError::BadNumber)
    );
    assert_eq!(
        parse_sensor("x=-9223372036854775809, y=2: x=3, y=4".as_bytes()),
        Err(LineError::BadNumber)
    );
    assert_eq!(
        parse_sensor("x=1, y=2: x=3, y=9999999999999999999999999999999999999999".as_bytes()),
        Err(LineError::BadNumber)
    );
    assert_eq!(
        parse_sensor("x=1, y=2: x=3, y=-340282366920938463463374607431768211456".as_bytes()),
        Err(LineError::BadNumber)
    );
}

#[test]
fn parse_sensor_numbers_at_the_ends_of_the_number_range() {
    let low = "x=-9223372036854775808, y=5: x=-9223372036854775808, y=5";
    let s = parse_sensor(low.as_bytes()).unwrap();
    assert_eq!(numbers_of(&s), (i64::MIN, 5, i64::MIN, 5, 0));
    let high = "x=9223372036854775806, y=-5: x=9223372036854775806, y=-5";
    let t = parse_sensor(high.as_bytes()).unwrap();
    assert_eq!(numbers_of(&t), (i64::MAX - 1, -5, i64::MAX - 1, -5, 0));
    let far = "x=0, y=9223372036854775807: x=0, y=9223372036854775807";
    let u = parse_sensor(far.as_bytes()).unwrap();
    assert_eq!(numbers_of(&u), (0, i64::MAX, 0, i64::MAX, 0));
}

#[test]
fn parse_sensor_out_of_reach() {
    assert_eq!(
        parse_sensor("x=9223372036854775807, y=0: x=9223372036854775807, y=0".as_bytes()),
        Err(LineError::OutOfReach)
    );
    assert_eq!(
        parse_sensor("x=0, y=0: x=9223372036854775807, y=9223372036854775807".as_bytes()),
        Err(LineError::OutOfReach)
    );
    assert_eq!(
        parse_sensor("x=-9223372036854775808, y=0: x=-9223372036854775807, y=0".as_bytes()),
        Err(LineError::OutOfReach)
    );
}

#[test]
fn parse_sensor_agrees_with_new_on_the_sample() {
    let lines = [
        ("Sensor at x=9, y=16: closest beacon is at x=10, y=16", (9, 16, 10, 16)),
        ("Sensor at x=13, y=2: closest beacon is at x=15, y=3", (13, 2, 15, 3)),
        ("Sensor at x=20, y=14: closest beacon is at x=25, y=17", (20, 14, 25, 17)),
        ("Sensor at x=0, y=11: closest beacon is at x=2, y=10", (0, 11, 2, 10)),
    ];
    for (line, (x, y, cx, cy)) in lines {
        assert_eq!(parse_sensor(line.as_bytes()), Ok(Sensor::new(x, y, cx, cy)), "{}", line);
    }
}

#[test]
fn parse_sensor_bytes_beyond_ascii_are_passed_over() {
    let s = parse_sensor("capteur à x=1, y=2 → balise à x=3, y=4".as_bytes()).unwrap();
    assert_eq!(numbers_of(&s), (1, 2, 3, 4, 4));
}
