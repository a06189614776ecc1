use advent::day15::{parse_line, parse, line_exclusions, around, solve1, solve2};

const TEST_INPUT: &str = "Sensor at x=2, y=18: closest beacon is at x=-2, y=15\nSensor at x=9, y=16: closest beacon is at x=10, y=16\nSensor at x=13, y=2: closest beacon is at x=15, y=3\nSensor at x=12, y=14: closest beacon is at x=10, y=16\nSensor at x=10, y=20: closest beacon is at x=10, y=16\nSensor at x=14, y=17: closest beacon is at x=10, y=16\nSensor at x=8, y=7: closest beacon is at x=2, y=10\nSensor at x=2, y=0: closest beacon is at x=2, y=10\nSensor at x=0, y=11: closest beacon is at x=2, y=10\nSensor at x=20, y=14: closest beacon is at x=25, y=17\nSensor at x=17, y=20: closest beacon is at x=21, y=22\nSensor at x=16, y=7: closest beacon is at x=15, y=3\nSensor at x=14, y=3: closest beacon is at x=15, y=3\nSensor at x=20, y=1: closest beacon is at x=15, y=3";

#[test]
fn day15_test_parse_line() {
    assert_eq!(
        parse_line("Sensor at x=2, y=18: closest beacon is at x=-2, y=15"),
        ((2, 18), (-2, 15))
    );
}

#[test]
fn test_line_exclusion() {
    let res = line_exclusions(10, (8, 7), (2, 10));
    assert_eq!(res, (2, 14));
}

#[test]
fn day15_test_solve1() {
    let parsed = parse(TEST_INPUT);
    assert_eq!(solve1(10, parsed), 26);
}

#[test]
fn day15_test_around() {
    assert_eq!(around(100, (10, 10), 5).len(), 4 * 6);
}

#[test]
fn day15_test_solve2() {
    let parsed = parse(TEST_INPUT);
    assert_eq!(solve2(20, parsed), 56000011);
}
