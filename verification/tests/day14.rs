use advent::day14::{parse_point, parse_line, parse, build_map, solve1, solve2};

const TEST_INPUT: &str = "498,4 -> 498,6 -> 496,6\n503,4 -> 502,4 -> 502,9 -> 494,9";

#[test]
fn day14_test_parse() {
    assert_eq!(parse_point("498,4"), (498, 4));
    assert_eq!(
        parse_line("498,4 -> 498,6 -> 496,6"),
        vec![(498, 4), (498, 6), (496, 6)]
    );
}

#[test]
fn day14_test_solve1() {
    let parsed = parse(TEST_INPUT);
    let mut m = build_map(parsed);
    assert_eq!(solve1(&mut m), 24);
}

#[test]
fn day14_test_solve2() {
    let parsed = parse(TEST_INPUT);
    let mut m = build_map(parsed);
    assert_eq!(solve2(&mut m), 93);
}
