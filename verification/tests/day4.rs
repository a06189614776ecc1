use advent::day4::{parse_line, solve1, solve2};

const TEST_INPUT: &str = "2-4,6-8\n2-3,4-5\n5-7,7-9\n2-8,3-7\n6-6,4-6\n2-6,4-8";

#[test]
fn day4_test_solve1() {
    let input: Vec<((i64, i64), (i64, i64))> = TEST_INPUT.lines().map(parse_line).collect();
    assert_eq!(solve1(&input), 2);
}

#[test]
fn day4_test_solve2() {
    let input: Vec<((i64, i64), (i64, i64))> = TEST_INPUT.lines().map(parse_line).collect();
    assert_eq!(solve2(&input), 4);
}

#[test]
fn day4_test_parse_line() {
    assert_eq!(parse_line("2-4,6-8"), ((2, 4), (6, 8)));
}
