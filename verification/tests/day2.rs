use advent::day2::{parse_line, parse_input, solve1, solve2};

const TEST_INPUT: &str = "A Y\nB X\nC Z";

#[test]
fn day2_test_parser() {
    assert_eq!(parse_line("A X"), Some(('A', 'X')));

    let expected = vec![('A', 'Y'), ('B', 'X'), ('C', 'Z')];
    assert_eq!(parse_input(TEST_INPUT), expected);
}

#[test]
fn test_solution() {
    let input = parse_input(TEST_INPUT);
    assert_eq!(solve1(&input), 15);
}

#[test]
fn test_solution2() {
    let input = parse_input(TEST_INPUT);
    assert_eq!(solve2(&input), 12);
}
