use advent::day1::{parse_input, solve, solve2};

const TEST_INPUT: &str = "1000\n2000\n3000\n\n4000\n\n5000\n6000\n\n7000\n8000\n9000\n\n10000";

#[test]
fn day1_test_parser() {
    assert_eq!(parse_input("").unwrap(), vec![vec![]]);
    assert_eq!(parse_input("1\n2").unwrap(), vec![vec![1, 2]]);
    assert_eq!(parse_input("1\n2\n\n3").unwrap(), vec![vec![1, 2], vec![3]]);
}

#[test]
fn test_day1() {
    let input = parse_input(TEST_INPUT).unwrap();
    assert_eq!(solve(&input), 24000);
    assert_eq!(solve2(&input), 45000);
}
