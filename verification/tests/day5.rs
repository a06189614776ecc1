use advent::day5::{parse_move, parse_state_line, parse_state, parse_input, solve1, solve2};

const TEST_INPUT: &str = "    [D]    \n[N] [C]    \n[Z] [M] [P]\n 1   2   3 \n\nmove 1 from 2 to 1\nmove 3 from 1 to 3\nmove 2 from 2 to 1\nmove 1 from 1 to 2";

#[test]
fn test_parse_move() {
    assert_eq!(parse_move("move 1 from 2 to 1"), (1, 2, 1));
}

#[test]
fn test_parse_state_line() {
    assert_eq!(parse_state_line("[Z] [M] [P]"), vec!['Z', 'M', 'P']);
}

#[test]
fn test_parse_state() {
    let parsed = parse_state("    [D]    \n[N] [C]    \n[Z] [M] [P]\n 1   2   3 ");
    let expected = vec![vec!['Z', 'N'], vec!['M', 'C', 'D'], vec!['P']];
    assert_eq!(parsed, expected)
}

#[test]
fn day5_test_solve1() {
    let input = parse_input(TEST_INPUT);
    assert_eq!(solve1(input), vec!['C', 'M', 'Z']);
}

#[test]
fn day5_test_solve2() {
    let input = parse_input(TEST_INPUT);
    assert_eq!(solve2(input), vec!['M', 'C', 'D']);
}
