use advent::day11::{parse, parse_operation, parse_test, apply_operation, apply_test, solve1, solve2, get_mod};

const TEST_INPUT: &str = "Monkey 0:\n  Starting items: 79, 98\n  Operation: new = old * 19\n  Test: divisible by 23\n    If true: throw to monkey 2\n    If false: throw to monkey 3\n\nMonkey 1:\n  Starting items: 54, 65, 75, 74\n  Operation: new = old + 6\n  Test: divisible by 19\n    If true: throw to monkey 2\n    If false: throw to monkey 0\n\nMonkey 2:\n  Starting items: 79, 60, 97\n  Operation: new = old * old\n  Test: divisible by 13\n    If true: throw to monkey 1\n    If false: throw to monkey 3\n\nMonkey 3:\n  Starting items: 74\n  Operation: new = old + 3\n  Test: divisible by 17\n    If true: throw to monkey 0\n    If false: throw to monkey 1";

#[test]
fn test_monkey_operation() {
    let op = parse_operation("  Operation: new = old * 19");
    assert_eq!(apply_operation(&op, 2), 2 * 19);
}

#[test]
fn test_monkey_test() {
    let test = parse_test(&[
        "  Test: divisible by 23",
        "    If true: throw to monkey 2",
        "    If false: throw to monkey 3",
    ]);
    assert_eq!(apply_test(&test, 46), 2);
    assert_eq!(apply_test(&test, 44), 3);
}

#[test]
fn day11_test_solve1() {
    let parsed = parse(TEST_INPUT);
    assert_eq!(solve1(parsed), 10605);
}

#[test]
fn day11_test_solve2() {
    let parsed = parse(TEST_INPUT);
    let mod_by = get_mod(TEST_INPUT);
    assert_eq!(solve2(parsed, mod_by), 2713310158);
}
