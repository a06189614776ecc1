use advent::day13::{Signal, parse_signal, parse, parse2, solve1, solve2};
use core::cmp::Ordering;

const TEST_INPUT: &str = "[1,1,3,1,1]\n[1,1,5,1,1]\n\n[[1],[2,3,4]]\n[[1],4]\n\n[9]\n[8,7,6]\n\n[[4,4],4,4]\n[[4,4],4,4,4]\n\n[7,7,7,7]\n[7,7,7]\n\n[]\n[3]\n\n[[[]]]\n[[]]\n\n[1,[2,[3,[4,[5,6,7]]]],8,9]\n[1,[2,[3,[4,[5,6,0]]]],8,9]";

#[test]
fn test_parse_signal() {
    assert_eq!(parse_signal("[]"), Some((Signal::L(vec![]), 2)));
    assert_eq!(
        parse_signal("[1,2,3]"),
        Some((Signal::L(vec![Signal::I(1), Signal::I(2), Signal::I(3)]), 7))
    );
    assert_eq!(
        parse_signal("[1,[2]]"),
        Some((
            Signal::L(vec![Signal::I(1), Signal::L(vec![Signal::I(2)])]),
            7
        ))
    )
}

fn sig(s: &str) -> Signal {
    parse_signal(s).unwrap().0
}

#[test]
fn test_signal_ord() {
    assert_eq!(Signal::I(1).cmp(&Signal::I(2)), Ordering::Less);

    assert_eq!(parse_signal("[1,1]").unwrap(), parse_signal("[1,1]").unwrap());

    assert_eq!(sig("[]").cmp(&sig("[3]")), Ordering::Less);
    assert_eq!(sig("[9]").cmp(&sig("[8,1]")), Ordering::Greater);
    assert_eq!(sig("[8,1]").cmp(&sig("[9]")), Ordering::Less);
    assert_eq!(sig("[8,1]").cmp(&sig("9")), Ordering::Less);

    assert_eq!(sig("[1,1,3,1,1]").cmp(&sig("[1,1,5,1,1]")), Ordering::Less);
    assert_eq!(sig("[9]").cmp(&sig("[[8,7,6]]")), Ordering::Greater);
    assert_eq!(sig("[[8,7,6]]").cmp(&sig("[9]")), Ordering::Less);
    assert_eq!(sig("[[[]]]").cmp(&sig("[[]]")), Ordering::Greater);
    assert_ne!(sig("[[]]").cmp(&sig("[[]]")), Ordering::Greater);
}

#[test]
fn day13_test_solve1() {
    let parsed = parse(TEST_INPUT);
    assert_eq!(solve1(&parsed), 13);
}

#[test]
fn day13_test_solve2() {
    let mut parsed = parse2(TEST_INPUT);
    assert_eq!(solve2(&mut parsed), 140);
}
