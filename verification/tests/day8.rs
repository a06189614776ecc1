use advent::day8::{parse, visible, solve1, solve2, scenic_score};

const TEST_INPUT: &str = "30373\n25512\n65332\n33549\n35390";

#[test]
fn day8_test_parse() {
    let parsed = parse(TEST_INPUT);
    let expected = vec![
        vec![3, 0, 3, 7, 3],
        vec![2, 5, 5, 1, 2],
        vec![6, 5, 3, 3, 2],
        vec![3, 3, 5, 4, 9],
        vec![3, 5, 3, 9, 0],
    ];
    assert_eq!(parsed, expected);
}

#[test]
fn test_visible() {
    let f = parse(TEST_INPUT);

    assert!(visible(&f, 1, 1));
    assert!(!visible(&f, 2, 2));
    assert!(visible(&f, 0, 0));

    assert!(visible(&f, 1, 1));
    assert!(visible(&f, 2, 1));
    assert!(visible(&f, 1, 2));
    assert!(visible(&f, 3, 2));
    assert!(visible(&f, 2, 3));
}

#[test]
fn day8_test_solve1() {
    let parsed = parse(TEST_INPUT);
    assert_eq!(solve1(&parsed), 21);
}

#[test]
fn test_scenic_height() {
    let parsed = parse(TEST_INPUT);
    assert_eq!(scenic_score(&parsed, 2, 1), 4);
    assert_eq!(scenic_score(&parsed, 2, 3), 8);
}

#[test]
fn day8_test_solve2() {
    let parsed = parse(TEST_INPUT);
    assert_eq!(solve2(&parsed), 8);
}
