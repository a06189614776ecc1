use advent::day9::{parse, solve1, solve2, move_head, move_num_towards, do_step, Step};

const TEST_INPUT: &str = "R 4\nU 4\nL 3\nD 1\nR 4\nD 1\nL 5\nR 2";
const TEST_INPUT2: &str = "R 5\nU 8\nL 8\nD 3\nR 17\nD 10\nL 25\nU 20";

#[test]
fn test_move_num_towards() {
    assert_eq!(move_num_towards(0, 2), 1);
    assert_eq!(move_num_towards(4, 2), 3);
}

#[test]
fn test_move_head() {
    assert_eq!(move_head((0, 0), Step::R), (1, 0));
}

#[test]
fn test_do_step() {
    assert_eq!(do_step(((0, 0), (0, 0)), Step::R), ((1, 0), (0, 0)));
    assert_eq!(do_step(((1, 0), (0, 0)), Step::R), ((2, 0), (1, 0)));
}

#[test]
fn day9_test_sanity() {
    let a = [1, 2, 3];
    let scan: Vec<i64> = a
        .iter()
        .scan(1, |state, i| {
            println!("state: {:}, i: {:}", state, i);
            let next_state = *state + i;
            *state = next_state;
            Some(next_state)
        })
        .collect();
    assert_eq!(scan, vec![2, 4, 7]);
}

#[test]
fn day9_test_solve1() {
    let parsed = parse(TEST_INPUT);
    assert_eq!(solve1(parsed), 13);
}

#[test]
fn day9_test_solve2() {
    let parsed = parse(TEST_INPUT2);
    assert_eq!(solve2(parsed), 36);
}
