//! Crate stacks: parse a pictorial stack drawing and a move list, then
//! replay the moves one crate at a time (or whole blocks at once) and
//! read the top crate of every stack.

use vstd::prelude::*;
use crate::text::{chars_of, split_lines, split_at_seq, parse_i64, spec_split, spec_lines, is_i64_numeral, int_value, views};

verus! {

pub type Move = (usize, usize, usize);

pub open spec fn sviews(s: Seq<Vec<char>>) -> Seq<Seq<char>> {
    s.map_values(|v: Vec<char>| v@)
}

/// Whether one move names stacks that exist and enough crates.
pub open spec fn move_ok(sv: Seq<Seq<char>>, m: Move) -> bool {
    &&& 1 <= m.1 <= sv.len()
    &&& 1 <= m.2 <= sv.len()
    &&& m.0 <= sv[m.1 - 1].len()
}

/// Moving `n` crates one at a time: the block leaves the source stack
/// and lands on the target reversed.
pub open spec fn spec_do_move(sv: Seq<Seq<char>>, m: Move) -> Seq<Seq<char>> {
    let (n, from, to) = m;
    if from == to {
        sv
    } else {
        let src = sv[from - 1];
        let block = src.skip(src.len() - n);
        sv.update(from - 1, src.take(src.len() - n)).update(to - 1, sv[to - 1] + block.reverse())
    }
}

/// Moving `n` crates as one block keeps their order.
pub open spec fn spec_do_move2(sv: Seq<Seq<char>>, m: Move) -> Seq<Seq<char>> {
    let (n, from, to) = m;
    if from == to {
        sv
    } else {
        let src = sv[from - 1];
        let block = src.skip(src.len() - n);
        sv.update(from - 1, src.take(src.len() - n)).update(to - 1, sv[to - 1] + block)
    }
}

fn copy_chars(v: &Vec<char>, from: usize, to: usize) -> (r: Vec<char>)
    requires
        from <= to <= v@.len(),
    ensures
        r@ == v@.subrange(from as int, to as int),
{
    let mut r: Vec<char> = Vec::new();
    let mut i: usize = from;
    while i < to
        invariant
            from <= i <= to <= v@.len(),
            r@ == v@.subrange(from as int, i as int),
        decreases to - i,
    {
        r.push(v[i]);
        proof {
            assert(v@.subrange(from as int, i + 1) =~= v@.subrange(from as int, i as int).push(
                v@[i as int],
            ));
        }
        i = i + 1;
    }
    r
}

/// Replay one move, crate by crate.
pub fn do_move(state: Vec<Vec<char>>, m: Move) -> (r: Vec<Vec<char>>)
    requires
        move_ok(sviews(state@), m),
    ensures
        sviews(r@) == spec_do_move(sviews(state@), m),
{
    let ghost sv = sviews(state@);
    let (n, from, to) = m;
    if from == to {
        proof {
            assert(sviews(state@) =~= spec_do_move(sv, m));
        }
        return state;
    }
    let mut r: Vec<Vec<char>> = Vec::new();
    let mut i: usize = 0;
    let ghost target = spec_do_move(sv, m);
    proof {
        assert(target.len() == sv.len());
    }
    while i < state.len()
        invariant
            i <= state@.len(),
            sv == sviews(state@),
            sv.len() == state@.len(),
            move_ok(sv, m),
            m == (n, from, to),
            from != to,
            target == spec_do_move(sv, m),
            target.len() == sv.len(),
            r@.len() == i,
            forall|k: int| 0 <= k < i ==> (#[trigger] r@[k])@ == target[k],
        decreases state@.len() - i,
    {
        proof {
            assert(state@[i as int]@ == sv[i as int]);
        }
        let stack = &state[i];
        if i == from - 1 {
            let keep = copy_chars(stack, 0, stack.len() - n);
            proof {
                assert(keep@ =~= sv[from - 1].take(sv[from - 1].len() - n));
                assert(target[i as int] == sv[from - 1].take(sv[from - 1].len() - n));
            }
            r.push(keep);
        } else if i == to - 1 {
            let mut ext = copy_chars(stack, 0, stack.len());
            proof {
                assert(ext@ =~= sv[to - 1]);
            }
            let src = &state[from - 1];
            proof {
                assert(src@ == sv[from - 1]);
            }
            let mut k: usize = src.len();
            let ghost block = sv[from - 1].skip(sv[from - 1].len() - n);
            while k > src.len() - n
                invariant
                    src@ == sv[from - 1],
                    n <= sv[from - 1].len(),
                    sv[from - 1].len() - n <= k <= sv[from - 1].len(),
                    block == sv[from - 1].skip(sv[from - 1].len() - n),
                    ext@ == sv[to - 1] + block.reverse().take(sv[from - 1].len() - k),
                decreases k,
            {
                proof {
                    let l = sv[from - 1].len() as int;
                    assert(block.reverse()[l - k] == block[block.len() - 1 - (l - k)]);
                    assert(block[k - 1 - (l - n)] == sv[from - 1][k - 1]);
                    assert(block.reverse().take(l - k + 1) =~= block.reverse().take(l - k).push(
                        sv[from - 1][k - 1],
                    ));
                }
                ext.push(src[k - 1]);
                k = k - 1;
            }
            proof {
                assert(block.reverse().take(block.len() as int) =~= block.reverse());
                assert(target[i as int] == sv[to - 1] + block.reverse());
                assert(ext@ == target[i as int]);
            }
            r.push(ext);
        } else {
            let keep = copy_chars(stack, 0, stack.len());
            proof {
                assert(keep@ =~= sv[i as int]);
                assert(target[i as int] == sv[i as int]);
            }
            r.push(keep);
        }
        i = i + 1;
    }
    proof {
        assert(sviews(r@) =~= target);
    }
    r
}

/// Replay one move, the whole block at once.
pub fn do_move2(state: Vec<Vec<char>>, m: Move) -> (r: Vec<Vec<char>>)
    requires
        move_ok(sviews(state@), m),
    ensures
        sviews(r@) == spec_do_move2(sviews(state@), m),
{
    let ghost sv = sviews(state@);
    let (n, from, to) = m;
    if from == to {
        proof {
            assert(sviews(state@) =~= spec_do_move2(sv, m));
        }
        return state;
    }
    let mut r: Vec<Vec<char>> = Vec::new();
    let mut i: usize = 0;
    let ghost target = spec_do_move2(sv, m);
    proof {
        assert(target.len() == sv.len());
    }
    while i < state.len()
        invariant
            i <= state@.len(),
            sv == sviews(state@),
            sv.len() == state@.len(),
            move_ok(sv, m),
            m == (n, from, to),
            from != to,
            target == spec_do_move2(sv, m),
            target.len() == sv.len(),
            r@.len() == i,
            forall|k: int| 0 <= k < i ==> (#[trigger] r@[k])@ == target[k],
        decreases state@.len() - i,
    {
        proof {
            assert(state@[i as int]@ == sv[i as int]);
        }
        let stack = &state[i];
        if i == from - 1 {
            let keep = copy_chars(stack, 0, stack.len() - n);
            proof {
                assert(keep@ =~= sv[from - 1].take(sv[from - 1].len() - n));
                assert(target[i as int] == sv[from - 1].take(sv[from - 1].len() - n));
            }
            r.push(keep);
        } else if i == to - 1 {
            let mut ext = copy_chars(stack, 0, stack.len());
            proof {
                assert(ext@ =~= sv[to - 1]);
            }
            let src = &state[from - 1];
            proof {
                assert(src@ == sv[from - 1]);
            }
            let ghost block = sv[from - 1].skip(sv[from - 1].len() - n);
            let mut k: usize = src.len() - n;
            while k < src.len()
                invariant
                    src@ == sv[from - 1],
                    n <= sv[from - 1].len(),
                    sv[from - 1].len() - n <= k <= sv[from - 1].len(),
                    block == sv[from - 1].skip(sv[from - 1].len() - n),
                    ext@ == sv[to - 1] + block.take(k - (sv[from - 1].len() - n)),
                decreases src@.len() - k,
            {
                proof {
                    let base = sv[from - 1].len() - n;
                    assert(block[k - base] == sv[from - 1][k as int]);
                    assert(block.take(k - base + 1) =~= block.take(k - base).push(
                        sv[from - 1][k as int],
                    ));
                }
                ext.push(src[k]);
                k = k + 1;
            }
            proof {
                assert(block.take(block.len() as int) =~= block);
                assert(target[i as int] == sv[to - 1] + block);
                assert(ext@ == target[i as int]);
            }
            r.push(ext);
        } else {
            let keep = copy_chars(stack, 0, stack.len());
            proof {
                assert(keep@ =~= sv[i as int]);
                assert(target[i as int] == sv[i as int]);
            }
            r.push(keep);
        }
        i = i + 1;
    }
    proof {
        assert(sviews(r@) =~= target);
    }
    r
}

/// Whether every move of the list stays valid as the state evolves,
/// replaying one crate at a time.
pub open spec fn moves_ok(sv: Seq<Seq<char>>, ms: Seq<Move>) -> bool
    decreases ms.len(),
{
    if ms.len() == 0 {
        true
    } else {
        move_ok(sv, ms[0]) && moves_ok(spec_do_move(sv, ms[0]), ms.drop_first())
    }
}

pub open spec fn spec_apply_moves(sv: Seq<Seq<char>>, ms: Seq<Move>) -> Seq<Seq<char>>
    decreases ms.len(),
{
    if ms.len() == 0 {
        sv
    } else {
        spec_apply_moves(spec_do_move(sv, ms[0]), ms.drop_first())
    }
}

pub open spec fn moves_ok2(sv: Seq<Seq<char>>, ms: Seq<Move>) -> bool
    decreases ms.len(),
{
    if ms.len() == 0 {
        true
    } else {
        move_ok(sv, ms[0]) && moves_ok2(spec_do_move2(sv, ms[0]), ms.drop_first())
    }
}

pub open spec fn spec_apply_moves2(sv: Seq<Seq<char>>, ms: Seq<Move>) -> Seq<Seq<char>>
    decreases ms.len(),
{
    if ms.len() == 0 {
        sv
    } else {
        spec_apply_moves2(spec_do_move2(sv, ms[0]), ms.drop_first())
    }
}

/// The top crates, skipping empty stacks.
pub open spec fn spec_tops(sv: Seq<Seq<char>>) -> Seq<char>
    decreases sv.len(),
{
    if sv.len() == 0 {
        Seq::empty()
    } else {
        spec_tops(sv.drop_last()) + if sv.last().len() > 0 {
            seq![sv.last().last()]
        } else {
            Seq::empty()
        }
    }
}

fn read_tops(state: &Vec<Vec<char>>) -> (r: Vec<char>)
    ensures
        r@ == spec_tops(sviews(state@)),
{
    let ghost sv = sviews(state@);
    let mut r: Vec<char> = Vec::new();
    let mut i: usize = 0;
    proof {
        assert(sv.subrange(0, 0) =~= Seq::<Seq<char>>::empty());
    }
    while i < state.len()
        invariant
            i <= state@.len(),
            sv == sviews(state@),
            sv.len() == state@.len(),
            r@ == spec_tops(sv.subrange(0, i as int)),
        decreases state@.len() - i,
    {
        proof {
            assert(state@[i as int]@ == sv[i as int]);
            assert(sv.subrange(0, i + 1).drop_last() =~= sv.subrange(0, i as int));
            assert(sv.subrange(0, i + 1).last() == sv[i as int]);
        }
        let stack = &state[i];
        if stack.len() > 0 {
            let c = stack[stack.len() - 1];
            r.push(c);
        }
        i = i + 1;
    }
    proof {
        assert(sv.subrange(0, sv.len() as int) =~= sv);
    }
    r
}

/// Replay every move one crate at a time and read the stack tops.
pub fn solve1(input: (Vec<Vec<char>>, Vec<Move>)) -> (r: Vec<char>)
    requires
        moves_ok(sviews(input.0@), input.1@),
    ensures
        r@ == spec_tops(spec_apply_moves(sviews(input.0@), input.1@)),
{
    let (state0, moves) = input;
    let ghost sv0 = sviews(state0@);
    let mut state = state0;
    let mut i: usize = 0;
    proof {
        assert(moves@.skip(0) =~= moves@);
    }
    while i < moves.len()
        invariant
            i <= moves@.len(),
            moves_ok(sviews(state@), moves@.skip(i as int)),
            spec_apply_moves(sviews(state@), moves@.skip(i as int)) == spec_apply_moves(
                sv0,
                moves@,
            ),
        decreases moves@.len() - i,
    {
        proof {
            assert(moves@.skip(i as int)[0] == moves@[i as int]);
            assert(moves@.skip(i as int).drop_first() =~= moves@.skip(i + 1));
        }
        let m = moves[i];
        state = do_move(state, m);
        i = i + 1;
    }
    proof {
        assert(moves@.skip(moves@.len() as int) =~= Seq::<Move>::empty());
    }
    read_tops(&state)
}

/// Replay every move as a block and read the stack tops.
pub fn solve2(input: (Vec<Vec<char>>, Vec<Move>)) -> (r: Vec<char>)
    requires
        moves_ok2(sviews(input.0@), input.1@),
    ensures
        r@ == spec_tops(spec_apply_moves2(sviews(input.0@), input.1@)),
{
    let (state0, moves) = input;
    let ghost sv0 = sviews(state0@);
    let mut state = state0;
    let mut i: usize = 0;
    proof {
        assert(moves@.skip(0) =~= moves@);
    }
    while i < moves.len()
        invariant
            i <= moves@.len(),
            moves_ok2(sviews(state@), moves@.skip(i as int)),
            spec_apply_moves2(sviews(state@), moves@.skip(i as int)) == spec_apply_moves2(
                sv0,
                moves@,
            ),
        decreases moves@.len() - i,
    {
        proof {
            assert(moves@.skip(i as int)[0] == moves@[i as int]);
            assert(moves@.skip(i as int).drop_first() =~= moves@.skip(i + 1));
        }
        let m = moves[i];
        state = do_move2(state, m);
        i = i + 1;
    }
    proof {
        assert(moves@.skip(moves@.len() as int) =~= Seq::<Move>::empty());
    }
    read_tops(&state)
}

// ---- parsing ----

/// The crate letters of one drawing row: the characters at columns
/// 1, 5, 9, and so on.
pub open spec fn spec_state_line(l: Seq<char>) -> Seq<char> {
    Seq::new(
        if l.len() < 2 {
            0
        } else {
            ((l.len() - 2) / 4 + 1) as nat
        },
        |k: int| l[1 + 4 * k],
    )
}

/// Parse one drawing row.
pub fn parse_state_line(s: &str) -> (r: Vec<char>)
    ensures
        r@ == spec_state_line(s@),
{
    let cs = chars_of(s);
    state_line_of(&cs)
}

fn state_line_of(l: &Vec<char>) -> (r: Vec<char>)
    ensures
        r@ == spec_state_line(l@),
{
    let n = l.len();
    let count: usize = if n < 2 {
        0
    } else {
        (n - 2) / 4 + 1
    };
    let mut r: Vec<char> = Vec::new();
    let mut k: usize = 0;
    while k < count
        invariant
            k <= count,
            n == l@.len(),
            count == if l@.len() < 2 {
                0int
            } else {
                (l@.len() - 2) / 4 + 1
            },
            r@.len() == k,
            forall|t: int| 0 <= t < k ==> #[trigger] r@[t] == l@[1 + 4 * t],
        decreases count - k,
    {
        proof {
            assert(4 * (k as int) <= 4 * (count - 1)) by (nonlinear_arith)
                requires
                    k < count,
            ;
            assert(4 * (count - 1) <= l@.len() - 2) by (nonlinear_arith)
                requires
                    count == (l@.len() - 2) / 4 + 1,
                    l@.len() >= 2,
            ;
        }
        let idx = 1 + 4 * k;
        let c = l[idx];
        r.push(c);
        k = k + 1;
    }
    proof {
        assert(r@ =~= spec_state_line(l@));
    }
    r
}

/// One stack of the drawing: column `i` of the parsed rows, bottom
/// first, blanks skipped.
pub open spec fn spec_stack(plines: Seq<Seq<char>>, i: int) -> Seq<char>
    decreases plines.len(),
{
    if plines.len() == 0 {
        Seq::empty()
    } else {
        (if i < plines[0].len() && plines[0][i] != ' ' {
            seq![plines[0][i]]
        } else {
            Seq::empty()
        }) + spec_stack(plines.drop_first(), i)
    }
}

/// The parsed drawing rows, bottom row first, the label row dropped.
pub open spec fn spec_plines(ls: Seq<Seq<char>>) -> Seq<Seq<char>> {
    ls.reverse().skip(1).map_values(|l: Seq<char>| spec_state_line(l))
}

pub open spec fn state_ok(ls: Seq<Seq<char>>) -> bool {
    &&& ls.len() >= 2
    &&& forall|k: int|
        0 <= k < spec_plines(ls).len() ==> (#[trigger] spec_plines(ls)[k]).len() <= spec_plines(
            ls,
        )[0].len()
}

/// Parse the stack drawing into its stacks.
pub fn parse_state(s: &str) -> (r: Vec<Vec<char>>)
    requires
        state_ok(spec_lines(s@)),
    ensures
        sviews(r@).len() == spec_plines(spec_lines(s@))[0].len(),
        forall|i: int|
            0 <= i < sviews(r@).len() ==> #[trigger] sviews(r@)[i] == spec_stack(
                spec_plines(spec_lines(s@)),
                i,
            ),
{
    let cs = chars_of(s);
    parse_state_vec(&cs)
}

/// Whether a `move N from A to B` line is well formed.
pub open spec fn move_line_ok(l: Seq<char>) -> bool {
    let ps = spec_split(l, seq![' ']);
    &&& ps.len() >= 6
    &&& is_i64_numeral(ps[1]) && 0 <= int_value(ps[1]) <= usize::MAX
    &&& is_i64_numeral(ps[3]) && 0 <= int_value(ps[3]) <= usize::MAX
    &&& is_i64_numeral(ps[5]) && 0 <= int_value(ps[5]) <= usize::MAX
}

pub open spec fn spec_move_line(l: Seq<char>) -> Move {
    let ps = spec_split(l, seq![' ']);
    (
        int_value(ps[1]) as usize,
        int_value(ps[3]) as usize,
        int_value(ps[5]) as usize,
    )
}

/// Parse one move line.
pub fn parse_move(s: &str) -> (r: Move)
    requires
        move_line_ok(s@),
    ensures
        r == spec_move_line(s@),
{
    let cs = chars_of(s);
    move_of(&cs)
}

fn move_of(l: &Vec<char>) -> (r: Move)
    requires
        move_line_ok(l@),
    ensures
        r == spec_move_line(l@),
{
    let sep: Vec<char> = vec![' '];
    proof {
        assert(sep@ =~= seq![' ']);
    }
    let parts = split_at_seq(l, &sep);
    proof {
        assert(views(parts@).len() == parts@.len());
        assert(parts@[1]@ == spec_split(l@, seq![' '])[1]);
        assert(parts@[3]@ == spec_split(l@, seq![' '])[3]);
        assert(parts@[5]@ == spec_split(l@, seq![' '])[5]);
    }
    let n = parse_i64(&parts[1]).unwrap() as usize;
    let a = parse_i64(&parts[3]).unwrap() as usize;
    let b = parse_i64(&parts[5]).unwrap() as usize;
    (n, a, b)
}

pub open spec fn moves_text_ok(sec: Seq<char>) -> bool {
    forall|i: int| 0 <= i < spec_lines(sec).len() ==> move_line_ok(#[trigger] spec_lines(sec)[i])
}

pub open spec fn spec_moves(sec: Seq<char>) -> Seq<Move> {
    spec_lines(sec).map_values(|l: Seq<char>| spec_move_line(l))
}

/// Parse the whole move list.
pub fn parse_moves(s: &str) -> (r: Vec<Move>)
    requires
        moves_text_ok(s@),
    ensures
        r@ == spec_moves(s@),
{
    let cs = chars_of(s);
    parse_moves_vec(&cs)
}

pub open spec fn blank_sep() -> Seq<char> {
    seq!['\n', '\n']
}

pub open spec fn input_text_ok(s: Seq<char>) -> bool {
    let secs = spec_split(s, blank_sep());
    &&& secs.len() >= 2
    &&& state_ok(spec_lines(secs[0]))
    &&& moves_text_ok(secs[1])
}

/// Parse the drawing section and the move section.
pub fn parse_input(s: &str) -> (r: (Vec<Vec<char>>, Vec<Move>))
    requires
        input_text_ok(s@),
    ensures
        ({
            let secs = spec_split(s@, blank_sep());
            let plv = spec_plines(spec_lines(secs[0]));
            &&& sviews(r.0@).len() == plv[0].len()
            &&& forall|i: int|
                0 <= i < sviews(r.0@).len() ==> #[trigger] sviews(r.0@)[i] == spec_stack(plv, i)
            &&& r.1@ == spec_moves(secs[1])
        }),
{
    let cs = chars_of(s);
    let sep: Vec<char> = vec!['\n', '\n'];
    proof {
        assert(sep@ =~= blank_sep());
    }
    let sections = split_at_seq(&cs, &sep);
    proof {
        assert(views(sections@).len() == sections@.len());
        assert(sections@[0]@ == spec_split(s@, blank_sep())[0]);
        assert(sections@[1]@ == spec_split(s@, blank_sep())[1]);
    }
    let state = parse_state_vec(&sections[0]);
    let moves = parse_moves_vec(&sections[1]);
    (state, moves)
}

fn parse_state_vec(sec: &Vec<char>) -> (r: Vec<Vec<char>>)
    requires
        state_ok(spec_lines(sec@)),
    ensures
        sviews(r@).len() == spec_plines(spec_lines(sec@))[0].len(),
        forall|i: int|
            0 <= i < sviews(r@).len() ==> #[trigger] sviews(r@)[i] == spec_stack(
                spec_plines(spec_lines(sec@)),
                i,
            ),
{
    let lines = split_lines(sec);
    let ghost lv = spec_lines(sec@);
    proof {
        assert(views(lines@) == lv);
        assert(views(lines@).len() == lines@.len());
    }
    let ghost plv = spec_plines(lv);
    let mut plines: Vec<Vec<char>> = Vec::new();
    let total = lines.len();
    let mut j: usize = 0;
    while j < total - 1
        invariant
            j <= total - 1,
            lv == spec_lines(sec@),
            lv == views(lines@),
            lv.len() == lines@.len(),
            total == lines@.len(),
            total >= 2,
            plv == spec_plines(lv),
            plv.len() == total - 1,
            plines@.len() == j,
            forall|k: int| 0 <= k < j ==> (#[trigger] plines@[k])@ == plv[k],
        decreases total - j,
    {
        proof {
            assert(lv.reverse().len() == lv.len());
            assert(lv.reverse()[j + 1] == lv[lv.len() - 1 - (j + 1)]);
            assert(plv[j as int] == spec_state_line(lv.reverse().skip(1)[j as int]));
            assert(lv.reverse().skip(1)[j as int] == lv.reverse()[j + 1]);
            assert(lines@[total - 2 - j]@ == lv[total - 2 - j]);
        }
        let row = state_line_of(&lines[total - 2 - j]);
        plines.push(row);
        j = j + 1;
    }
    let stacks = plines[0].len();
    proof {
        assert(plines@[0]@ == plv[0]);
    }
    let mut r: Vec<Vec<char>> = Vec::new();
    let mut i: usize = 0;
    while i < stacks
        invariant
            i <= stacks,
            plv == spec_plines(lv),
            stacks == plv[0].len(),
            plines@.len() == plv.len(),
            forall|k: int| 0 <= k < plv.len() ==> (#[trigger] plines@[k])@ == plv[k],
            forall|k: int| 0 <= k < plv.len() ==> (#[trigger] plv[k]).len() <= plv[0].len(),
            r@.len() == i,
            forall|k: int| 0 <= k < i ==> (#[trigger] r@[k])@ == spec_stack(plv, k),
        decreases stacks - i,
    {
        let mut stack: Vec<char> = Vec::new();
        let mut j2: usize = 0;
        proof {
            assert(plv.skip(0) =~= plv);
        }
        while j2 < plines.len()
            invariant
                j2 <= plines@.len(),
                plv == spec_plines(lv),
                plines@.len() == plv.len(),
                forall|k: int| 0 <= k < plv.len() ==> (#[trigger] plines@[k])@ == plv[k],
                spec_stack(plv, i as int) =~= stack@ + spec_stack(plv.skip(j2 as int), i as int),
            decreases plines@.len() - j2,
        {
            proof {
                assert(plv.skip(j2 as int)[0] == plv[j2 as int]);
                assert(plv.skip(j2 as int).drop_first() =~= plv.skip(j2 + 1));
                assert(plines@[j2 as int]@ == plv[j2 as int]);
            }
            let row = &plines[j2];
            if i < row.len() {
                let c = row[i];
                if c != ' ' {
                    stack.push(c);
                }
            }
            j2 = j2 + 1;
        }
        proof {
            assert(plv.skip(plv.len() as int) =~= Seq::<Seq<char>>::empty());
            assert(stack@ + Seq::<char>::empty() =~= stack@);
            assert(stack@ == spec_stack(plv, i as int));
        }
        r.push(stack);
        i = i + 1;
    }
    proof {
        assert(sviews(r@).len() == r@.len());
    }
    r
}

fn parse_moves_vec(sec: &Vec<char>) -> (r: Vec<Move>)
    requires
        moves_text_ok(sec@),
    ensures
        r@ == spec_moves(sec@),
{
    let lines = split_lines(sec);
    let ghost lv = spec_lines(sec@);
    proof {
        assert(views(lines@) == lv);
        assert(views(lines@).len() == lines@.len());
    }
    let mut out: Vec<Move> = Vec::new();
    let mut i: usize = 0;
    while i < lines.len()
        invariant
            i <= lines@.len(),
            lv == spec_lines(sec@),
            lv == views(lines@),
            lv.len() == lines@.len(),
            forall|k: int| 0 <= k < lv.len() ==> move_line_ok(#[trigger] lv[k]),
            out@.len() == i,
            forall|k: int| 0 <= k < i ==> #[trigger] out@[k] == spec_move_line(lv[k]),
        decreases lines@.len() - i,
    {
        proof {
            assert(lines@[i as int]@ == lv[i as int]);
        }
        let m = move_of(&lines[i]);
        out.push(m);
        i = i + 1;
    }
    proof {
        assert(out@ =~= spec_moves(sec@));
    }
    out
}

} // verus!
