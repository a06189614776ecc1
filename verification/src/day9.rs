//! Rope motion: a head walks unit steps and each knot behind it snaps
//! one step toward its leader whenever it falls two apart; count the
//! distinct cells the last knot visits.

use vstd::prelude::*;
use crate::nums::{spec_abs, spec_signum, abs_i64, signum_i64};
use crate::text::{chars_of, split_lines, split_at_seq, parse_i64, spec_split, spec_lines, is_i64_numeral, int_value, views};

verus! {

#[derive(Clone, Copy, Debug, PartialEq, Eq, Structural)]
pub enum Step {
    L,
    R,
    U,
    D,
}

pub type Coord = (i64, i64);

pub type State = (Coord, Coord);

/// Coordinates this module's arithmetic stays exact for.
pub const COORD_BOUND: i64 = 0x1000000000000000;

pub open spec fn coord_ok(c: Coord, m: int) -> bool {
    -m <= c.0 <= m && -m <= c.1 <= m
}

pub open spec fn spec_move_head(h: Coord, s: Step) -> Coord {
    match s {
        Step::L => (((h.0 - 1) as i64), h.1),
        Step::R => (((h.0 + 1) as i64), h.1),
        Step::U => (h.0, ((h.1 + 1) as i64)),
        Step::D => (h.0, ((h.1 - 1) as i64)),
    }
}

pub open spec fn spec_toward(a: i64, b: i64) -> i64 {
    (a + spec_signum(b - a)) as i64
}

/// Where the tail knot lands, following the head by one step.
pub open spec fn spec_move_tail(h: Coord, t: Coord) -> Coord {
    let xd = spec_abs(t.0 - h.0);
    let yd = spec_abs(t.1 - h.1);
    let md = if xd > yd {
        xd
    } else {
        yd
    };
    if md < 2 {
        t
    } else if xd != 0 && yd != 0 {
        (spec_toward(t.0, h.0), spec_toward(t.1, h.1))
    } else if xd != 0 {
        (spec_toward(t.0, h.0), t.1)
    } else {
        (t.0, spec_toward(t.1, h.1))
    }
}

pub open spec fn spec_do_step(state: State, step: Step) -> State {
    let head = spec_move_head(state.0, step);
    let tail = spec_move_tail(head, state.1);
    (head, tail)
}

/// The states after each step, in order; the initial state is not included.
pub open spec fn spec_run(initial: State, steps: Seq<Step>) -> Seq<State>
    decreases steps.len(),
{
    if steps.len() == 0 {
        Seq::empty()
    } else {
        let first = spec_do_step(initial, steps[0]);
        seq![first] + spec_run(first, steps.drop_first())
    }
}

pub open spec fn last_state(initial: State, steps: Seq<Step>) -> State {
    if steps.len() == 0 {
        initial
    } else {
        spec_run(initial, steps).last()
    }
}

proof fn lemma_run_len(initial: State, steps: Seq<Step>)
    ensures
        spec_run(initial, steps).len() == steps.len(),
    decreases steps.len(),
{
    if steps.len() > 0 {
        lemma_run_len(spec_do_step(initial, steps[0]), steps.drop_first());
    }
}

proof fn lemma_run_snoc(initial: State, steps: Seq<Step>, st: Step)
    ensures
        spec_run(initial, steps.push(st)) =~= spec_run(initial, steps).push(
            spec_do_step(last_state(initial, steps), st),
        ),
    decreases steps.len(),
{
    lemma_run_len(initial, steps);
    if steps.len() == 0 {
        assert(steps.push(st)[0] == st);
        assert(steps.push(st).drop_first() =~= Seq::<Step>::empty());
        let d = spec_do_step(initial, st);
        assert(spec_run(initial, steps.push(st)) == seq![d] + spec_run(
            d,
            steps.push(st).drop_first(),
        ));
        assert(seq![d] + spec_run(d, steps.push(st).drop_first()) =~= seq![d]);
        assert(spec_run(initial, steps.push(st)) =~= seq![d]);
        assert(spec_run(initial, steps).push(d) =~= seq![d]);
    } else {
        let first = spec_do_step(initial, steps[0]);
        let df = steps.drop_first();
        assert(steps.push(st)[0] == steps[0]);
        assert(steps.push(st).drop_first() =~= df.push(st));
        lemma_run_snoc(first, df, st);
        lemma_run_len(first, df);
        assert(spec_run(initial, steps) == seq![first] + spec_run(first, df));
        if df.len() == 0 {
            assert(last_state(first, df) == first);
            assert(spec_run(initial, steps).last() == first);
        } else {
            assert(spec_run(initial, steps).last() == spec_run(first, df).last());
        }
        assert(last_state(first, df) == last_state(initial, steps));
        let x = spec_do_step(last_state(initial, steps), st);
        assert(spec_run(initial, steps.push(st)) =~= seq![first] + spec_run(first, df.push(st)));
        assert(seq![first] + spec_run(first, df).push(x) =~= (seq![first] + spec_run(
            first,
            df,
        )).push(x));
    }
}

/// Move the head one cell in the given direction.
pub fn move_head(h: Coord, s: Step) -> (r: Coord)
    requires
        i64::MIN < h.0 < i64::MAX,
        i64::MIN < h.1 < i64::MAX,
    ensures
        r == spec_move_head(h, s),
{
    match s {
        Step::L => (h.0 - 1, h.1),
        Step::R => (h.0 + 1, h.1),
        Step::U => (h.0, h.1 + 1),
        Step::D => (h.0, h.1 - 1),
    }
}

/// Step `a` one unit toward `b`.
pub fn move_num_towards(a: i64, b: i64) -> (r: i64)
    requires
        i64::MIN < a < i64::MAX,
        i64::MIN <= b - a <= i64::MAX,
    ensures
        r == spec_toward(a, b),
{
    a + signum_i64(b - a)
}

/// Snap the tail one step toward the head when it lags two behind.
pub fn move_tail(h: Coord, t: Coord) -> (r: Coord)
    requires
        coord_ok(h, COORD_BOUND as int + 1),
        coord_ok(t, COORD_BOUND as int + 1),
    ensures
        r == spec_move_tail(h, t),
{
    let (hx, hy) = h;
    let (tx, ty) = t;
    let xdiff = abs_i64(tx - hx);
    let ydiff = abs_i64(ty - hy);
    let max_diff = if xdiff > ydiff {
        xdiff
    } else {
        ydiff
    };
    if max_diff < 2 {
        (tx, ty)
    } else if xdiff != 0 && ydiff != 0 {
        (move_num_towards(tx, hx), move_num_towards(ty, hy))
    } else if xdiff != 0 {
        (move_num_towards(tx, hx), ty)
    } else if ydiff != 0 {
        (tx, move_num_towards(ty, hy))
    } else {
        proof {
            assert(false);
        }
        unreached()
    }
}

/// Advance head and tail by one step.
pub fn do_step(state: State, step: Step) -> (r: State)
    requires
        coord_ok(state.0, COORD_BOUND as int),
        coord_ok(state.1, COORD_BOUND as int),
    ensures
        r == spec_do_step(state, step),
        coord_ok(r.0, COORD_BOUND as int + 1),
        coord_ok(r.1, COORD_BOUND as int + 1),
{
    let (old_head, old_tail) = state;
    let head = move_head(old_head, step);
    let tail = move_tail(head, old_tail);
    (head, tail)
}

/// Run all steps from the initial state, collecting each state reached.
pub fn run(initial: State, steps: Vec<Step>) -> (r: Vec<State>)
    requires
        coord_ok(initial.0, COORD_BOUND as int / 2),
        coord_ok(initial.1, COORD_BOUND as int / 2),
        steps@.len() <= COORD_BOUND as int / 2,
    ensures
        r@ == spec_run(initial, steps@),
{
    let ghost m0: int = COORD_BOUND as int / 2;
    let mut r: Vec<State> = Vec::new();
    let mut cur: State = initial;
    let mut i: usize = 0;
    proof {
        assert(steps@.subrange(0, 0) =~= Seq::<Step>::empty());
    }
    while i < steps.len()
        invariant
            i <= steps@.len(),
            steps@.len() <= m0,
            m0 == COORD_BOUND as int / 2,
            coord_ok(initial.0, m0),
            coord_ok(initial.1, m0),
            r@ == spec_run(initial, steps@.subrange(0, i as int)),
            r@.len() == i,
            cur == last_state(initial, steps@.subrange(0, i as int)),
            coord_ok(cur.0, m0 + i),
            coord_ok(cur.1, m0 + i),
        decreases steps@.len() - i,
    {
        let next = do_step(cur, steps[i]);
        proof {
            assert(coord_ok(next.0, m0 + i + 1));
            assert(coord_ok(next.1, m0 + i + 1));
            lemma_run_snoc(initial, steps@.subrange(0, i as int), steps@[i as int]);
            assert(steps@.subrange(0, i as int).push(steps@[i as int]) =~= steps@.subrange(
                0,
                i + 1,
            ));
            lemma_run_len(initial, steps@.subrange(0, i + 1));
        }
        r.push(next);
        cur = next;
        i = i + 1;
    }
    proof {
        assert(steps@.subrange(0, steps@.len() as int) =~= steps@);
    }
    r
}

/// The steps one `D 4`-style line denotes: `count` copies of one direction.
pub open spec fn spec_parse_line(s: Seq<char>) -> Seq<Step> {
    let ps = spec_split(s, seq![' ']);
    let step = if ps[0] =~= seq!['L'] {
        Step::L
    } else if ps[0] =~= seq!['R'] {
        Step::R
    } else if ps[0] =~= seq!['U'] {
        Step::U
    } else {
        Step::D
    };
    Seq::new(int_value(ps[1]) as nat, |k: int| step)
}

pub open spec fn line_ok(s: Seq<char>) -> bool {
    let ps = spec_split(s, seq![' ']);
    &&& ps.len() >= 2
    &&& (ps[0] =~= seq!['L'] || ps[0] =~= seq!['R'] || ps[0] =~= seq!['U'] || ps[0] =~= seq![
        'D',
    ])
    &&& is_i64_numeral(ps[1])
    &&& 0 <= int_value(ps[1]) <= usize::MAX
}

/// Parse one motion line into its run of unit steps.
pub fn parse_line(s: &str) -> (r: Vec<Step>)
    requires
        line_ok(s@),
    ensures
        r@ == spec_parse_line(s@),
{
    let cs = chars_of(s);
    line_vec(&cs)
}

fn line_vec(l: &Vec<char>) -> (r: Vec<Step>)
    requires
        line_ok(l@),
    ensures
        r@ == spec_parse_line(l@),
{
    let sep: Vec<char> = vec![' '];
    proof {
        assert(sep@ =~= seq![' ']);
    }
    let parts = split_at_seq(l, &sep);
    proof {
        assert(views(parts@).len() == parts@.len());
        assert(parts@[0]@ == spec_split(l@, seq![' '])[0]);
        assert(parts@[1]@ == spec_split(l@, seq![' '])[1]);
    }
    let p0 = &parts[0];
    let step: Step = if p0.len() == 1 && p0[0] == 'L' {
        Step::L
    } else if p0.len() == 1 && p0[0] == 'R' {
        Step::R
    } else if p0.len() == 1 && p0[0] == 'U' {
        Step::U
    } else {
        Step::D
    };
    proof {
        let ps = spec_split(l@, seq![' ']);
        assert(p0@ =~= seq!['L'] ==> p0@.len() == 1 && p0@[0] == 'L');
        assert(p0@ =~= seq!['R'] ==> p0@.len() == 1 && p0@[0] == 'R');
        assert(p0@ =~= seq!['U'] ==> p0@.len() == 1 && p0@[0] == 'U');
        assert((p0@.len() == 1 && p0@[0] == 'L') ==> p0@ =~= seq!['L']);
        assert((p0@.len() == 1 && p0@[0] == 'R') ==> p0@ =~= seq!['R']);
        assert((p0@.len() == 1 && p0@[0] == 'U') ==> p0@ =~= seq!['U']);
    }
    let count_i = parse_i64(&parts[1]).unwrap();
    let count: usize = count_i as usize;
    let mut r: Vec<Step> = Vec::new();
    let mut k: usize = 0;
    while k < count
        invariant
            k <= count,
            r@.len() == k,
            forall|j: int| 0 <= j < k ==> r@[j] == step,
        decreases count - k,
    {
        r.push(step);
        k = k + 1;
    }
    proof {
        assert(r@ =~= spec_parse_line(l@));
    }
    r
}

pub open spec fn spec_parse_lines(ls: Seq<Seq<char>>) -> Seq<Step>
    decreases ls.len(),
{
    if ls.len() == 0 {
        Seq::empty()
    } else {
        spec_parse_lines(ls.drop_last()) + spec_parse_line(ls.last())
    }
}

pub open spec fn input_ok(s: Seq<char>) -> bool {
    forall|i: int| 0 <= i < spec_lines(s).len() ==> line_ok(#[trigger] spec_lines(s)[i])
}

/// Parse the whole motion list.
pub fn parse(s: &str) -> (r: Vec<Step>)
    requires
        input_ok(s@),
    ensures
        r@ == spec_parse_lines(spec_lines(s@)),
{
    let cs = chars_of(s);
    let lines = split_lines(&cs);
    let ghost lv = spec_lines(s@);
    proof {
        assert(views(lines@) == lv);
        assert(views(lines@).len() == lines@.len());
    }
    let mut out: Vec<Step> = Vec::new();
    let mut i: usize = 0;
    proof {
        assert(lv.subrange(0, 0) =~= Seq::<Seq<char>>::empty());
    }
    while i < lines.len()
        invariant
            i <= lines@.len(),
            lv == spec_lines(s@),
            lv == views(lines@),
            lv.len() == lines@.len(),
            forall|k: int| 0 <= k < lv.len() ==> line_ok(#[trigger] lv[k]),
            out@ == spec_parse_lines(lv.subrange(0, i as int)),
        decreases lines@.len() - i,
    {
        proof {
            assert(lines@[i as int]@ == lv[i as int]);
            assert(lv.subrange(0, i + 1).drop_last() =~= lv.subrange(0, i as int));
            assert(lv.subrange(0, i + 1).last() == lv[i as int]);
        }
        let mut steps = line_vec(&lines[i]);
        out.append(&mut steps);
        i = i + 1;
    }
    proof {
        assert(lv.subrange(0, lv.len() as int) =~= lv);
    }
    out
}

/// The distinct cells the tail visits over a run from the origin.
pub open spec fn spec_tail_cells(steps: Seq<Step>) -> Set<Coord> {
    spec_run(((0, 0), (0, 0)), steps).map_values(|s: State| s.1).to_set()
}

fn coord_eq(a: Coord, b: Coord) -> (r: bool)
    ensures
        r == (a == b),
{
    a.0 == b.0 && a.1 == b.1
}

fn contains_coord(v: &Vec<Coord>, c: Coord) -> (r: bool)
    ensures
        r == v@.contains(c),
{
    let mut i: usize = 0;
    while i < v.len()
        invariant
            i <= v@.len(),
            forall|k: int| 0 <= k < i ==> v@[k] != c,
        decreases v@.len() - i,
    {
        if coord_eq(v[i], c) {
            return true;
        }
        i = i + 1;
    }
    false
}

/// Count the distinct tail cells of a two-knot rope run.
pub fn solve1(steps: Vec<Step>) -> (r: i64)
    requires
        steps@.len() <= COORD_BOUND as int / 2,
    ensures
        r == spec_tail_cells(steps@).len(),
{
    let ghost sv = steps@;
    let initial: State = ((0, 0), (0, 0));
    let states = run(initial, steps);
    let ghost tails = states@.map_values(|s: State| s.1);
    let mut seen: Vec<Coord> = Vec::new();
    let mut j: usize = 0;
    proof {
        assert(tails.subrange(0, 0) =~= Seq::<Coord>::empty());
        assert(seen@.to_set() =~= tails.subrange(0, 0).to_set());
    }
    while j < states.len()
        invariant
            j <= states@.len(),
            tails == states@.map_values(|s: State| s.1),
            tails.len() == states@.len(),
            seen@.no_duplicates(),
            seen@.to_set() == tails.subrange(0, j as int).to_set(),
            seen@.len() <= j,
        decreases states@.len() - j,
    {
        let t = states[j].1;
        proof {
            assert(tails[j as int] == states@[j as int].1);
            assert(tails.subrange(0, j + 1) =~= tails.subrange(0, j as int).push(
                tails[j as int],
            ));
            crate::seqs::lemma_push_to_set(tails.subrange(0, j as int), tails[j as int]);
        }
        if !contains_coord(&seen, t) {
            let ghost prev = seen@;
            seen.push(t);
            proof {
                assert(seen@ == prev.push(t));
                assert forall|a: int, b: int| 0 <= a < b < seen@.len() implies seen@[a]
                    != seen@[b] by {
                    if b == seen@.len() - 1 {
                        assert(seen@[a] == prev[a]);
                        assert(!prev.contains(t));
                    }
                }
                crate::seqs::lemma_push_to_set(prev, t);
            }
        } else {
            proof {
                assert(seen@.contains(t));
                assert(seen@.to_set() =~= seen@.to_set().insert(t));
            }
        }
        j = j + 1;
    }
    proof {
        assert(tails.subrange(0, tails.len() as int) =~= tails);
        seen@.unique_seq_to_set();
        assert(seen@.len() == spec_tail_cells(sv).len());
        assert(seen@.len() <= states@.len());
    }
    let n = seen.len();
    proof {
        lemma_run_len(initial, sv);
        assert(n <= states@.len() <= COORD_BOUND as int / 2);
    }
    n as i64
}


/// Each trailing knot follows the one before it by one step.
pub open spec fn spec_follow(lead: Coord, rest: Seq<Coord>) -> Seq<Coord>
    decreases rest.len(),
{
    if rest.len() == 0 {
        Seq::empty()
    } else {
        let t = spec_move_tail(lead, rest[0]);
        seq![t] + spec_follow(t, rest.drop_first())
    }
}

/// Advance a whole ten-knot rope by one step.
pub open spec fn spec_do_step10(s: Seq<Coord>, step: Step) -> Seq<Coord> {
    let h = spec_move_head(s[0], step);
    seq![h] + spec_follow(h, s.drop_first())
}

proof fn lemma_follow_props(lead: Coord, rest: Seq<Coord>)
    ensures
        spec_follow(lead, rest).len() == rest.len(),
        forall|k: int|
            0 <= k < rest.len() ==> #[trigger] spec_follow(lead, rest)[k] == spec_move_tail(
                if k == 0 {
                    lead
                } else {
                    spec_follow(lead, rest)[k - 1]
                },
                rest[k],
            ),
    decreases rest.len(),
{
    if rest.len() > 0 {
        let t = spec_move_tail(lead, rest[0]);
        lemma_follow_props(t, rest.drop_first());
        assert forall|k: int|
            0 <= k < rest.len() implies #[trigger] spec_follow(lead, rest)[k] == spec_move_tail(
            if k == 0 {
                lead
            } else {
                spec_follow(lead, rest)[k - 1]
            },
            rest[k],
        ) by {
            if k > 0 {
                assert(spec_follow(lead, rest)[k] == spec_follow(t, rest.drop_first())[k - 1]);
                assert(rest.drop_first()[k - 1] == rest[k]);
            }
        }
    }
}

proof fn lemma_follow_bounds(lead: Coord, rest: Seq<Coord>, m: int)
    requires
        coord_ok(lead, m + 1),
        forall|j: int| 0 <= j < rest.len() ==> coord_ok(#[trigger] rest[j], m),
    ensures
        forall|k: int|
            0 <= k < spec_follow(lead, rest).len() ==> coord_ok(
                #[trigger] spec_follow(lead, rest)[k],
                m + 1,
            ),
    decreases rest.len(),
{
    if rest.len() > 0 {
        let t = spec_move_tail(lead, rest[0]);
        assert(coord_ok(t, m + 1));
        assert(forall|j: int|
            0 <= j < rest.drop_first().len() ==> coord_ok(#[trigger] rest.drop_first()[j], m));
        lemma_follow_bounds(t, rest.drop_first(), m);
        assert forall|k: int|
            0 <= k < spec_follow(lead, rest).len() implies coord_ok(
            #[trigger] spec_follow(lead, rest)[k],
            m + 1,
        ) by {
            if k > 0 {
                assert(spec_follow(lead, rest)[k] == spec_follow(t, rest.drop_first())[k - 1]);
            }
        }
    }
}

/// Advance the ten knots by one step; knot `k` follows knot `k - 1`.
pub fn do_step10(state: &Vec<Coord>, step: Step) -> (r: Vec<Coord>)
    requires
        state@.len() == 10,
        forall|k: int| 0 <= k < 10 ==> coord_ok(#[trigger] state@[k], COORD_BOUND as int),
    ensures
        r@ == spec_do_step10(state@, step),
        r@.len() == 10,
{
    let ghost spec10 = spec_do_step10(state@, step);
    proof {
        lemma_follow_props(spec_move_head(state@[0], step), state@.drop_first());
        assert(spec10.len() == 10);
    }
    let mut new_state: Vec<Coord> = Vec::new();
    let h = move_head(state[0], step);
    new_state.push(h);
    proof {
        assert(new_state@ =~= spec10.subrange(0, 1));
    }
    let mut i: usize = 1;
    while i < 10
        invariant
            1 <= i <= 10,
            state@.len() == 10,
            forall|k: int| 0 <= k < 10 ==> coord_ok(#[trigger] state@[k], COORD_BOUND as int),
            spec10 == spec_do_step10(state@, step),
            spec10.len() == 10,
            new_state@ == spec10.subrange(0, i as int),
            new_state@.len() == i,
            forall|k: int|
                0 <= k < i ==> coord_ok(#[trigger] new_state@[k], COORD_BOUND as int + 1),
        decreases 10 - i,
    {
        let prev = new_state[i - 1];
        proof {
            let hh = spec_move_head(state@[0], step);
            lemma_follow_props(hh, state@.drop_first());
            assert(spec10[i as int] == spec_follow(hh, state@.drop_first())[i - 1]);
            assert(state@.drop_first()[i - 1] == state@[i as int]);
            if i == 1 {
                assert(spec10[1] == spec_move_tail(hh, state@[1]));
            } else {
                assert(spec_follow(hh, state@.drop_first())[i - 2] == spec10[i - 1]);
            }
        }
        let t = move_tail(prev, state[i]);
        new_state.push(t);
        proof {
            assert(new_state@ =~= spec10.subrange(0, i + 1));
        }
        i = i + 1;
    }
    proof {
        assert(new_state@ =~= spec10);
    }
    new_state
}

fn copy_coords(v: &Vec<Coord>) -> (r: Vec<Coord>)
    ensures
        r@ == v@,
{
    let mut r: Vec<Coord> = Vec::new();
    let mut i: usize = 0;
    while i < v.len()
        invariant
            i <= v@.len(),
            r@ == v@.subrange(0, i as int),
        decreases v@.len() - i,
    {
        r.push(v[i]);
        proof {
            assert(v@.subrange(0, i + 1) =~= v@.subrange(0, i as int).push(v@[i as int]));
        }
        i = i + 1;
    }
    proof {
        assert(v@.subrange(0, v@.len() as int) =~= v@);
    }
    r
}

/// The rope states after each step, ten knots per state.
pub open spec fn spec_run10(initial: Seq<Coord>, steps: Seq<Step>) -> Seq<Seq<Coord>>
    decreases steps.len(),
{
    if steps.len() == 0 {
        Seq::empty()
    } else {
        let first = spec_do_step10(initial, steps[0]);
        seq![first] + spec_run10(first, steps.drop_first())
    }
}

pub open spec fn last_state10(initial: Seq<Coord>, steps: Seq<Step>) -> Seq<Coord> {
    if steps.len() == 0 {
        initial
    } else {
        spec_run10(initial, steps).last()
    }
}

proof fn lemma_run10_len(initial: Seq<Coord>, steps: Seq<Step>)
    ensures
        spec_run10(initial, steps).len() == steps.len(),
    decreases steps.len(),
{
    if steps.len() > 0 {
        lemma_run10_len(spec_do_step10(initial, steps[0]), steps.drop_first());
    }
}

proof fn lemma_run10_snoc(initial: Seq<Coord>, steps: Seq<Step>, st: Step)
    ensures
        spec_run10(initial, steps.push(st)) =~= spec_run10(initial, steps).push(
            spec_do_step10(last_state10(initial, steps), st),
        ),
    decreases steps.len(),
{
    lemma_run10_len(initial, steps);
    if steps.len() == 0 {
        assert(steps.push(st)[0] == st);
        assert(steps.push(st).drop_first() =~= Seq::<Step>::empty());
        let d = spec_do_step10(initial, st);
        assert(spec_run10(initial, steps.push(st)) == seq![d] + spec_run10(
            d,
            steps.push(st).drop_first(),
        ));
        assert(seq![d] + spec_run10(d, steps.push(st).drop_first()) =~= seq![d]);
        assert(spec_run10(initial, steps.push(st)) =~= seq![d]);
    } else {
        let first = spec_do_step10(initial, steps[0]);
        let df = steps.drop_first();
        assert(steps.push(st)[0] == steps[0]);
        assert(steps.push(st).drop_first() =~= df.push(st));
        lemma_run10_snoc(first, df, st);
        lemma_run10_len(first, df);
        assert(spec_run10(initial, steps) == seq![first] + spec_run10(first, df));
        if df.len() == 0 {
            assert(last_state10(first, df) == first);
            assert(spec_run10(initial, steps).last() == first);
        } else {
            assert(spec_run10(initial, steps).last() == spec_run10(first, df).last());
        }
        assert(last_state10(first, df) == last_state10(initial, steps));
        let x = spec_do_step10(last_state10(initial, steps), st);
        assert(spec_run10(initial, steps.push(st)) =~= seq![first] + spec_run10(
            first,
            df.push(st),
        ));
        assert(seq![first] + spec_run10(first, df).push(x) =~= (seq![first] + spec_run10(
            first,
            df,
        )).push(x));
    }
}

/// Run all steps over a ten-knot rope, collecting each state reached.
pub fn run10(initial: Vec<Coord>, steps: Vec<Step>) -> (r: Vec<Vec<Coord>>)
    requires
        initial@.len() == 10,
        forall|k: int| 0 <= k < 10 ==> coord_ok(#[trigger] initial@[k], COORD_BOUND as int / 2),
        steps@.len() <= COORD_BOUND as int / 2,
    ensures
        r@.map_values(|v: Vec<Coord>| v@) == spec_run10(initial@, steps@),
{
    let ghost m0: int = COORD_BOUND as int / 2;
    let ghost iv = initial@;
    let mut r: Vec<Vec<Coord>> = Vec::new();
    let mut cur: Vec<Coord> = initial;
    let mut i: usize = 0;
    proof {
        assert(steps@.subrange(0, 0) =~= Seq::<Step>::empty());
        assert(r@.map_values(|v: Vec<Coord>| v@) =~= spec_run10(iv, steps@.subrange(0, 0)));
    }
    while i < steps.len()
        invariant
            i <= steps@.len(),
            steps@.len() <= m0,
            m0 == COORD_BOUND as int / 2,
            r@.map_values(|v: Vec<Coord>| v@) == spec_run10(iv, steps@.subrange(0, i as int)),
            r@.len() == i,
            cur@ == last_state10(iv, steps@.subrange(0, i as int)),
            cur@.len() == 10,
            forall|k: int| 0 <= k < 10 ==> coord_ok(#[trigger] cur@[k], m0 + i),
        decreases steps@.len() - i,
    {
        let next = do_step10(&cur, steps[i]);
        proof {
            lemma_follow_bounds(
                spec_move_head(cur@[0], steps@[i as int]),
                cur@.drop_first(),
                m0 + i,
            );
            assert forall|k: int| 0 <= k < 10 implies coord_ok(
                #[trigger] next@[k],
                m0 + i + 1,
            ) by {
                if k > 0 {
                    assert(next@[k] == spec_follow(
                        spec_move_head(cur@[0], steps@[i as int]),
                        cur@.drop_first(),
                    )[k - 1]);
                }
            }
            lemma_run10_snoc(iv, steps@.subrange(0, i as int), steps@[i as int]);
            assert(steps@.subrange(0, i as int).push(steps@[i as int]) =~= steps@.subrange(
                0,
                i + 1,
            ));
            lemma_run10_len(iv, steps@.subrange(0, i + 1));
        }
        let ghost prev_r = r@;
        let ghost nextv = next@;
        let nextc = copy_coords(&next);
        r.push(next);
        cur = nextc;
        proof {
            assert(r@.map_values(|v: Vec<Coord>| v@) =~= prev_r.map_values(
                |v: Vec<Coord>| v@,
            ).push(nextv));
        }
        i = i + 1;
    }
    proof {
        assert(steps@.subrange(0, steps@.len() as int) =~= steps@);
    }
    r
}

/// The distinct cells the last of ten knots visits.
pub open spec fn spec_tail10_cells(steps: Seq<Step>) -> Set<Coord> {
    spec_run10(Seq::new(10, |k: int| (0i64, 0i64)), steps).map_values(
        |s: Seq<Coord>| s[9],
    ).to_set()
}

/// Count the distinct cells visited by the last knot of a ten-knot rope.
pub fn solve2(steps: Vec<Step>) -> (r: i64)
    requires
        steps@.len() <= COORD_BOUND as int / 2,
    ensures
        r == spec_tail10_cells(steps@).len(),
{
    let ghost sv = steps@;
    let mut initial: Vec<Coord> = Vec::new();
    let mut z: usize = 0;
    while z < 10
        invariant
            z <= 10,
            initial@.len() == z,
            forall|k: int| 0 <= k < z ==> #[trigger] initial@[k] == (0i64, 0i64),
        decreases 10 - z,
    {
        initial.push((0, 0));
        z = z + 1;
    }
    proof {
        assert(initial@ =~= Seq::new(10, |k: int| (0i64, 0i64)));
    }
    let states = run10(initial, steps);
    let ghost sviews = states@.map_values(|v: Vec<Coord>| v@);
    let ghost tails = sviews.map_values(|s: Seq<Coord>| s[9]);
    let mut seen: Vec<Coord> = Vec::new();
    let mut j: usize = 0;
    proof {
        assert(tails.subrange(0, 0) =~= Seq::<Coord>::empty());
        assert(seen@.to_set() =~= tails.subrange(0, 0).to_set());
        lemma_run10_len(Seq::new(10, |k: int| (0i64, 0i64)), sv);
        assert forall|k: int| 0 <= k < sviews.len() implies #[trigger] sviews[k].len() == 10 by {
            lemma_run10_elt_len(Seq::new(10, |k2: int| (0i64, 0i64)), sv, k);
        }
    }
    while j < states.len()
        invariant
            j <= states@.len(),
            sviews == states@.map_values(|v: Vec<Coord>| v@),
            tails == sviews.map_values(|s: Seq<Coord>| s[9]),
            tails.len() == states@.len(),
            forall|k: int| 0 <= k < sviews.len() ==> #[trigger] sviews[k].len() == 10,
            seen@.no_duplicates(),
            seen@.to_set() == tails.subrange(0, j as int).to_set(),
            seen@.len() <= j,
        decreases states@.len() - j,
    {
        proof {
            assert(sviews[j as int] == states@[j as int]@);
            assert(sviews[j as int].len() == 10);
        }
        let t = states[j][9];
        proof {
            assert(tails[j as int] == sviews[j as int][9]);
            assert(t == tails[j as int]);
            assert(tails.subrange(0, j + 1) =~= tails.subrange(0, j as int).push(
                tails[j as int],
            ));
            crate::seqs::lemma_push_to_set(tails.subrange(0, j as int), tails[j as int]);
        }
        if !contains_coord(&seen, t) {
            let ghost prev = seen@;
            seen.push(t);
            proof {
                assert(seen@ == prev.push(t));
                assert forall|a: int, b: int| 0 <= a < b < seen@.len() implies seen@[a]
                    != seen@[b] by {
                    if b == seen@.len() - 1 {
                        assert(seen@[a] == prev[a]);
                        assert(!prev.contains(t));
                    }
                }
                crate::seqs::lemma_push_to_set(prev, t);
            }
        } else {
            proof {
                assert(seen@.contains(t));
                assert(seen@.to_set() =~= seen@.to_set().insert(t));
            }
        }
        j = j + 1;
    }
    proof {
        assert(tails.subrange(0, tails.len() as int) =~= tails);
        seen@.unique_seq_to_set();
        assert(seen@.len() == spec_tail10_cells(sv).len());
    }
    let n = seen.len();
    proof {
        lemma_run10_len(Seq::new(10, |k: int| (0i64, 0i64)), sv);
        assert(n <= states@.len() <= COORD_BOUND as int / 2);
    }
    n as i64
}

proof fn lemma_run10_elt_len(initial: Seq<Coord>, steps: Seq<Step>, k: int)
    requires
        initial.len() == 10,
        0 <= k < spec_run10(initial, steps).len(),
    ensures
        spec_run10(initial, steps)[k].len() == 10,
    decreases steps.len(),
{
    if steps.len() > 0 {
        let first = spec_do_step10(initial, steps[0]);
        lemma_follow_props(spec_move_head(initial[0], steps[0]), initial.drop_first());
        assert(first.len() == 10);
        if k > 0 {
            lemma_run10_elt_len(first, steps.drop_first(), k - 1);
            assert(spec_run10(initial, steps)[k] == spec_run10(first, steps.drop_first())[k - 1]);
        }
    }
}


} // verus!
