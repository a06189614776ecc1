//! A one-register machine: `noop` holds the register for a cycle,
//! `addx` holds it for two and then adds. Sum the signal strengths at
//! the sampled cycles, and draw the sprite-lit pixels.

use vstd::prelude::*;
use crate::nums::{spec_abs, abs_i64};
use crate::text::{chars_of, split_lines, split_at_seq, parse_i64, eq_str, spec_split, spec_lines, is_i64_numeral, int_value, views};

verus! {

#[derive(Clone, Copy, Debug)]
pub enum I {
    Addx(i64),
    Noop,
}

/// The register values the machine shows during one instruction.
pub open spec fn spec_do_step(s: int, i: I) -> Seq<int> {
    match i {
        I::Noop => seq![s],
        I::Addx(x) => seq![s, s + x],
    }
}

pub open spec fn step_last(s: int, i: I) -> int {
    match i {
        I::Noop => s,
        I::Addx(x) => s + x,
    }
}

/// Every register value over a whole program, the initial value first.
pub open spec fn spec_run(initial: int, is: Seq<I>) -> Seq<int> {
    seq![initial] + spec_tail(initial, is)
}

pub open spec fn spec_tail(s: int, is: Seq<I>) -> Seq<int>
    decreases is.len(),
{
    if is.len() == 0 {
        Seq::empty()
    } else {
        spec_do_step(s, is[0]) + spec_tail(step_last(s, is[0]), is.drop_first())
    }
}

pub open spec fn states_in_range(ss: Seq<int>) -> bool {
    forall|k: int| 0 <= k < ss.len() ==> i64::MIN <= #[trigger] ss[k] <= i64::MAX
}

/// The register values one instruction shows.
pub fn do_step(s: i64, i: I) -> (r: Vec<i64>)
    requires
        match i {
            I::Noop => true,
            I::Addx(x) => i64::MIN <= s + x <= i64::MAX,
        },
    ensures
        r@.map_values(|v: i64| v as int) == spec_do_step(s as int, i),
{
    let mut r: Vec<i64> = Vec::new();
    match i {
        I::Noop => {
            r.push(s);
        },
        I::Addx(x) => {
            r.push(s);
            r.push(s + x);
        },
    }
    proof {
        assert(r@.map_values(|v: i64| v as int) =~= spec_do_step(s as int, i));
    }
    r
}

/// Run the program, collecting the register value of every cycle.
pub fn run(initial_s: i64, is: Vec<I>) -> (r: Vec<i64>)
    requires
        states_in_range(spec_run(initial_s as int, is@)),
    ensures
        r@.map_values(|v: i64| v as int) == spec_run(initial_s as int, is@),
{
    let ghost whole = spec_run(initial_s as int, is@);
    let mut r: Vec<i64> = Vec::new();
    r.push(initial_s);
    let mut cur: i64 = initial_s;
    let mut i: usize = 0;
    proof {
        assert(is@.skip(0) =~= is@);
        assert(r@.map_values(|v: i64| v as int) =~= seq![initial_s as int]);
        assert(whole =~= r@.map_values(|v: i64| v as int) + spec_tail(cur as int, is@.skip(0)));
    }
    while i < is.len()
        invariant
            i <= is@.len(),
            whole == spec_run(initial_s as int, is@),
            states_in_range(whole),
            whole =~= r@.map_values(|v: i64| v as int) + spec_tail(cur as int, is@.skip(i as int)),
            r@.len() >= 1,
        decreases is@.len() - i,
    {
        let ins = is[i];
        let ghost rv = r@.map_values(|v: i64| v as int);
        let ghost tail_here = spec_tail(cur as int, is@.skip(i as int));
        proof {
            assert(is@.skip(i as int)[0] == is@[i as int]);
            assert(is@.skip(i as int).drop_first() =~= is@.skip(i + 1));
            assert(tail_here == spec_do_step(cur as int, is@[i as int]) + spec_tail(
                step_last(cur as int, is@[i as int]),
                is@.skip(i + 1),
            ));
            match is@[i as int] {
                I::Noop => {},
                I::Addx(x) => {
                    assert(whole[rv.len() as int] == cur as int);
                    assert(whole[rv.len() as int + 1] == cur + x);
                },
            }
        }
        match ins {
            I::Noop => {
                r.push(cur);
                proof {
                    assert(r@.map_values(|v: i64| v as int) =~= rv.push(cur as int));
                    assert(r@.map_values(|v: i64| v as int) + spec_tail(
                        cur as int,
                        is@.skip(i + 1),
                    ) =~= whole);
                }
            },
            I::Addx(x) => {
                r.push(cur);
                let next = cur + x;
                r.push(next);
                cur = next;
                proof {
                    assert(r@.map_values(|v: i64| v as int) =~= rv.push(
                        whole[rv.len() as int],
                    ).push(whole[rv.len() as int + 1]));
                    assert(r@.map_values(|v: i64| v as int) + spec_tail(
                        cur as int,
                        is@.skip(i + 1),
                    ) =~= whole);
                }
            },
        }
        i = i + 1;
    }
    proof {
        assert(is@.skip(is@.len() as int) =~= Seq::<I>::empty());
        assert(r@.map_values(|v: i64| v as int) + Seq::<int>::empty() =~= r@.map_values(
            |v: i64| v as int,
        ));
    }
    r
}

/// The sampled signal strengths over the first `n` cycles: every 40th
/// cycle starting at cycle 20 contributes its cycle number times the
/// register value.
pub open spec fn spec_signal_sum(ss: Seq<int>, n: int) -> int
    decreases n,
{
    if n <= 0 {
        0
    } else {
        spec_signal_sum(ss, n - 1) + if (n - 1) % 40 == 19 {
            n * ss[n - 1]
        } else {
            0int
        }
    }
}

/// Sum the sampled signal strengths of the whole run.
pub fn solve1(is: Vec<I>) -> (r: i64)
    requires
        states_in_range(spec_run(1, is@)),
        spec_run(1, is@).len() <= i64::MAX,
        forall|n: int|
            0 <= n <= spec_run(1, is@).len() ==> i64::MIN <= #[trigger] spec_signal_sum(
                spec_run(1, is@),
                n,
            ) <= i64::MAX,
        forall|k: int|
            0 <= k < spec_run(1, is@).len() && k % 40 == 19 ==> i64::MIN <= (k + 1)
                * #[trigger] spec_run(1, is@)[k] <= i64::MAX,
    ensures
        r == spec_signal_sum(spec_run(1, is@), spec_run(1, is@).len() as int),
{
    let ghost ss = spec_run(1, is@);
    let states = run(1, is);
    proof {
        assert(states@.map_values(|v: i64| v as int).len() == states@.len());
    }
    let mut sum: i64 = 0;
    let mut k: usize = 0;
    while k < states.len()
        invariant
            k <= states@.len(),
            ss == states@.map_values(|v: i64| v as int),
            ss.len() == states@.len(),
            ss.len() <= i64::MAX,
            forall|n: int|
                0 <= n <= ss.len() ==> i64::MIN <= #[trigger] spec_signal_sum(ss, n) <= i64::MAX,
            forall|t: int|
                0 <= t < ss.len() && t % 40 == 19 ==> i64::MIN <= (t + 1) * #[trigger] ss[t]
                    <= i64::MAX,
            sum == spec_signal_sum(ss, k as int),
        decreases states@.len() - k,
    {
        proof {
            assert(ss[k as int] == states@[k as int] as int);
        }
        if k % 40 == 19 {
            let cycle = (k + 1) as i64;
            proof {
                assert(i64::MIN <= (k + 1) * ss[k as int] <= i64::MAX);
                assert(cycle * states@[k as int] == (k + 1) * ss[k as int]);
                assert(spec_signal_sum(ss, k + 1) == spec_signal_sum(ss, k as int) + (k + 1)
                    * ss[k as int]);
                assert(i64::MIN <= spec_signal_sum(ss, k + 1) <= i64::MAX);
            }
            sum = sum + cycle * states[k];
        }
        k = k + 1;
    }
    sum
}

/// One pixel: lit when the sprite, three cells wide around the register
/// value, covers the beam column of that cycle.
pub open spec fn spec_pixel(s: int, k: int) -> char {
    if spec_abs(s - k % 40) <= 1 {
        '#'
    } else {
        '.'
    }
}

/// The pixels the run draws, one per cycle.
pub fn crt_pixels(is: Vec<I>) -> (r: Vec<char>)
    requires
        states_in_range(spec_run(1, is@)),
        forall|k: int|
            0 <= k < spec_run(1, is@).len() ==> i64::MIN + 40 <= #[trigger] spec_run(1, is@)[k],
    ensures
        r@.len() == spec_run(1, is@).len(),
        forall|k: int|
            0 <= k < r@.len() ==> #[trigger] r@[k] == spec_pixel(spec_run(1, is@)[k], k),
{
    let ghost ss = spec_run(1, is@);
    let states = run(1, is);
    proof {
        assert(states@.map_values(|v: i64| v as int).len() == states@.len());
    }
    let mut r: Vec<char> = Vec::new();
    let mut k: usize = 0;
    while k < states.len()
        invariant
            k <= states@.len(),
            ss == states@.map_values(|v: i64| v as int),
            ss.len() == states@.len(),
            forall|t: int|
                0 <= t < ss.len() ==> i64::MIN + 40 <= #[trigger] ss[t] <= i64::MAX,
            r@.len() == k,
            forall|t: int| 0 <= t < k ==> #[trigger] r@[t] == spec_pixel(ss[t], t),
        decreases states@.len() - k,
    {
        proof {
            assert(ss[k as int] == states@[k as int] as int);
        }
        let s = states[k];
        let beam = (k % 40) as i64;
        let c = if abs_i64(s - beam) <= 1 {
            '#'
        } else {
            '.'
        };
        r.push(c);
        k = k + 1;
    }
    r
}

// ---- parsing ----

pub open spec fn noop_word() -> Seq<char> {
    seq!['n', 'o', 'o', 'p']
}

pub open spec fn line_ok(l: Seq<char>) -> bool {
    ||| l == noop_word()
    ||| {
        let ps = spec_split(l, seq![' ']);
        ps.len() >= 2 && is_i64_numeral(ps[1])
    }
}

/// The instruction a line denotes.
pub open spec fn spec_parse_line(l: Seq<char>) -> I {
    if l == noop_word() {
        I::Noop
    } else {
        I::Addx(int_value(spec_split(l, seq![' '])[1]) as i64)
    }
}

fn line_of(l: &Vec<char>) -> (r: I)
    requires
        line_ok(l@),
    ensures
        r == spec_parse_line(l@),
{
    if eq_str(l, "noop") {
        proof {
            reveal_strlit("noop");
            assert("noop"@ =~= noop_word());
        }
        I::Noop
    } else {
        proof {
            reveal_strlit("noop");
            assert("noop"@ =~= noop_word());
        }
        let sep: Vec<char> = vec![' '];
        proof {
            assert(sep@ =~= seq![' ']);
        }
        let parts = split_at_seq(l, &sep);
        proof {
            assert(views(parts@).len() == parts@.len());
            assert(parts@[1]@ == spec_split(l@, seq![' '])[1]);
        }
        I::Addx(parse_i64(&parts[1]).unwrap())
    }
}

/// Parse one instruction line.
pub fn parse_line(s: &str) -> (r: I)
    requires
        line_ok(s@),
    ensures
        r == spec_parse_line(s@),
{
    let cs = chars_of(s);
    line_of(&cs)
}

pub open spec fn input_ok(s: Seq<char>) -> bool {
    forall|i: int| 0 <= i < spec_lines(s).len() ==> line_ok(#[trigger] spec_lines(s)[i])
}

/// Parse the whole program.
pub fn parse(s: &str) -> (r: Vec<I>)
    requires
        input_ok(s@),
    ensures
        r@.len() == spec_lines(s@).len(),
        forall|i: int|
            0 <= i < r@.len() ==> #[trigger] r@[i] == spec_parse_line(spec_lines(s@)[i]),
{
    let cs = chars_of(s);
    let lines = split_lines(&cs);
    let ghost lv = spec_lines(s@);
    proof {
        assert(views(lines@) == lv);
        assert(views(lines@).len() == lines@.len());
    }
    let mut out: Vec<I> = Vec::new();
    let mut i: usize = 0;
    while i < lines.len()
        invariant
            i <= lines@.len(),
            lv == spec_lines(s@),
            lv == views(lines@),
            lv.len() == lines@.len(),
            forall|k: int| 0 <= k < lv.len() ==> line_ok(#[trigger] lv[k]),
            out@.len() == i,
            forall|k: int| 0 <= k < i ==> #[trigger] out@[k] == spec_parse_line(lv[k]),
        decreases lines@.len() - i,
    {
        proof {
            assert(lines@[i as int]@ == lv[i as int]);
        }
        let ins = line_of(&lines[i]);
        out.push(ins);
        i = i + 1;
    }
    out
}

} // verus!
