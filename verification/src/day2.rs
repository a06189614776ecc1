//! Rock-paper-scissors strategy guides: one `X Y`-style pair per line,
//! scored under two different readings of the second column.

use vstd::prelude::*;
use crate::text::{chars_of, split_lines, split_at_seq, spec_split, spec_lines, views};

verus! {

/// The round score when the second letter names the shape played.
pub open spec fn spec_score1(p: (char, char)) -> int {
    let shape: int = if p.1 == 'X' {
        1
    } else if p.1 == 'Y' {
        2
    } else if p.1 == 'Z' {
        3
    } else {
        0
    };
    let win: int = if (p.0 == 'A' && p.1 == 'Y') || (p.0 == 'B' && p.1 == 'Z') || (p.0 == 'C'
        && p.1 == 'X') {
        6
    } else if (p.0 == 'A' && p.1 == 'X') || (p.0 == 'B' && p.1 == 'Y') || (p.0 == 'C' && p.1
        == 'Z') {
        3
    } else {
        0
    };
    shape + win
}

/// The round score when the second letter names the required outcome.
pub open spec fn spec_score2(p: (char, char)) -> int {
    let win: int = if p.1 == 'X' {
        0
    } else if p.1 == 'Y' {
        3
    } else if p.1 == 'Z' {
        6
    } else {
        0
    };
    let shape: int = if (p.0 == 'A' && p.1 == 'Y') || (p.0 == 'B' && p.1 == 'X') || (p.0 == 'C'
        && p.1 == 'Z') {
        1
    } else if (p.0 == 'A' && p.1 == 'Z') || (p.0 == 'B' && p.1 == 'Y') || (p.0 == 'C' && p.1
        == 'X') {
        2
    } else if (p.0 == 'A' && p.1 == 'X') || (p.0 == 'B' && p.1 == 'Z') || (p.0 == 'C' && p.1
        == 'Y') {
        3
    } else {
        0
    };
    shape + win
}

/// What one line parses to: the first characters of its first two
/// space-separated fields, if both fields are nonempty.
pub open spec fn spec_parse_line(s: Seq<char>) -> Option<(char, char)> {
    let ps = spec_split(s, seq![' ']);
    if ps[0].len() > 0 && ps[1].len() > 0 {
        Some((ps[0][0], ps[1][0]))
    } else {
        None
    }
}

pub open spec fn line_ok(s: Seq<char>) -> bool {
    spec_split(s, seq![' ']).len() >= 2
}

/// The pairs the parseable lines yield, in order.
pub open spec fn spec_pairs(ls: Seq<Seq<char>>) -> Seq<(char, char)>
    decreases ls.len(),
{
    if ls.len() == 0 {
        Seq::empty()
    } else {
        spec_pairs(ls.drop_last()) + match spec_parse_line(ls.last()) {
            Some(p) => seq![p],
            None => Seq::empty(),
        }
    }
}

pub open spec fn sum_score1(s: Seq<(char, char)>) -> int
    decreases s.len(),
{
    if s.len() == 0 {
        0
    } else {
        sum_score1(s.drop_last()) + spec_score1(s.last())
    }
}

pub open spec fn sum_score2(s: Seq<(char, char)>) -> int
    decreases s.len(),
{
    if s.len() == 0 {
        0
    } else {
        sum_score2(s.drop_last()) + spec_score2(s.last())
    }
}

fn line_pair(l: &Vec<char>) -> (r: Option<(char, char)>)
    requires
        line_ok(l@),
    ensures
        r == spec_parse_line(l@),
{
    let sep: Vec<char> = vec![' '];
    proof {
        assert(sep@ =~= seq![' ']);
    }
    let parts = split_at_seq(l, &sep);
    proof {
        assert(views(parts@).len() == parts@.len());
        assert(parts@[0]@ == spec_split(l@, seq![' '])[0]);
        assert(parts@[1]@ == spec_split(l@, seq![' '])[1]);
    }
    if parts[0].len() > 0 && parts[1].len() > 0 {
        Some((parts[0][0], parts[1][0]))
    } else {
        None
    }
}

/// Parse one strategy line into its two letters.
pub fn parse_line(line_str: &str) -> (r: Option<(char, char)>)
    requires
        line_ok(line_str@),
    ensures
        r == spec_parse_line(line_str@),
{
    let cs = chars_of(line_str);
    line_pair(&cs)
}

/// Parse the whole guide, keeping each parseable line's pair.
pub fn parse_input(input_str: &str) -> (r: Vec<(char, char)>)
    requires
        forall|i: int|
            0 <= i < spec_lines(input_str@).len() ==> line_ok(#[trigger] spec_lines(input_str@)[i]),
    ensures
        r@ == spec_pairs(spec_lines(input_str@)),
{
    let cs = chars_of(input_str);
    let lines = split_lines(&cs);
    let ghost lv = spec_lines(input_str@);
    proof {
        assert(views(lines@) == lv);
        assert(views(lines@).len() == lines@.len());
    }
    let mut out: Vec<(char, char)> = Vec::new();
    let mut i: usize = 0;
    proof {
        assert(lv.subrange(0, 0) =~= Seq::<Seq<char>>::empty());
    }
    while i < lines.len()
        invariant
            i <= lines@.len(),
            lv == spec_lines(input_str@),
            lv == views(lines@),
            lv.len() == lines@.len(),
            forall|k: int| 0 <= k < lv.len() ==> line_ok(#[trigger] lv[k]),
            out@ == spec_pairs(lv.subrange(0, i as int)),
        decreases lines@.len() - i,
    {
        proof {
            assert(lines@[i as int]@ == lv[i as int]);
            assert(lv.subrange(0, i + 1).drop_last() =~= lv.subrange(0, i as int));
            assert(lv.subrange(0, i + 1).last() == lv[i as int]);
        }
        match line_pair(&lines[i]) {
            Some(p) => {
                out.push(p);
            },
            None => {
            },
        }
        i = i + 1;
    }
    proof {
        assert(lv.subrange(0, lv.len() as int) =~= lv);
    }
    out
}

/// Score one round, second letter read as a shape.
pub fn score1(p: &(char, char)) -> (r: i64)
    ensures
        r == spec_score1(*p),
        0 <= r <= 9,
{
    let shape: i64 = if p.1 == 'X' {
        1
    } else if p.1 == 'Y' {
        2
    } else if p.1 == 'Z' {
        3
    } else {
        0
    };
    let win: i64 = if (p.0 == 'A' && p.1 == 'Y') || (p.0 == 'B' && p.1 == 'Z') || (p.0 == 'C'
        && p.1 == 'X') {
        6
    } else if (p.0 == 'A' && p.1 == 'X') || (p.0 == 'B' && p.1 == 'Y') || (p.0 == 'C' && p.1
        == 'Z') {
        3
    } else {
        0
    };
    shape + win
}

/// Score one round, second letter read as an outcome.
pub fn score2(p: &(char, char)) -> (r: i64)
    ensures
        r == spec_score2(*p),
        0 <= r <= 9,
{
    let win: i64 = if p.1 == 'X' {
        0
    } else if p.1 == 'Y' {
        3
    } else if p.1 == 'Z' {
        6
    } else {
        0
    };
    let shape: i64 = if (p.0 == 'A' && p.1 == 'Y') || (p.0 == 'B' && p.1 == 'X') || (p.0 == 'C'
        && p.1 == 'Z') {
        1
    } else if (p.0 == 'A' && p.1 == 'Z') || (p.0 == 'B' && p.1 == 'Y') || (p.0 == 'C' && p.1
        == 'X') {
        2
    } else if (p.0 == 'A' && p.1 == 'X') || (p.0 == 'B' && p.1 == 'Z') || (p.0 == 'C' && p.1
        == 'Y') {
        3
    } else {
        0
    };
    shape + win
}

/// Total score under the first reading.
pub fn solve1(input: &[(char, char)]) -> (r: i64)
    requires
        input@.len() * 9 <= i64::MAX,
    ensures
        r == sum_score1(input@),
{
    let mut s: i64 = 0;
    let mut i: usize = 0;
    while i < input.len()
        invariant
            i <= input@.len(),
            input@.len() * 9 <= i64::MAX,
            0 <= s <= i * 9,
            s == sum_score1(input@.subrange(0, i as int)),
        decreases input@.len() - i,
    {
        proof {
            assert(input@.subrange(0, i + 1).drop_last() =~= input@.subrange(0, i as int));
            assert(input@.subrange(0, i + 1).last() == input@[i as int]);
            assert((i + 1) * 9 == i * 9 + 9) by (nonlinear_arith);
            assert(i * 9 <= input@.len() * 9) by (nonlinear_arith)
                requires
                    0 <= i as int + 1 <= input@.len(),
            ;
        }
        let p = input[i];
        let sc = score1(&p);
        s = s + sc;
        i = i + 1;
    }
    proof {
        assert(input@.subrange(0, input@.len() as int) =~= input@);
    }
    s
}

/// Total score under the second reading.
pub fn solve2(input: &[(char, char)]) -> (r: i64)
    requires
        input@.len() * 9 <= i64::MAX,
    ensures
        r == sum_score2(input@),
{
    let mut s: i64 = 0;
    let mut i: usize = 0;
    while i < input.len()
        invariant
            i <= input@.len(),
            input@.len() * 9 <= i64::MAX,
            0 <= s <= i * 9,
            s == sum_score2(input@.subrange(0, i as int)),
        decreases input@.len() - i,
    {
        proof {
            assert(input@.subrange(0, i + 1).drop_last() =~= input@.subrange(0, i as int));
            assert(input@.subrange(0, i + 1).last() == input@[i as int]);
            assert((i + 1) * 9 == i * 9 + 9) by (nonlinear_arith);
            assert(i * 9 <= input@.len() * 9) by (nonlinear_arith)
                requires
                    0 <= i as int + 1 <= input@.len(),
            ;
        }
        let p = input[i];
        let sc = score2(&p);
        s = s + sc;
        i = i + 1;
    }
    proof {
        assert(input@.subrange(0, input@.len() as int) =~= input@);
    }
    s
}

} // verus!
