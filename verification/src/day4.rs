//! Paired inclusive ranges, one pair per `a-b,x-y` line: count the pairs
//! where one range contains the other, and the pairs that overlap at all.

use vstd::prelude::*;
use crate::text::{chars_of, split_at_seq, parse_i64, spec_split, is_i64_numeral, int_value, views};

verus! {

pub open spec fn range_ok(s: Seq<char>) -> bool {
    let rp = spec_split(s, seq!['-']);
    rp.len() == 2 && is_i64_numeral(rp[0]) && is_i64_numeral(rp[1])
}

/// The two bounds named by an `a-b` piece.
pub open spec fn spec_range(s: Seq<char>) -> (int, int) {
    let rp = spec_split(s, seq!['-']);
    (int_value(rp[0]), int_value(rp[1]))
}

pub open spec fn line_ok(s: Seq<char>) -> bool {
    let ps = spec_split(s, seq![',']);
    ps.len() == 2 && range_ok(ps[0]) && range_ok(ps[1])
}

pub open spec fn spec_includes(a: (i64, i64), b: (i64, i64)) -> bool {
    a.0 <= b.0 && a.1 >= b.1
}

pub open spec fn spec_either_includes(a: (i64, i64), b: (i64, i64)) -> bool {
    spec_includes(a, b) || spec_includes(b, a)
}

pub open spec fn spec_overlaps(a: (i64, i64), b: (i64, i64)) -> bool {
    (a.0 <= b.0 && b.0 <= a.1) || (a.0 <= b.1 && b.1 <= a.1) || (b.0 < a.0 && a.1 < b.1)
}

pub open spec fn count_included(s: Seq<((i64, i64), (i64, i64))>) -> int
    decreases s.len(),
{
    if s.len() == 0 {
        0
    } else {
        count_included(s.drop_last()) + if spec_either_includes(s.last().0, s.last().1) {
            1int
        } else {
            0int
        }
    }
}

pub open spec fn count_overlapping(s: Seq<((i64, i64), (i64, i64))>) -> int
    decreases s.len(),
{
    if s.len() == 0 {
        0
    } else {
        count_overlapping(s.drop_last()) + if spec_overlaps(s.last().0, s.last().1) {
            1int
        } else {
            0int
        }
    }
}

/// Parse one `a-b` piece of a line.
fn range_of(p: &Vec<char>) -> (r: (i64, i64))
    requires
        range_ok(p@),
    ensures
        (r.0 as int, r.1 as int) == spec_range(p@),
{
    let sep: Vec<char> = vec!['-'];
    proof {
        assert(sep@ =~= seq!['-']);
    }
    let parts = split_at_seq(p, &sep);
    proof {
        assert(views(parts@).len() == parts@.len());
        assert(parts@[0]@ == spec_split(p@, seq!['-'])[0]);
        assert(parts@[1]@ == spec_split(p@, seq!['-'])[1]);
    }
    let lo = parse_i64(&parts[0]).unwrap();
    let hi = parse_i64(&parts[1]).unwrap();
    (lo, hi)
}

/// Parse an `a-b` range given as its own string.
pub fn parse_range(s: &str) -> (r: (i64, i64))
    requires
        range_ok(s@),
    ensures
        (r.0 as int, r.1 as int) == spec_range(s@),
{
    let cs = chars_of(s);
    range_of(&cs)
}

/// Parse one `a-b,x-y` line into its two inclusive ranges.
pub fn parse_line(s: &str) -> (r: ((i64, i64), (i64, i64)))
    requires
        line_ok(s@),
    ensures
        (r.0.0 as int, r.0.1 as int) == spec_range(spec_split(s@, seq![','])[0]),
        (r.1.0 as int, r.1.1 as int) == spec_range(spec_split(s@, seq![','])[1]),
{
    let cs = chars_of(s);
    let sep: Vec<char> = vec![','];
    proof {
        assert(sep@ =~= seq![',']);
    }
    let parts = split_at_seq(&cs, &sep);
    proof {
        assert(views(parts@).len() == parts@.len());
        assert(parts@[0]@ == spec_split(s@, seq![','])[0]);
        assert(parts@[1]@ == spec_split(s@, seq![','])[1]);
    }
    let a = range_of(&parts[0]);
    let b = range_of(&parts[1]);
    (a, b)
}

/// Whether range `a` wholly contains range `b`.
pub fn includes(a: &(i64, i64), b: &(i64, i64)) -> (r: bool)
    ensures
        r == spec_includes(*a, *b),
{
    a.0 <= b.0 && a.1 >= b.1
}

/// Whether either range wholly contains the other.
pub fn either_includes(a: &(i64, i64), b: &(i64, i64)) -> (r: bool)
    ensures
        r == spec_either_includes(*a, *b),
{
    includes(a, b) || includes(b, a)
}

/// Whether the two ranges share any point.
pub fn overlaps(a: &(i64, i64), b: &(i64, i64)) -> (r: bool)
    ensures
        r == spec_overlaps(*a, *b),
{
    (a.0 <= b.0 && b.0 <= a.1) || (a.0 <= b.1 && b.1 <= a.1) || (b.0 < a.0 && a.1 < b.1)
}

/// Count the pairs where one range contains the other.
pub fn solve1(input: &Vec<((i64, i64), (i64, i64))>) -> (r: i64)
    requires
        input@.len() <= i64::MAX,
    ensures
        r == count_included(input@),
{
    let mut cnt: i64 = 0;
    let mut i: usize = 0;
    while i < input.len()
        invariant
            i <= input@.len(),
            input@.len() <= i64::MAX,
            0 <= cnt <= i,
            cnt == count_included(input@.subrange(0, i as int)),
        decreases input@.len() - i,
    {
        let p = input[i];
        if either_includes(&p.0, &p.1) {
            cnt = cnt + 1;
        }
        proof {
            assert(input@.subrange(0, i + 1).drop_last() =~= input@.subrange(0, i as int));
            assert(input@.subrange(0, i + 1).last() == input@[i as int]);
        }
        i = i + 1;
    }
    proof {
        assert(input@.subrange(0, input@.len() as int) =~= input@);
    }
    cnt
}

/// Count the pairs whose ranges overlap at all.
pub fn solve2(input: &Vec<((i64, i64), (i64, i64))>) -> (r: i64)
    requires
        input@.len() <= i64::MAX,
    ensures
        r == count_overlapping(input@),
{
    let mut cnt: i64 = 0;
    let mut i: usize = 0;
    while i < input.len()
        invariant
            i <= input@.len(),
            input@.len() <= i64::MAX,
            0 <= cnt <= i,
            cnt == count_overlapping(input@.subrange(0, i as int)),
        decreases input@.len() - i,
    {
        let p = input[i];
        if overlaps(&p.0, &p.1) {
            cnt = cnt + 1;
        }
        proof {
            assert(input@.subrange(0, i + 1).drop_last() =~= input@.subrange(0, i as int));
            assert(input@.subrange(0, i + 1).last() == input@[i as int]);
        }
        i = i + 1;
    }
    proof {
        assert(input@.subrange(0, input@.len() as int) =~= input@);
    }
    cnt
}

} // verus!
