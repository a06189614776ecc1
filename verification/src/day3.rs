//! Rucksack item priorities: find the item common to both halves of a
//! sack, or to each group of three sacks, and total the priorities.

use vstd::prelude::*;
use crate::text::chars_of;

verus! {

pub open spec fn is_ascii_alpha(c: char) -> bool {
    ('A' <= c && c <= 'Z') || ('a' <= c && c <= 'z')
}

/// The scoring of an item letter: `a..z` map to 1..26, `A..Z` to 27..52.
pub open spec fn spec_priority(c: char) -> int {
    if 'A' <= c && c <= 'Z' {
        c as int - 38
    } else {
        c as int - 96
    }
}

/// The first item of `a`, scanning left to right, that also occurs in `b`.
pub open spec fn spec_first_common(a: Seq<char>, b: Seq<char>) -> Option<char>
    decreases a.len(),
{
    if a.len() == 0 {
        None
    } else if b.contains(a[0]) {
        Some(a[0])
    } else {
        spec_first_common(a.drop_first(), b)
    }
}

/// The first item of `a` that occurs in both `b` and `c`.
pub open spec fn spec_first_common3(a: Seq<char>, b: Seq<char>, c: Seq<char>) -> Option<char>
    decreases a.len(),
{
    if a.len() == 0 {
        None
    } else if b.contains(a[0]) && c.contains(a[0]) {
        Some(a[0])
    } else {
        spec_first_common3(a.drop_first(), b, c)
    }
}

pub proof fn lemma_first_common_none(a: Seq<char>, b: Seq<char>)
    requires
        spec_first_common(a, b) is None,
    ensures
        forall|i: int| 0 <= i < a.len() ==> !b.contains(#[trigger] a[i]),
    decreases a.len(),
{
    if a.len() > 0 {
        lemma_first_common_none(a.drop_first(), b);
        assert forall|i: int| 0 <= i < a.len() implies !b.contains(#[trigger] a[i]) by {
            if i > 0 {
                assert(a.drop_first()[i - 1] == a[i]);
            }
        }
    }
}

pub proof fn lemma_first_common_some(a: Seq<char>, b: Seq<char>)
    requires
        spec_first_common(a, b) is Some,
    ensures
        a.contains(spec_first_common(a, b).unwrap()),
        b.contains(spec_first_common(a, b).unwrap()),
    decreases a.len(),
{
    if a.len() > 0 {
        if b.contains(a[0]) {
            assert(a.contains(a[0]));
        } else {
            lemma_first_common_some(a.drop_first(), b);
            let c = spec_first_common(a.drop_first(), b).unwrap();
            let i = choose|i: int| 0 <= i < a.drop_first().len() && a.drop_first()[i] == c;
            assert(a[i + 1] == c);
            assert(a.contains(c));
        }
    }
}

pub proof fn lemma_first_common3_some(a: Seq<char>, b: Seq<char>, c: Seq<char>)
    requires
        spec_first_common3(a, b, c) is Some,
    ensures
        a.contains(spec_first_common3(a, b, c).unwrap()),
        b.contains(spec_first_common3(a, b, c).unwrap()),
        c.contains(spec_first_common3(a, b, c).unwrap()),
    decreases a.len(),
{
    if a.len() > 0 {
        if b.contains(a[0]) && c.contains(a[0]) {
            assert(a.contains(a[0]));
        } else {
            lemma_first_common3_some(a.drop_first(), b, c);
            let x = spec_first_common3(a.drop_first(), b, c).unwrap();
            let i = choose|i: int| 0 <= i < a.drop_first().len() && a.drop_first()[i] == x;
            assert(a[i + 1] == x);
            assert(a.contains(x));
        }
    }
}

fn contains_char(v: &Vec<char>, c: char) -> (r: bool)
    ensures
        r == v@.contains(c),
{
    let mut i: usize = 0;
    while i < v.len()
        invariant
            i <= v@.len(),
            forall|k: int| 0 <= k < i ==> v@[k] != c,
        decreases v@.len() - i,
    {
        if v[i] == c {
            return true;
        }
        i = i + 1;
    }
    false
}

/// The priority of one item letter.
pub fn priority(c: char) -> (r: i64)
    requires
        is_ascii_alpha(c),
    ensures
        r == spec_priority(c),
        1 <= r <= 52,
{
    if 'A' <= c && c <= 'Z' {
        (c as i64) - 38
    } else {
        (c as i64) - 96
    }
}

/// The first item of `a` that also occurs in `b`.
pub fn find_common(a: Vec<char>, b: Vec<char>) -> (r: Option<char>)
    requires
        spec_first_common(a@, b@) is Some,
    ensures
        r == spec_first_common(a@, b@),
{
    let mut i: usize = 0;
    proof {
        assert(a@.skip(0) =~= a@);
    }
    while i < a.len()
        invariant
            i <= a@.len(),
            spec_first_common(a@.skip(i as int), b@) == spec_first_common(a@, b@),
        decreases a@.len() - i,
    {
        proof {
            assert(a@.skip(i as int)[0] == a@[i as int]);
            assert(a@.skip(i as int).drop_first() =~= a@.skip(i + 1));
        }
        if contains_char(&b, a[i]) {
            return Some(a[i]);
        }
        i = i + 1;
    }
    proof {
        assert(a@.skip(i as int) =~= Seq::<char>::empty());
        assert(false);
    }
    unreached()
}

/// The item common to all three sacks of a group.
pub fn find_common_3(a: &Vec<char>, b: &Vec<char>, c: &Vec<char>) -> (r: Option<char>)
    requires
        spec_first_common3(a@, b@, c@) is Some,
    ensures
        r == spec_first_common3(a@, b@, c@),
{
    let mut i: usize = 0;
    proof {
        assert(a@.skip(0) =~= a@);
    }
    while i < a.len()
        invariant
            i <= a@.len(),
            spec_first_common3(a@.skip(i as int), b@, c@) == spec_first_common3(a@, b@, c@),
        decreases a@.len() - i,
    {
        proof {
            assert(a@.skip(i as int)[0] == a@[i as int]);
            assert(a@.skip(i as int).drop_first() =~= a@.skip(i + 1));
        }
        if contains_char(b, a[i]) && contains_char(c, a[i]) {
            return Some(a[i]);
        }
        i = i + 1;
    }
    proof {
        assert(a@.skip(i as int) =~= Seq::<char>::empty());
        assert(false);
    }
    unreached()
}

/// Split a sack's items into its two halves.
pub fn split_bags(items: Vec<char>) -> (r: (Vec<char>, Vec<char>))
    ensures
        r.0@ == items@.subrange(0, items@.len() as int / 2),
        r.1@ == items@.subrange(items@.len() as int / 2, items@.len() as int),
{
    let mut first = items;
    let half = first.len() / 2;
    let second = first.split_off(half);
    (first, second)
}

/// The halves of a sack, as the spec sees them.
pub open spec fn first_half(s: Seq<char>) -> Seq<char> {
    s.subrange(0, s.len() as int / 2)
}

pub open spec fn second_half(s: Seq<char>) -> Seq<char> {
    s.subrange(s.len() as int / 2, s.len() as int)
}

pub open spec fn sack_ok(s: Seq<char>) -> bool {
    &&& forall|i: int| 0 <= i < s.len() ==> is_ascii_alpha(#[trigger] s[i])
    &&& spec_first_common(first_half(s), second_half(s)) is Some
}

/// The priority a sack contributes.
pub open spec fn spec_sack_priority(s: Seq<char>) -> int {
    spec_priority(spec_first_common(first_half(s), second_half(s)).unwrap())
}

/// Priority of the item found in both halves of this sack.
pub fn rucksack_priority(items: Vec<char>) -> (r: i64)
    requires
        sack_ok(items@),
    ensures
        r == spec_sack_priority(items@),
        1 <= r <= 52,
{
    let ghost iv = items@;
    let (a, b) = split_bags(items);
    let ghost c = spec_first_common(a@, b@).unwrap();
    proof {
        lemma_first_common_some(a@, b@);
        assert(a@.contains(c));
        assert(is_ascii_alpha(c));
    }
    let common = find_common(a, b);
    priority(common.unwrap())
}

pub open spec fn sum_sack_priorities(sv: Seq<Seq<char>>) -> int
    decreases sv.len(),
{
    if sv.len() == 0 {
        0
    } else {
        sum_sack_priorities(sv.drop_last()) + spec_sack_priority(sv.last())
    }
}

pub open spec fn sack_views(ss: Seq<&str>) -> Seq<Seq<char>> {
    ss.map_values(|s: &str| s@)
}

/// Total the per-sack priorities.
pub fn solve1(sacks: &[&str]) -> (r: i64)
    requires
        forall|i: int| 0 <= i < sacks@.len() ==> sack_ok(#[trigger] sacks@[i]@),
        sacks@.len() * 52 <= i64::MAX,
    ensures
        r == sum_sack_priorities(sack_views(sacks@)),
{
    let ghost sv = sack_views(sacks@);
    let mut s: i64 = 0;
    let mut i: usize = 0;
    while i < sacks.len()
        invariant
            i <= sacks@.len(),
            sv == sack_views(sacks@),
            sv.len() == sacks@.len(),
            forall|k: int| 0 <= k < sacks@.len() ==> sack_ok(#[trigger] sacks@[k]@),
            sacks@.len() * 52 <= i64::MAX,
            0 <= s <= i * 52,
            s == sum_sack_priorities(sv.subrange(0, i as int)),
        decreases sacks@.len() - i,
    {
        proof {
            assert(sv[i as int] == sacks@[i as int]@);
            assert(sv.subrange(0, i + 1).drop_last() =~= sv.subrange(0, i as int));
            assert(sv.subrange(0, i + 1).last() == sv[i as int]);
            assert((i + 1) * 52 == i * 52 + 52) by (nonlinear_arith);
            assert(i * 52 + 52 <= sacks@.len() * 52) by (nonlinear_arith)
                requires
                    0 <= i as int + 1 <= sacks@.len(),
            ;
        }
        let cs = chars_of(sacks[i]);
        let p = rucksack_priority(cs);
        s = s + p;
        i = i + 1;
    }
    proof {
        assert(sv.subrange(0, sv.len() as int) =~= sv);
    }
    s
}

pub open spec fn group_ok(sv: Seq<Seq<char>>, g: int) -> bool {
    &&& forall|i: int| 0 <= i < sv[3 * g].len() ==> is_ascii_alpha(#[trigger] sv[3 * g][i])
    &&& spec_first_common3(sv[3 * g], sv[3 * g + 1], sv[3 * g + 2]) is Some
}

pub open spec fn spec_group_priority(sv: Seq<Seq<char>>, g: int) -> int {
    spec_priority(spec_first_common3(sv[3 * g], sv[3 * g + 1], sv[3 * g + 2]).unwrap())
}

pub open spec fn sum_group_priorities(sv: Seq<Seq<char>>, n: int) -> int
    decreases n,
{
    if n <= 0 {
        0
    } else {
        sum_group_priorities(sv, n - 1) + spec_group_priority(sv, n - 1)
    }
}

/// Priority of the item shared by the three sacks of one group.
pub fn group_priority(group: Vec<Vec<char>>) -> (r: i64)
    requires
        group@.len() >= 3,
        forall|i: int| 0 <= i < group@[0]@.len() ==> is_ascii_alpha(#[trigger] group@[0]@[i]),
        spec_first_common3(group@[0]@, group@[1]@, group@[2]@) is Some,
    ensures
        r == spec_priority(spec_first_common3(group@[0]@, group@[1]@, group@[2]@).unwrap()),
        1 <= r <= 52,
{
    let ghost c = spec_first_common3(group@[0]@, group@[1]@, group@[2]@).unwrap();
    proof {
        lemma_first_common3_some(group@[0]@, group@[1]@, group@[2]@);
        assert(group@[0]@.contains(c));
        assert(is_ascii_alpha(c));
    }
    let common = find_common_3(&group[0], &group[1], &group[2]);
    priority(common.unwrap())
}

/// Total the per-group priorities over groups of three sacks.
pub fn solve2(sacks: &[&str]) -> (r: i64)
    requires
        sacks@.len() % 3 == 0,
        forall|g: int| 0 <= g < sacks@.len() as int / 3 ==> group_ok(sack_views(sacks@), g),
        sacks@.len() * 52 <= i64::MAX,
    ensures
        r == sum_group_priorities(sack_views(sacks@), sacks@.len() as int / 3),
{
    let ghost sv = sack_views(sacks@);
    let total = sacks.len();
    let n = total / 3;
    let mut s: i64 = 0;
    let mut g: usize = 0;
    while g < n
        invariant
            g <= n,
            total == sacks@.len(),
            n == sacks@.len() as int / 3,
            sacks@.len() % 3 == 0,
            sv == sack_views(sacks@),
            sv.len() == sacks@.len(),
            forall|k: int| 0 <= k < n ==> group_ok(sv, k),
            sacks@.len() * 52 <= i64::MAX,
            0 <= s <= g * 52,
            s == sum_group_priorities(sv, g as int),
        decreases n - g,
    {
        proof {
            assert(group_ok(sv, g as int));
            assert(3 * (g as int) + 2 < total) by (nonlinear_arith)
                requires
                    g < n,
                    n == sacks@.len() as int / 3,
                    sacks@.len() % 3 == 0,
                    total == sacks@.len(),
            ;
            assert((g + 1) * 52 == g * 52 + 52) by (nonlinear_arith);
            assert(3 * (g as int) * 52 + 3 * 52 <= sacks@.len() * 52) by (nonlinear_arith)
                requires
                    0 <= 3 * (g as int) + 3 <= sacks@.len(),
            ;
            assert(g * 52 + 52 <= sacks@.len() * 52) by (nonlinear_arith)
                requires
                    0 <= g as int + 1,
                    3 * (g as int) + 3 <= sacks@.len(),
            ;
        }
        let mut group: Vec<Vec<char>> = Vec::new();
        group.push(chars_of(sacks[3 * g]));
        group.push(chars_of(sacks[3 * g + 1]));
        group.push(chars_of(sacks[3 * g + 2]));
        proof {
            assert(group@[0]@ == sv[3 * (g as int)]);
            assert(group@[1]@ == sv[3 * (g as int) + 1]);
            assert(group@[2]@ == sv[3 * (g as int) + 2]);
        }
        let p = group_priority(group);
        s = s + p;
        g = g + 1;
    }
    s
}

} // verus!
