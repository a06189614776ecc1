//! Nested signal lists: a recursive grammar of integers and brackets,
//! compared by the distress-signal order where a bare integer stands
//! for the singleton list holding it.

use vstd::prelude::*;
use core::cmp::Ordering;
use crate::error::PuzzleError;
use crate::text::{chars_of, split_lines, split_at_seq, parse_i64, spec_split, spec_lines, is_i64_numeral, int_value, is_digit, digit_val, views};

verus! {

/// A signal: an integer, or a list of signals.
#[derive(Debug, PartialEq, Eq)]
pub enum Signal {
    I(i64),
    L(Vec<Signal>),
}

/// The ghost image of a signal.
pub enum SpecSignal {
    I(int),
    L(Seq<SpecSignal>),
}

pub open spec fn sig_view(s: Signal) -> SpecSignal
    decreases s,
{
    match s {
        Signal::I(v) => SpecSignal::I(v as int),
        Signal::L(v) => SpecSignal::L(sig_views(v@)),
    }
}

pub open spec fn sig_views(ss: Seq<Signal>) -> Seq<SpecSignal>
    decreases ss,
{
    if ss.len() == 0 {
        Seq::empty()
    } else {
        seq![sig_view(ss[0])] + sig_views(ss.drop_first())
    }
}

proof fn lemma_sig_views_index(ss: Seq<Signal>, i: int)
    requires
        0 <= i < ss.len(),
    ensures
        sig_views(ss).len() == ss.len(),
        sig_views(ss)[i] == sig_view(ss[i]),
    decreases ss,
{
    lemma_sig_views_len(ss);
    if i > 0 {
        lemma_sig_views_index(ss.drop_first(), i - 1);
    }
}

proof fn lemma_sig_views_len(ss: Seq<Signal>)
    ensures
        sig_views(ss).len() == ss.len(),
    decreases ss,
{
    if ss.len() > 0 {
        lemma_sig_views_len(ss.drop_first());
    }
}

/// The distress order on signals: integers by value, lists
/// lexicographically, and an integer against a list as its singleton.
pub open spec fn spec_cmp(a: SpecSignal, b: SpecSignal) -> Ordering
    decreases a, b,
{
    match (a, b) {
        (SpecSignal::I(x), SpecSignal::I(y)) => if x < y {
            Ordering::Less
        } else if x > y {
            Ordering::Greater
        } else {
            Ordering::Equal
        },
        (SpecSignal::L(x), SpecSignal::L(y)) => spec_cmp_lists(x, y),
        (SpecSignal::I(x), SpecSignal::L(y)) => if y.len() == 0 {
            Ordering::Greater
        } else {
            match spec_cmp(a, y[0]) {
                Ordering::Equal => if y.len() == 1 {
                    Ordering::Equal
                } else {
                    Ordering::Less
                },
                o => o,
            }
        },
        (SpecSignal::L(x), SpecSignal::I(y)) => if x.len() == 0 {
            Ordering::Less
        } else {
            match spec_cmp(x[0], b) {
                Ordering::Equal => if x.len() == 1 {
                    Ordering::Equal
                } else {
                    Ordering::Greater
                },
                o => o,
            }
        },
    }
}

pub open spec fn spec_cmp_lists(x: Seq<SpecSignal>, y: Seq<SpecSignal>) -> Ordering
    decreases x, y,
{
    if x.len() == 0 && y.len() == 0 {
        Ordering::Equal
    } else if x.len() == 0 {
        Ordering::Less
    } else if y.len() == 0 {
        Ordering::Greater
    } else {
        match spec_cmp(x[0], y[0]) {
            Ordering::Equal => spec_cmp_lists(x.drop_first(), y.drop_first()),
            o => o,
        }
    }
}

impl Signal {
    /// Compare two signals in the distress order.
    pub fn cmp(&self, other: &Signal) -> (r: Ordering)
        ensures
            r == spec_cmp(sig_view(*self), sig_view(*other)),
        decreases *self, *other,
    {
        match (self, other) {
            (Signal::I(x), Signal::I(y)) => {
                if x < y {
                    Ordering::Less
                } else if x > y {
                    Ordering::Greater
                } else {
                    Ordering::Equal
                }
            },
            (Signal::L(x), Signal::L(y)) => cmp_vecs(x, y),
            (Signal::I(x), Signal::L(y)) => {
                proof {
                    lemma_sig_views_len(y@);
                }
                if y.len() == 0 {
                    Ordering::Greater
                } else {
                    proof {
                        lemma_sig_views_index(y@, 0);
                    }
                    let c = self.cmp(&y[0]);
                    match c {
                        Ordering::Equal => {
                            if y.len() == 1 {
                                Ordering::Equal
                            } else {
                                Ordering::Less
                            }
                        },
                        Ordering::Less => Ordering::Less,
                        Ordering::Greater => Ordering::Greater,
                    }
                }
            },
            (Signal::L(x), Signal::I(y)) => {
                proof {
                    lemma_sig_views_len(x@);
                }
                if x.len() == 0 {
                    Ordering::Less
                } else {
                    proof {
                        lemma_sig_views_index(x@, 0);
                    }
                    let c = x[0].cmp(other);
                    match c {
                        Ordering::Equal => {
                            if x.len() == 1 {
                                Ordering::Equal
                            } else {
                                Ordering::Greater
                            }
                        },
                        Ordering::Less => Ordering::Less,
                        Ordering::Greater => Ordering::Greater,
                    }
                }
            },
        }
    }

    /// The order as an `Option`, always present.
    pub fn partial_cmp(&self, other: &Signal) -> (r: Option<Ordering>)
        ensures
            r == Some(spec_cmp(sig_view(*self), sig_view(*other))),
    {
        Some(self.cmp(other))
    }
}

/// Compare two signal lists lexicographically.
fn cmp_vecs(x: &Vec<Signal>, y: &Vec<Signal>) -> (r: Ordering)
    ensures
        r == spec_cmp_lists(sig_views(x@), sig_views(y@)),
    decreases x@, y@,
{
    proof {
        lemma_sig_views_len(x@);
        lemma_sig_views_len(y@);
    }
    let mut i: usize = 0;
    let xn = x.len();
    let yn = y.len();
    proof {
        assert(sig_views(x@).skip(0) =~= sig_views(x@));
        assert(sig_views(y@).skip(0) =~= sig_views(y@));
    }
    while i < xn && i < yn
        invariant
            i <= xn,
            i <= yn,
            xn == x@.len(),
            yn == y@.len(),
            sig_views(x@).len() == xn,
            sig_views(y@).len() == yn,
            spec_cmp_lists(sig_views(x@), sig_views(y@)) == spec_cmp_lists(
                sig_views(x@).skip(i as int),
                sig_views(y@).skip(i as int),
            ),
        decreases xn - i,
    {
        proof {
            lemma_sig_views_index(x@, i as int);
            lemma_sig_views_index(y@, i as int);
            assert(sig_views(x@).skip(i as int)[0] == sig_views(x@)[i as int]);
            assert(sig_views(y@).skip(i as int)[0] == sig_views(y@)[i as int]);
            assert(sig_views(x@).skip(i as int).drop_first() =~= sig_views(x@).skip(i + 1));
            assert(sig_views(y@).skip(i as int).drop_first() =~= sig_views(y@).skip(i + 1));
        }
        let c = x[i].cmp(&y[i]);
        match c {
            Ordering::Equal => {},
            Ordering::Less => {
                return Ordering::Less;
            },
            Ordering::Greater => {
                return Ordering::Greater;
            },
        }
        i = i + 1;
    }
    proof {
        if i == xn && i == yn {
            assert(sig_views(x@).skip(i as int) =~= Seq::<SpecSignal>::empty());
            assert(sig_views(y@).skip(i as int) =~= Seq::<SpecSignal>::empty());
        } else if i == xn {
            assert(sig_views(x@).skip(i as int) =~= Seq::<SpecSignal>::empty());
            assert(sig_views(y@).skip(i as int).len() > 0);
        } else {
            assert(sig_views(y@).skip(i as int) =~= Seq::<SpecSignal>::empty());
            assert(sig_views(x@).skip(i as int).len() > 0);
        }
    }
    if xn < yn {
        Ordering::Less
    } else if xn > yn {
        Ordering::Greater
    } else {
        Ordering::Equal
    }
}


// ---- the grammar ----

/// End of the digit run starting at `pos`.
pub open spec fn digit_run_end(s: Seq<char>, pos: int) -> int
    decreases s.len() - pos,
{
    if pos < 0 || pos >= s.len() || !is_digit(s[pos]) {
        pos
    } else {
        digit_run_end(s, pos + 1)
    }
}

/// A nesting budget that a parse of `s` can never exhaust: every other
/// step of the descent consumes a character.
pub open spec fn fuel_for(s: Seq<char>) -> nat {
    (2 * s.len() + 4) as nat
}

/// Parse one signal at `pos`: a bracketed list, or a run of digits
/// whose value an `i64` can hold.
pub open spec fn spec_parse_sig(s: Seq<char>, pos: int, fuel: nat) -> Option<(SpecSignal, int)>
    decreases fuel,
{
    if fuel == 0 || pos < 0 || pos >= s.len() {
        None
    } else if s[pos] == '[' {
        match spec_parse_items(s, pos + 1, (fuel - 1) as nat) {
            None => None,
            Some((items, p)) => if p < s.len() && s[p] == ']' {
                Some((SpecSignal::L(items), p + 1))
            } else {
                None
            },
        }
    } else {
        let end = digit_run_end(s, pos);
        if end > pos && crate::text::digits_val(s.subrange(pos, end)) <= i64::MAX {
            Some((SpecSignal::I(crate::text::digits_val(s.subrange(pos, end))), end))
        } else {
            None
        }
    }
}

/// Parse a comma-separated list of signals, possibly empty.
pub open spec fn spec_parse_items(s: Seq<char>, pos: int, fuel: nat) -> Option<
    (Seq<SpecSignal>, int),
>
    decreases fuel,
{
    if fuel == 0 {
        None
    } else {
        match spec_parse_sig(s, pos, (fuel - 1) as nat) {
            None => Some((Seq::empty(), pos)),
            Some((v, p)) => match spec_parse_rest(s, p, (fuel - 1) as nat) {
                None => None,
                Some((vs, p2)) => Some((seq![v] + vs, p2)),
            },
        }
    }
}

/// Parse the `, signal` continuations of a list.
pub open spec fn spec_parse_rest(s: Seq<char>, pos: int, fuel: nat) -> Option<
    (Seq<SpecSignal>, int),
>
    decreases fuel,
{
    if fuel == 0 {
        None
    } else if 0 <= pos < s.len() && s[pos] == ',' {
        match spec_parse_sig(s, pos + 1, (fuel - 1) as nat) {
            None => Some((Seq::empty(), pos)),
            Some((v, p)) => match spec_parse_rest(s, p, (fuel - 1) as nat) {
                None => None,
                Some((vs, p2)) => Some((seq![v] + vs, p2)),
            },
        }
    } else {
        Some((Seq::empty(), pos))
    }
}

/// Scan a digit run and its value, failing on overflow.
fn scan_int(cs: &Vec<char>, pos: usize) -> (r: Option<(i64, usize)>)
    requires
        pos <= cs@.len(),
    ensures
        ({
            let end = digit_run_end(cs@, pos as int);
            match r {
                Some((v, p)) => end > pos && crate::text::digits_val(
                    cs@.subrange(pos as int, end),
                ) <= i64::MAX && v == crate::text::digits_val(cs@.subrange(pos as int, end))
                    && p == end && p <= cs@.len(),
                None => !(end > pos && crate::text::digits_val(cs@.subrange(pos as int, end))
                    <= i64::MAX),
            }
        }),
{
    let ghost end = digit_run_end(cs@, pos as int);
    proof {
        lemma_digit_run(cs@, pos as int);
    }
    if pos == cs.len() || !('0' <= cs[pos] && cs[pos] <= '9') {
        return None;
    }
    let mut acc: i64 = 0;
    let mut i: usize = pos;
    while i < cs.len() && '0' <= cs[i] && cs[i] <= '9'
        invariant
            pos <= i <= cs@.len(),
            end == digit_run_end(cs@, pos as int),
            pos <= end <= cs@.len(),
            forall|k: int| pos <= k < end ==> is_digit(#[trigger] cs@[k]),
            i <= end,
            forall|k: int| pos <= k < i ==> is_digit(#[trigger] cs@[k]),
            i < end ==> is_digit(cs@[i as int]),
            (i == end || (i < cs@.len() && is_digit(cs@[i as int]))),
            0 <= acc,
            acc == crate::text::digits_val(cs@.subrange(pos as int, i as int)),
        decreases cs@.len() - i,
    {
        let c = cs[i];
        let d = (c as u32) as i64 - 48;
        proof {
            vstd::utf8::char_is_scalar(c);
            assert(d == digit_val(c)) by {
                assert(c as int == c as u32 as int);
                assert('0' as int == 48);
            }
            assert(0 <= d <= 9);
        }
        if acc > (i64::MAX - d) / 10 {
            proof {
                lemma_digit_run(cs@, pos as int);
                assert(i < end) by {
                    if i >= end {
                        assert(end < cs@.len());
                        assert(!is_digit(cs@[end as int]));
                        if i == end {
                            assert(is_digit(cs@[i as int]));
                        } else {
                            assert(is_digit(cs@[end as int]));
                        }
                    }
                }
                let pre = cs@.subrange(pos as int, i + 1);
                assert(pre.drop_last() =~= cs@.subrange(pos as int, i as int));
                assert(crate::text::digits_val(pre) == acc * 10 + d);
                assert(acc * 10 + d > i64::MAX) by (nonlinear_arith)
                    requires
                        acc > (i64::MAX - d) / 10,
                        0 <= d <= 9,
                        acc >= 0,
                ;
                let digits = cs@.subrange(pos as int, end);
                assert(forall|k: int| 0 <= k < digits.len() ==> is_digit(#[trigger] digits[k]));
                assert(digits.subrange(0, i + 1 - pos) =~= pre);
                crate::text::lemma_digits_val_prefix(digits, i + 1 - pos);
                assert(crate::text::digits_val(digits) > i64::MAX);
            }
            return None;
        }
        acc = acc * 10 + d;
        proof {
            let pre = cs@.subrange(pos as int, i + 1);
            assert(pre.drop_last() =~= cs@.subrange(pos as int, i as int));
            lemma_digit_run(cs@, pos as int);
        }
        i = i + 1;
        proof {
            if i < end {
                assert(is_digit(cs@[i as int]));
            }
            assert(i <= end) by {
                if i > end {
                    assert(is_digit(cs@[end as int]) || end == cs@.len() || !is_digit(
                        cs@[end as int],
                    ));
                    assert(end < i);
                    assert(pos <= end < i);
                    assert(is_digit(cs@[end as int]));
                    lemma_digit_run(cs@, pos as int);
                    assert(false);
                }
            }
        }
    }
    proof {
        assert(i == end) by {
            if i < end {
                assert(is_digit(cs@[i as int]));
                assert(i < cs@.len());
            }
        }
        assert(cs@.subrange(pos as int, i as int) == cs@.subrange(pos as int, end));
    }
    Some((acc, i))
}

proof fn lemma_digit_run(s: Seq<char>, pos: int)
    requires
        0 <= pos <= s.len(),
    ensures
        pos <= digit_run_end(s, pos) <= s.len(),
        forall|k: int| pos <= k < digit_run_end(s, pos) ==> is_digit(#[trigger] s[k]),
        digit_run_end(s, pos) < s.len() ==> !is_digit(s[digit_run_end(s, pos)]),
    decreases s.len() - pos,
{
    if pos < s.len() && is_digit(s[pos]) {
        lemma_digit_run(s, pos + 1);
        assert forall|k: int| pos <= k < digit_run_end(s, pos) implies is_digit(
            #[trigger] s[k],
        ) by {
            if k > pos {
            }
        }
    }
}

/// Parse one signal at `pos` with the given nesting budget.
fn sig_parse(cs: &Vec<char>, pos: usize, fuel: usize) -> (r: Option<(Signal, usize)>)
    requires
        pos <= cs@.len(),
    ensures
        ({
            let sr = spec_parse_sig(cs@, pos as int, fuel as nat);
            match r {
                Some((sig, p)) => sr == Some((sig_view(sig), p as int)) && pos < p <= cs@.len(),
                None => sr is None,
            }
        }),
    decreases fuel, 1int,
{
    if fuel == 0 || pos == cs.len() {
        return None;
    }
    if cs[pos] == '[' {
        match items_parse(cs, pos + 1, fuel - 1) {
            None => None,
            Some((items, p)) => {
                if p < cs.len() && cs[p] == ']' {
                    proof {
                        lemma_sig_views_len(items@);
                    }
                    Some((Signal::L(items), p + 1))
                } else {
                    None
                }
            },
        }
    } else {
        match scan_int(cs, pos) {
            Some((v, p)) => Some((Signal::I(v), p)),
            None => None,
        }
    }
}

/// Parse a comma-separated signal list.
fn items_parse(cs: &Vec<char>, pos: usize, fuel: usize) -> (r: Option<(Vec<Signal>, usize)>)
    requires
        pos <= cs@.len(),
    ensures
        ({
            let sr = spec_parse_items(cs@, pos as int, fuel as nat);
            match r {
                Some((items, p)) => sr == Some((sig_views(items@), p as int)) && pos <= p
                    <= cs@.len(),
                None => sr is None,
            }
        }),
    decreases fuel, 0int,
{
    if fuel == 0 {
        return None;
    }
    match sig_parse(cs, pos, fuel - 1) {
        None => {
            proof {
                assert(sig_views(Seq::<Signal>::empty()) =~= Seq::<SpecSignal>::empty());
            }
            Some((Vec::new(), pos))
        },
        Some((v, p)) => {
            match rest_parse(cs, p, fuel - 1) {
                None => None,
                Some((mut vs, p2)) => {
                    let ghost tailv = vs@;
                    let mut items: Vec<Signal> = Vec::new();
                    items.push(v);
                    items.append(&mut vs);
                    proof {
                        lemma_sig_views_cons(items@);
                        assert(items@.drop_first() =~= tailv);
                    }
                    Some((items, p2))
                },
            }
        },
    }
}

/// Parse the `, signal` continuations.
fn rest_parse(cs: &Vec<char>, pos: usize, fuel: usize) -> (r: Option<(Vec<Signal>, usize)>)
    requires
        pos <= cs@.len(),
    ensures
        ({
            let sr = spec_parse_rest(cs@, pos as int, fuel as nat);
            match r {
                Some((items, p)) => sr == Some((sig_views(items@), p as int)) && pos <= p
                    <= cs@.len(),
                None => sr is None,
            }
        }),
    decreases fuel, 0int,
{
    if fuel == 0 {
        return None;
    }
    if pos < cs.len() && cs[pos] == ',' {
        match sig_parse(cs, pos + 1, fuel - 1) {
            None => {
                proof {
                    assert(sig_views(Seq::<Signal>::empty()) =~= Seq::<SpecSignal>::empty());
                }
                Some((Vec::new(), pos))
            },
            Some((v, p)) => {
                match rest_parse(cs, p, fuel - 1) {
                    None => None,
                    Some((mut vs, p2)) => {
                        let ghost tailv = vs@;
                        let mut items: Vec<Signal> = Vec::new();
                        items.push(v);
                        items.append(&mut vs);
                        proof {
                            lemma_sig_views_cons(items@);
                            assert(items@.drop_first() =~= tailv);
                        }
                        Some((items, p2))
                    },
                }
            },
        }
    } else {
        proof {
            assert(sig_views(Seq::<Signal>::empty()) =~= Seq::<SpecSignal>::empty());
        }
        Some((Vec::new(), pos))
    }
}

proof fn lemma_sig_views_cons(ss: Seq<Signal>)
    requires
        ss.len() > 0,
    ensures
        sig_views(ss) == seq![sig_view(ss[0])] + sig_views(ss.drop_first()),
{
}

/// Parse a signal from the front of `s`, returning it and how many
/// characters were consumed.
pub fn parse_signal(s: &str) -> (r: Option<(Signal, usize)>)
    requires
        s@.len() <= 0x10000000,
    ensures
        ({
            let sr = spec_parse_sig(s@, 0, fuel_for(s@));
            match r {
                Some((sig, p)) => sr == Some((sig_view(sig), p as int)),
                None => sr is None,
            }
        }),
{
    let cs = chars_of(s);
    let n = cs.len();
    proof {
        assert(n <= 0x10000000);
    }
    sig_parse(&cs, 0, 2 * n + 4)
}

/// Parse a signal that must be a bracketed list.
pub fn parse_l(s: &str) -> (r: Option<(Signal, usize)>)
    requires
        s@.len() <= 0x10000000,
    ensures
        ({
            let sr = spec_parse_sig(s@, 0, fuel_for(s@));
            match r {
                Some((sig, p)) => s@.len() > 0 && s@[0] == '[' && sr == Some(
                    (sig_view(sig), p as int),
                ),
                None => !(s@.len() > 0 && s@[0] == '[') || sr is None,
            }
        }),
{
    let cs = chars_of(s);
    if cs.len() == 0 {
        return None;
    }
    if cs[0] != '[' {
        return None;
    }
    let n = cs.len();
    proof {
        assert(n <= 0x10000000);
    }
    sig_parse(&cs, 0, 2 * n + 4)
}

/// Parse a signal that must be a bare integer run.
pub fn parse_i(s: &str) -> (r: Option<(Signal, usize)>)
    ensures
        ({
            let end = digit_run_end(s@, 0);
            match r {
                Some((sig, p)) => end > 0 && crate::text::digits_val(s@.subrange(0, end))
                    <= i64::MAX && sig_view(sig) == SpecSignal::I(
                    crate::text::digits_val(s@.subrange(0, end)),
                ) && p == end,
                None => !(end > 0 && crate::text::digits_val(s@.subrange(0, end)) <= i64::MAX),
            }
        }),
{
    let cs = chars_of(s);
    match scan_int(&cs, 0) {
        Some((v, p)) => Some((Signal::I(v), p)),
        None => None,
    }
}

/// Read a whole string as one integer signal, as `str::parse` does.
pub fn i_from_str(input: &str) -> (r: Result<Signal, PuzzleError>)
    ensures
        match r {
            Ok(sig) => is_i64_numeral(input@) && sig_view(sig) == SpecSignal::I(
                int_value(input@),
            ),
            Err(e) => !is_i64_numeral(input@) && e == PuzzleError::MalformedInput,
        },
{
    let cs = chars_of(input);
    match parse_i64(&cs) {
        Some(v) => Ok(Signal::I(v)),
        None => Err(PuzzleError::MalformedInput),
    }
}


// ---- whole-input parsing ----

pub open spec fn blank_sep() -> Seq<char> {
    seq!['\n', '\n']
}

/// Whether every pair block parses: two lines, each a whole signal.
pub open spec fn pairs_text_ok(s: Seq<char>) -> bool {
    let bs = spec_split(s, blank_sep());
    forall|i: int|
        0 <= i < bs.len() ==> {
            let ls = spec_lines(#[trigger] bs[i]);
            &&& ls.len() >= 2
            &&& spec_parse_sig(ls[0], 0, fuel_for(ls[0])) is Some
            &&& spec_parse_sig(ls[1], 0, fuel_for(ls[1])) is Some
            &&& ls[0].len() <= 0x10000000
            &&& ls[1].len() <= 0x10000000
        }
}

pub open spec fn spec_block_pair(b: Seq<char>) -> (SpecSignal, SpecSignal) {
    let ls = spec_lines(b);
    (
        spec_parse_sig(ls[0], 0, fuel_for(ls[0])).unwrap().0,
        spec_parse_sig(ls[1], 0, fuel_for(ls[1])).unwrap().0,
    )
}

fn parse_sig_of_line(l: &Vec<char>) -> (r: Option<(Signal, usize)>)
    requires
        l@.len() <= 0x10000000,
    ensures
        ({
            let sr = spec_parse_sig(l@, 0, fuel_for(l@));
            match r {
                Some((sig, p)) => sr == Some((sig_view(sig), p as int)),
                None => sr is None,
            }
        }),
{
    let n = l.len();
    proof {
        assert(n <= 0x10000000);
    }
    sig_parse(l, 0, 2 * n + 4)
}

/// Parse the blank-line-separated signal pairs.
pub fn parse(input: &str) -> (r: Vec<(Signal, Signal)>)
    requires
        pairs_text_ok(input@),
    ensures
        r@.len() == spec_split(input@, blank_sep()).len(),
        forall|i: int|
            0 <= i < r@.len() ==> {
                let pr = spec_block_pair(spec_split(input@, blank_sep())[i]);
                sig_view((#[trigger] r@[i]).0) == pr.0 && sig_view(r@[i].1) == pr.1
            },
{
    let cs = chars_of(input);
    let sep: Vec<char> = vec!['\n', '\n'];
    proof {
        assert(sep@ =~= blank_sep());
    }
    let blocks = split_at_seq(&cs, &sep);
    let ghost bs = spec_split(input@, blank_sep());
    proof {
        assert(views(blocks@) == bs);
        assert(views(blocks@).len() == blocks@.len());
    }
    let mut out: Vec<(Signal, Signal)> = Vec::new();
    let mut i: usize = 0;
    while i < blocks.len()
        invariant
            i <= blocks@.len(),
            views(blocks@) == bs,
            views(blocks@).len() == blocks@.len(),
            bs == spec_split(cs@, blank_sep()),
            cs@ == input@,
            pairs_text_ok(cs@),
            out@.len() == i,
            forall|k: int|
                0 <= k < i ==> {
                    let pr = spec_block_pair(bs[k]);
                    sig_view((#[trigger] out@[k]).0) == pr.0 && sig_view(out@[k].1) == pr.1
                },
        decreases blocks@.len() - i,
    {
        proof {
            assert(blocks@[i as int]@ == bs[i as int]);
            assert(spec_split(cs@, blank_sep())[i as int] == bs[i as int]);
        }
        let lines = split_lines(&blocks[i]);
        proof {
            assert(views(lines@) == spec_lines(bs[i as int]));
            assert(views(lines@).len() == lines@.len());
            assert(lines@[0]@ == spec_lines(bs[i as int])[0]);
            assert(lines@[1]@ == spec_lines(bs[i as int])[1]);
        }
        let a = parse_sig_of_line(&lines[0]).unwrap().0;
        let b = parse_sig_of_line(&lines[1]).unwrap().0;
        out.push((a, b));
        i = i + 1;
    }
    out
}

/// The signals of the parseable lines, in order.
pub open spec fn spec_parsed_lines(ls: Seq<Seq<char>>) -> Seq<SpecSignal>
    decreases ls.len(),
{
    if ls.len() == 0 {
        Seq::empty()
    } else {
        spec_parsed_lines(ls.drop_last()) + match spec_parse_sig(
            ls.last(),
            0,
            fuel_for(ls.last()),
        ) {
            Some((v, p)) => seq![v],
            None => Seq::empty(),
        }
    }
}

/// Parse every line that holds a signal, skipping the rest.
pub fn parse2(input: &str) -> (r: Vec<Signal>)
    requires
        forall|i: int|
            0 <= i < spec_lines(input@).len() ==> (#[trigger] spec_lines(input@)[i]).len()
                <= 0x10000000,
    ensures
        sig_views(r@) == spec_parsed_lines(spec_lines(input@)),
{
    let cs = chars_of(input);
    let lines = split_lines(&cs);
    let ghost lv = spec_lines(input@);
    proof {
        assert(views(lines@) == lv);
        assert(views(lines@).len() == lines@.len());
    }
    let mut out: Vec<Signal> = Vec::new();
    let mut i: usize = 0;
    proof {
        assert(lv.subrange(0, 0) =~= Seq::<Seq<char>>::empty());
        assert(sig_views(out@) =~= spec_parsed_lines(lv.subrange(0, 0)));
    }
    while i < lines.len()
        invariant
            i <= lines@.len(),
            lv == spec_lines(input@),
            lv == views(lines@),
            lv.len() == lines@.len(),
            forall|k: int| 0 <= k < lv.len() ==> (#[trigger] lv[k]).len() <= 0x10000000,
            sig_views(out@) == spec_parsed_lines(lv.subrange(0, i as int)),
        decreases lines@.len() - i,
    {
        proof {
            assert(lines@[i as int]@ == lv[i as int]);
            assert(lv.subrange(0, i + 1).drop_last() =~= lv.subrange(0, i as int));
            assert(lv.subrange(0, i + 1).last() == lv[i as int]);
        }
        match parse_sig_of_line(&lines[i]) {
            Some((sig, _)) => {
                let ghost prev = out@;
                out.push(sig);
                proof {
                    lemma_sig_views_snoc(prev, out@.last());
                    assert(out@.drop_last() =~= prev);
                }
            },
            None => {},
        }
        i = i + 1;
    }
    proof {
        assert(lv.subrange(0, lv.len() as int) =~= lv);
    }
    out
}

proof fn lemma_sig_views_snoc(ss: Seq<Signal>, x: Signal)
    ensures
        sig_views(ss.push(x)) == sig_views(ss).push(sig_view(x)),
    decreases ss,
{
    let p = ss.push(x);
    assert(p.len() == ss.len() + 1);
    assert(sig_views(p) == seq![sig_view(p[0])] + sig_views(p.drop_first()));
    if ss.len() == 0 {
        assert(p[0] == x);
        assert(p.drop_first() =~= Seq::<Signal>::empty());
        assert(sig_views(Seq::<Signal>::empty()) =~= Seq::<SpecSignal>::empty());
        assert(sig_views(p) =~= sig_views(ss).push(sig_view(x)));
    } else {
        assert(p[0] == ss[0]);
        assert(p.drop_first() =~= ss.drop_first().push(x));
        lemma_sig_views_snoc(ss.drop_first(), x);
        assert(sig_views(ss) == seq![sig_view(ss[0])] + sig_views(ss.drop_first()));
        assert(sig_views(p) =~= sig_views(ss).push(sig_view(x)));
    }
}

// ---- the two answers ----

/// Sum over the first `n` pairs of the one-based indices of the pairs
/// already in order.
pub open spec fn spec_ordered_index_sum(ps: Seq<(Signal, Signal)>, n: int) -> int
    decreases n,
{
    if n <= 0 {
        0
    } else {
        spec_ordered_index_sum(ps, n - 1) + if spec_cmp(
            sig_view(ps[n - 1].0),
            sig_view(ps[n - 1].1),
        ) == Ordering::Less {
            n
        } else {
            0int
        }
    }
}

/// Sum the one-based indices of the pairs in the right order.
pub fn solve1(input: &Vec<(Signal, Signal)>) -> (r: i64)
    requires
        input@.len() <= 0x40000000,
    ensures
        r == spec_ordered_index_sum(input@, input@.len() as int),
{
    let mut s: i64 = 0;
    let mut i: usize = 0;
    while i < input.len()
        invariant
            i <= input@.len(),
            input@.len() <= 0x40000000,
            0 <= s <= i * 0x40000000,
            s == spec_ordered_index_sum(input@, i as int),
        decreases input@.len() - i,
    {
        proof {
            assert((i + 1) <= 0x40000000);
            assert(i * 0x40000000 + 0x40000000 == (i + 1) * 0x40000000) by (nonlinear_arith);
            assert((i + 1) * 0x40000000 <= 0x40000000 * 0x40000000) by (nonlinear_arith)
                requires
                    0 <= i as int + 1 <= 0x40000000,
            ;
        }
        let p = &input[i];
        let c = p.0.cmp(&p.1);
        match c {
            Ordering::Less => {
                s = s + (i + 1) as i64;
            },
            _ => {},
        }
        i = i + 1;
    }
    s
}

/// The sort order: never strictly greater.
pub open spec fn sig_leq() -> spec_fn(SpecSignal, SpecSignal) -> bool {
    |a: SpecSignal, b: SpecSignal| spec_cmp(a, b) != Ordering::Greater
}

/// Comparing the other way swaps the outcome.
proof fn lemma_cmp_flip(a: SpecSignal, b: SpecSignal)
    ensures
        spec_cmp(a, b) == Ordering::Less <==> spec_cmp(b, a) == Ordering::Greater,
        spec_cmp(a, b) == Ordering::Equal <==> spec_cmp(b, a) == Ordering::Equal,
    decreases a, b,
{
    match (a, b) {
        (SpecSignal::I(x), SpecSignal::I(y)) => {},
        (SpecSignal::L(x), SpecSignal::L(y)) => {
            lemma_cmp_lists_flip(x, y);
        },
        (SpecSignal::I(x), SpecSignal::L(y)) => {
            if y.len() > 0 {
                lemma_cmp_flip(a, y[0]);
            }
        },
        (SpecSignal::L(x), SpecSignal::I(y)) => {
            if x.len() > 0 {
                lemma_cmp_flip(x[0], b);
            }
        },
    }
}

proof fn lemma_cmp_lists_flip(x: Seq<SpecSignal>, y: Seq<SpecSignal>)
    ensures
        spec_cmp_lists(x, y) == Ordering::Less <==> spec_cmp_lists(y, x) == Ordering::Greater,
        spec_cmp_lists(x, y) == Ordering::Equal <==> spec_cmp_lists(y, x) == Ordering::Equal,
    decreases x, y,
{
    if x.len() > 0 && y.len() > 0 {
        lemma_cmp_flip(x[0], y[0]);
        lemma_cmp_lists_flip(x.drop_first(), y.drop_first());
    }
}

/// Build the divider signal `[[x]]`.
fn make_divider(x: i64) -> (r: Signal)
    ensures
        sig_view(r) == divider(x as int),
{
    let mut inner: Vec<Signal> = Vec::new();
    inner.push(Signal::I(x));
    proof {
        assert(inner@.drop_first() =~= Seq::<Signal>::empty());
        assert(sig_views(inner@) == seq![sig_view(inner@[0int])] + sig_views(
            inner@.drop_first(),
        ));
        assert(sig_views(Seq::<Signal>::empty()) =~= Seq::<SpecSignal>::empty());
        assert(sig_views(inner@) =~= seq![SpecSignal::I(x as int)]);
    }
    let fst = Signal::L(inner);
    let mut outer: Vec<Signal> = Vec::new();
    outer.push(fst);
    proof {
        assert(outer@.drop_first() =~= Seq::<Signal>::empty());
        assert(sig_views(outer@) == seq![sig_view(outer@[0int])] + sig_views(
            outer@.drop_first(),
        ));
        assert(sig_views(Seq::<Signal>::empty()) =~= Seq::<SpecSignal>::empty());
        assert(sig_views(outer@) =~= seq![sig_view(outer@[0int])]);
    }
    Signal::L(outer)
}

/// Insert the two divider signals, order everything by the distress
/// order, and multiply the dividers' one-based positions.
pub fn solve2(input: &mut Vec<Signal>) -> (r: i64)
    requires
        old(input)@.len() + 2 <= 0x40000000,
    ensures
        final(input)@.len() == old(input)@.len() + 2,
        vstd::relations::sorted_by(sig_views(final(input)@), sig_leq()),
        sig_views(final(input)@).to_multiset() == sig_views(old(input)@).push(divider(2)).push(
            divider(6),
        ).to_multiset(),
        r == (first_match(sig_views(final(input)@), divider(2)) + 1) * (first_match(
            sig_views(final(input)@),
            divider(6),
        ) + 1),
{
    let mark1 = make_divider(2);
    let mark2 = make_divider(6);
    let ghost all0 = sig_views(old(input)@).push(divider(2)).push(divider(6));
    let ghost before1 = input@;
    input.push(mark1);
    proof {
        lemma_sig_views_snoc(before1, input@.last());
    }
    let ghost before2 = input@;
    input.push(mark2);
    proof {
        lemma_sig_views_snoc(before2, input@.last());
        assert(sig_views(input@) == all0);
    }
    sort_signals(input);
    let ghost sortedv = sig_views(input@);
    proof {
        lemma_sig_views_len(input@);
    }
    let n = input.len();
    let mut i1: usize = 0;
    let mut found1 = false;
    let mut j: usize = 0;
    let probe1 = make_divider(2);
    while j < n
        invariant
            j <= n,
            n == input@.len(),
            sortedv == sig_views(input@),
            sortedv.len() == n,
            sig_view(probe1) == divider(2),
            !found1 ==> forall|t: int| 0 <= t < j ==> sortedv[t] != divider(2),
            found1 ==> i1 < j && sortedv[i1 as int] == divider(2) && forall|t: int|
                0 <= t < i1 ==> sortedv[t] != divider(2),
        decreases n - j,
    {
        proof {
            lemma_sig_views_index(input@, j as int);
        }
        if !found1 && sig_eq(&input[j], &probe1) {
            found1 = true;
            i1 = j;
        }
        j = j + 1;
    }
    let probe2 = make_divider(6);
    let mut i2: usize = 0;
    let mut found2 = false;
    let mut j2: usize = 0;
    while j2 < n
        invariant
            j2 <= n,
            n == input@.len(),
            sortedv == sig_views(input@),
            sortedv.len() == n,
            sig_view(probe2) == divider(6),
            !found2 ==> forall|t: int| 0 <= t < j2 ==> sortedv[t] != divider(6),
            found2 ==> i2 < j2 && sortedv[i2 as int] == divider(6) && forall|t: int|
                0 <= t < i2 ==> sortedv[t] != divider(6),
        decreases n - j2,
    {
        proof {
            lemma_sig_views_index(input@, j2 as int);
        }
        if !found2 && sig_eq(&input[j2], &probe2) {
            found2 = true;
            i2 = j2;
        }
        j2 = j2 + 1;
    }
    proof {
        broadcast use vstd::seq_lib::group_to_multiset_ensures;

        assert(sortedv.to_multiset() == all0.to_multiset());
        assert(all0[all0.len() - 2] == divider(2));
        assert(all0.contains(divider(2)));
        assert(all0.to_multiset().count(divider(2)) > 0);
        assert(sortedv.to_multiset().count(divider(2)) > 0);
        assert(sortedv.contains(divider(2)));
        assert(found1) by {
            if !found1 {
                let t = choose|t: int| 0 <= t < sortedv.len() && sortedv[t] == divider(2);
            }
        }
        assert(all0[all0.len() - 1] == divider(6));
        assert(all0.contains(divider(6)));
        assert(all0.to_multiset().count(divider(6)) > 0);
        assert(sortedv.to_multiset().count(divider(6)) > 0);
        assert(sortedv.contains(divider(6)));
        assert(found2) by {
            if !found2 {
                let t = choose|t: int| 0 <= t < sortedv.len() && sortedv[t] == divider(6);
            }
        }
        assert(first_match(sortedv, divider(2)) == i1 as int) by {
            lemma_first_match(sortedv, divider(2), i1 as int);
        }
        assert(first_match(sortedv, divider(6)) == i2 as int) by {
            lemma_first_match(sortedv, divider(6), i2 as int);
        }
        assert((i1 + 1) * (i2 + 1) <= 0x40000000 * 0x40000000) by (nonlinear_arith)
            requires
                0 <= i1 as int + 1 <= 0x40000000,
                0 <= i2 as int + 1 <= 0x40000000,
        ;
        assert((i1 + 1) * (i2 + 1) >= 0) by (nonlinear_arith)
            requires
                i1 as int + 1 >= 0,
                i2 as int + 1 >= 0,
        ;
    }
    ((i1 + 1) as i64) * ((i2 + 1) as i64)
}

/// The divider signal `[[v]]`.
pub open spec fn divider(v: int) -> SpecSignal {
    SpecSignal::L(seq![SpecSignal::L(seq![SpecSignal::I(v)])])
}

/// The index of the first structurally equal element, or the length.
pub open spec fn first_match(s: Seq<SpecSignal>, v: SpecSignal) -> int
    decreases s.len(),
{
    if s.len() == 0 {
        0
    } else if s[0] == v {
        0
    } else {
        1 + first_match(s.drop_first(), v)
    }
}

proof fn lemma_first_match(s: Seq<SpecSignal>, v: SpecSignal, i: int)
    requires
        0 <= i < s.len(),
        s[i] == v,
        forall|t: int| 0 <= t < i ==> s[t] != v,
    ensures
        first_match(s, v) == i,
    decreases i,
{
    if i > 0 {
        assert(s.drop_first()[i - 1] == s[i]);
        assert(forall|t: int| 0 <= t < i - 1 ==> #[trigger] s.drop_first()[t] == s[t + 1]);
        lemma_first_match(s.drop_first(), v, i - 1);
    }
}

/// Structural equality of signals.
fn sig_eq(a: &Signal, b: &Signal) -> (r: bool)
    ensures
        r == (sig_view(*a) == sig_view(*b)),
    decreases *a, *b,
{
    match (a, b) {
        (Signal::I(x), Signal::I(y)) => x == y,
        (Signal::L(x), Signal::L(y)) => {
            let e = seq_eq(x, y);
            proof {
                if sig_views(x@) == sig_views(y@) {
                    assert(sig_view(*a) == sig_view(*b));
                }
                if sig_view(*a) == sig_view(*b) {
                    assert(sig_views(x@) == sig_views(y@));
                }
            }
            e
        },
        (Signal::I(_), Signal::L(_)) => false,
        (Signal::L(_), Signal::I(_)) => false,
    }
}

/// Structural equality of signal lists.
fn seq_eq(x: &Vec<Signal>, y: &Vec<Signal>) -> (r: bool)
    ensures
        r == (sig_views(x@) == sig_views(y@)),
    decreases x@, y@,
{
    proof {
        lemma_sig_views_len(x@);
        lemma_sig_views_len(y@);
    }
    if x.len() != y.len() {
        proof {
            assert(sig_views(x@).len() != sig_views(y@).len());
        }
        return false;
    }
    let mut i: usize = 0;
    while i < x.len()
        invariant
            i <= x@.len(),
            x@.len() == y@.len(),
            sig_views(x@).len() == x@.len(),
            sig_views(y@).len() == y@.len(),
            forall|t: int| 0 <= t < i ==> sig_views(x@)[t] == sig_views(y@)[t],
        decreases x@.len() - i,
    {
        proof {
            lemma_sig_views_index(x@, i as int);
            lemma_sig_views_index(y@, i as int);
        }
        if !sig_eq(&x[i], &y[i]) {
            proof {
                assert(sig_views(x@)[i as int] != sig_views(y@)[i as int]);
            }
            return false;
        }
        i = i + 1;
    }
    proof {
        assert(sig_views(x@) =~= sig_views(y@));
    }
    true
}

/// Ordering outcomes compose: strictly smaller chains stay strictly
/// smaller, and equal outcomes substitute on either side.
proof fn lemma_cmp_trans(a: SpecSignal, b: SpecSignal, c: SpecSignal)
    ensures
        spec_cmp(a, b) == Ordering::Less && spec_cmp(b, c) == Ordering::Less ==> spec_cmp(a, c)
            == Ordering::Less,
        spec_cmp(a, b) == Ordering::Equal && spec_cmp(b, c) == Ordering::Less ==> spec_cmp(a, c)
            == Ordering::Less,
        spec_cmp(a, b) == Ordering::Less && spec_cmp(b, c) == Ordering::Equal ==> spec_cmp(a, c)
            == Ordering::Less,
        spec_cmp(a, b) == Ordering::Equal && spec_cmp(b, c) == Ordering::Equal ==> spec_cmp(a, c)
            == Ordering::Equal,
    decreases a, b, c,
{
    match (a, b, c) {
        (SpecSignal::I(x), SpecSignal::I(y), SpecSignal::I(z)) => {},
        (SpecSignal::L(x), SpecSignal::L(y), SpecSignal::L(z)) => {
            lemma_cmp_lists_trans(x, y, z);
        },
        (SpecSignal::I(x), SpecSignal::I(y), SpecSignal::L(z)) => {
            if z.len() > 0 {
                lemma_cmp_trans(a, b, z[0]);
            }
        },
        (SpecSignal::I(x), SpecSignal::L(y), SpecSignal::I(z)) => {
            if y.len() > 0 {
                lemma_cmp_trans(a, y[0], c);
            }
        },
        (SpecSignal::L(x), SpecSignal::I(y), SpecSignal::I(z)) => {
            if x.len() > 0 {
                lemma_cmp_trans(x[0], b, c);
            }
        },
        (SpecSignal::I(x), SpecSignal::L(y), SpecSignal::L(z)) => {
            if y.len() > 0 && z.len() > 0 {
                lemma_cmp_trans(a, y[0], z[0]);
                lemma_cmp_lists_never_less_than_empty(y.drop_first(), z.drop_first());
                lemma_cmp_lists_equal_same_len(y.drop_first(), z.drop_first());
                lemma_cmp_lists_never_less_than_empty(z.drop_first(), y.drop_first());
                if spec_cmp(y[0], z[0]) == Ordering::Equal {
                    if spec_cmp_lists(y, z) == Ordering::Less {
                        assert(spec_cmp_lists(y.drop_first(), z.drop_first())
                            == Ordering::Less);
                        assert(z.drop_first().len() > 0);
                    }
                    if spec_cmp_lists(y, z) == Ordering::Equal {
                        assert(spec_cmp_lists(y.drop_first(), z.drop_first())
                            == Ordering::Equal);
                        assert(y.drop_first().len() == z.drop_first().len());
                    }
                }
            }
        },
        (SpecSignal::L(x), SpecSignal::I(y), SpecSignal::L(z)) => {
            if x.len() > 0 && z.len() > 0 {
                lemma_cmp_trans(x[0], b, z[0]);
            }
            if x.len() == 0 && z.len() > 0 {
                assert(spec_cmp_lists(x, z) == Ordering::Less);
            }
            if x.len() > 0 && z.len() > 0 {
                if spec_cmp(a, b) == Ordering::Equal && spec_cmp(b, c) == Ordering::Equal {
                    // singletons with equal heads
                    assert(x.len() == 1 && z.len() == 1);
                    assert(spec_cmp(x[0], z[0]) == Ordering::Equal);
                    assert(x.drop_first().len() == 0 && z.drop_first().len() == 0);
                    assert(spec_cmp_lists(x.drop_first(), z.drop_first())
                        == Ordering::Equal);
                    assert(spec_cmp_lists(x, z) == Ordering::Equal);
                }
                if spec_cmp(a, b) == Ordering::Less && (spec_cmp(b, c) == Ordering::Less
                    || spec_cmp(b, c) == Ordering::Equal) {
                    assert(spec_cmp(x[0], b) == Ordering::Less);
                    assert(spec_cmp(x[0], z[0]) == Ordering::Less);
                    assert(spec_cmp_lists(x, z) == Ordering::Less);
                }
                if spec_cmp(a, b) == Ordering::Equal && spec_cmp(b, c) == Ordering::Less {
                    assert(x.len() == 1 && spec_cmp(x[0], b) == Ordering::Equal);
                    if spec_cmp(b, z[0]) == Ordering::Less {
                        assert(spec_cmp(x[0], z[0]) == Ordering::Less);
                        assert(spec_cmp_lists(x, z) == Ordering::Less);
                    } else {
                        assert(spec_cmp(b, z[0]) == Ordering::Equal && z.len() != 1);
                        assert(spec_cmp(x[0], z[0]) == Ordering::Equal);
                        assert(x.drop_first().len() == 0 && z.drop_first().len() > 0);
                        assert(spec_cmp_lists(x.drop_first(), z.drop_first())
                            == Ordering::Less);
                        assert(spec_cmp_lists(x, z) == Ordering::Less);
                    }
                }
            }
        },
        (SpecSignal::L(x), SpecSignal::L(y), SpecSignal::I(z)) => {
            if x.len() > 0 && y.len() > 0 {
                lemma_cmp_trans(x[0], y[0], c);
                lemma_cmp_lists_never_less_than_empty(x.drop_first(), y.drop_first());
                lemma_cmp_lists_equal_same_len(x.drop_first(), y.drop_first());
                if spec_cmp(x[0], y[0]) == Ordering::Equal {
                    if spec_cmp_lists(x, y) == Ordering::Less {
                        assert(spec_cmp_lists(x.drop_first(), y.drop_first())
                            == Ordering::Less);
                        assert(y.drop_first().len() > 0);
                        assert(y.len() != 1);
                    }
                    if spec_cmp_lists(x, y) == Ordering::Equal {
                        assert(x.drop_first().len() == y.drop_first().len());
                    }
                }
            }
        },
    }
}

/// In a strictly-smaller or equal list comparison the shapes of the
/// tails line up; this names the two facts the mixed cases need.
proof fn lemma_cmp_lists_trans_tail_shapes(y: Seq<SpecSignal>, z: Seq<SpecSignal>)
    requires
        y.len() > 0,
        z.len() > 0,
    ensures
        spec_cmp_lists(y, z) == Ordering::Less && spec_cmp(y[0], z[0]) == Ordering::Equal
            ==> spec_cmp_lists(y.drop_first(), z.drop_first()) == Ordering::Less,
        spec_cmp_lists(y, z) == Ordering::Equal ==> spec_cmp(y[0], z[0]) == Ordering::Equal
            && spec_cmp_lists(y.drop_first(), z.drop_first()) == Ordering::Equal,
        spec_cmp_lists(y.drop_first(), z.drop_first()) == Ordering::Less ==> z.drop_first().len()
            > 0,
        spec_cmp_lists(y.drop_first(), z.drop_first()) == Ordering::Equal ==> (y.len() == 1
            <==> z.len() == 1),
    decreases y, z,
{
    lemma_cmp_lists_never_less_than_empty(y.drop_first(), z.drop_first());
    if spec_cmp_lists(y.drop_first(), z.drop_first()) == Ordering::Equal {
        lemma_cmp_lists_equal_same_len(y.drop_first(), z.drop_first());
    }
}

proof fn lemma_cmp_lists_never_less_than_empty(x: Seq<SpecSignal>, z: Seq<SpecSignal>)
    ensures
        spec_cmp_lists(x, z) == Ordering::Less ==> z.len() > 0,
{
}

proof fn lemma_cmp_lists_equal_same_len(x: Seq<SpecSignal>, z: Seq<SpecSignal>)
    ensures
        spec_cmp_lists(x, z) == Ordering::Equal ==> x.len() == z.len(),
    decreases x, z,
{
    if x.len() > 0 && z.len() > 0 {
        lemma_cmp_lists_equal_same_len(x.drop_first(), z.drop_first());
    }
}

proof fn lemma_cmp_lists_trans(x: Seq<SpecSignal>, y: Seq<SpecSignal>, z: Seq<SpecSignal>)
    ensures
        spec_cmp_lists(x, y) == Ordering::Less && spec_cmp_lists(y, z) == Ordering::Less
            ==> spec_cmp_lists(x, z) == Ordering::Less,
        spec_cmp_lists(x, y) == Ordering::Equal && spec_cmp_lists(y, z) == Ordering::Less
            ==> spec_cmp_lists(x, z) == Ordering::Less,
        spec_cmp_lists(x, y) == Ordering::Less && spec_cmp_lists(y, z) == Ordering::Equal
            ==> spec_cmp_lists(x, z) == Ordering::Less,
        spec_cmp_lists(x, y) == Ordering::Equal && spec_cmp_lists(y, z) == Ordering::Equal
            ==> spec_cmp_lists(x, z) == Ordering::Equal,
    decreases x, y, z,
{
    if x.len() > 0 && y.len() > 0 && z.len() > 0 {
        lemma_cmp_trans(x[0], y[0], z[0]);
        lemma_cmp_lists_trans(x.drop_first(), y.drop_first(), z.drop_first());
    }
}

/// Sort the signals ascending in the distress order, keeping exactly
/// the same elements.
fn sort_signals(v: &mut Vec<Signal>)
    ensures
        final(v)@.len() == old(v)@.len(),
        vstd::relations::sorted_by(sig_views(final(v)@), sig_leq()),
        sig_views(final(v)@).to_multiset() == sig_views(old(v)@).to_multiset(),
{
    let ghost orig = sig_views(old(v)@);
    let mut out: Vec<Signal> = Vec::new();
    proof {
        broadcast use vstd::seq_lib::group_to_multiset_ensures;

        lemma_sig_views_len(v@);
        assert(sig_views(out@) =~= Seq::<SpecSignal>::empty());
        assert(sig_views(out@).to_multiset().add(sig_views(v@).to_multiset())
            =~= orig.to_multiset());
    }
    while v.len() > 0
        invariant
            orig == sig_views(old(v)@),
            sig_views(out@).to_multiset().add(sig_views(v@).to_multiset()) == orig.to_multiset(),
            vstd::relations::sorted_by(sig_views(out@), sig_leq()),
            forall|a: int, b: int|
                0 <= a < sig_views(out@).len() && 0 <= b < sig_views(v@).len() ==> spec_cmp(
                    #[trigger] sig_views(out@)[a],
                    #[trigger] sig_views(v@)[b],
                ) != Ordering::Greater,
            out@.len() + v@.len() == old(v)@.len(),
        decreases v@.len(),
    {
        proof {
            lemma_sig_views_len(v@);
        }
        let mut best: usize = 0;
        let mut k: usize = 1;
        proof {
            lemma_sig_views_index(v@, 0);
            lemma_cmp_refl(sig_views(v@)[0]);
        }
        while k < v.len()
            invariant
                best < k,
                k <= v@.len(),
                v@.len() >= 1,
                sig_views(v@).len() == v@.len(),
                forall|t: int|
                    0 <= t < k ==> spec_cmp(
                        #[trigger] sig_views(v@).index(t),
                        sig_views(v@)[best as int],
                    ) != Ordering::Less,
            decreases v@.len() - k,
        {
            proof {
                lemma_sig_views_index(v@, k as int);
                lemma_sig_views_index(v@, best as int);
            }
            let c = v[k].cmp(&v[best]);
            match c {
                Ordering::Less => {
                    proof {
                        assert forall|t: int|
                            0 <= t < k + 1 implies spec_cmp(
                            #[trigger] sig_views(v@).index(t),
                            sig_views(v@)[k as int],
                        ) != Ordering::Less by {
                            if t < k {
                                lemma_cmp_trans(
                                    sig_views(v@)[t],
                                    sig_views(v@)[k as int],
                                    sig_views(v@)[best as int],
                                );
                            } else {
                                lemma_cmp_refl(sig_views(v@)[k as int]);
                            }
                        }
                    }
                    best = k;
                },
                _ => {},
            }
            k = k + 1;
        }
        proof {
            lemma_sig_views_index(v@, best as int);
        }
        let ghost vv = sig_views(v@);
        let ghost picked = vv[best as int];
        let ghost vbefore = v@;
        let m = v.remove(best);
        let ghost outb = out@;
        let ghost outv = sig_views(out@);
        out.push(m);
        proof {
            broadcast use vstd::seq_lib::group_to_multiset_ensures;

            lemma_sig_views_remove(vbefore, best as int);
            assert(sig_views(v@) == vv.remove(best as int));
            assert(sig_view(m) == picked);
            assert(out@ == outb.push(m));
            lemma_sig_views_snoc(outb, m);
            assert(sig_views(out@) == outv.push(picked));
            // the removed element moves between the two multisets
            assert(vv.remove(best as int).to_multiset() == vv.to_multiset().remove(picked));
            assert(outv.push(picked).to_multiset() == outv.to_multiset().insert(picked));
            assert(vv.to_multiset().count(picked) > 0);
            assert(outv.to_multiset().insert(picked).add(vv.to_multiset().remove(picked))
                =~= outv.to_multiset().add(vv.to_multiset()));
            // the picked element follows everything sorted so far and
            // precedes everything left
            assert forall|t: int| 0 <= t < vv.len() implies spec_cmp(
                picked,
                #[trigger] vv.index(t),
            ) != Ordering::Greater by {
                assert(spec_cmp(vv[t], picked) != Ordering::Less);
                lemma_cmp_flip(picked, vv[t]);
                if spec_cmp(picked, vv[t]) == Ordering::Greater {
                    assert(spec_cmp(vv[t], picked) == Ordering::Less);
                }
            }
            assert forall|a: int, b: int|
                0 <= a < sig_views(out@).len() && 0 <= b < sig_views(v@).len() implies spec_cmp(
                #[trigger] sig_views(out@)[a],
                #[trigger] sig_views(v@)[b],
            ) != Ordering::Greater by {
                let b0 = if b < best {
                    b
                } else {
                    b + 1
                };
                assert(sig_views(v@)[b] == vv[b0]);
                if a < outv.len() {
                    assert(sig_views(out@)[a] == outv[a]);
                } else {
                    assert(sig_views(out@)[a] == picked);
                }
            }
            assert forall|a: int, b: int|
                0 <= a < b < sig_views(out@).len() implies (sig_leq())(
                #[trigger] sig_views(out@)[a],
                #[trigger] sig_views(out@)[b],
            ) by {
                if b == sig_views(out@).len() - 1 {
                    assert(sig_views(out@)[a] == outv[a]);
                    assert(sig_views(out@)[b] == picked);
                    assert(spec_cmp(outv[a], vv[best as int]) != Ordering::Greater);
                } else {
                    assert(sig_views(out@)[a] == outv[a]);
                    assert(sig_views(out@)[b] == outv[b]);
                }
            }
        }
    }
    proof {
        broadcast use vstd::seq_lib::group_to_multiset_ensures;

        lemma_sig_views_len(v@);
        assert(sig_views(v@) =~= Seq::<SpecSignal>::empty());
        assert(sig_views(out@).to_multiset().add(Seq::<SpecSignal>::empty().to_multiset())
            =~= sig_views(out@).to_multiset());
    }
    let mut res = out;
    core::mem::swap(v, &mut res);
}

proof fn lemma_cmp_refl(a: SpecSignal)
    ensures
        spec_cmp(a, a) == Ordering::Equal,
    decreases a,
{
    match a {
        SpecSignal::I(x) => {},
        SpecSignal::L(x) => {
            lemma_cmp_lists_refl(x);
        },
    }
}

proof fn lemma_cmp_lists_refl(x: Seq<SpecSignal>)
    ensures
        spec_cmp_lists(x, x) == Ordering::Equal,
    decreases x,
{
    if x.len() > 0 {
        lemma_cmp_refl(x[0]);
        lemma_cmp_lists_refl(x.drop_first());
    }
}

/// Removing one element removes exactly its image from the views.
proof fn lemma_sig_views_remove(ss: Seq<Signal>, i: int)
    requires
        0 <= i < ss.len(),
    ensures
        sig_views(ss.remove(i)) == sig_views(ss).remove(i),
{
    lemma_sig_views_len(ss);
    lemma_sig_views_len(ss.remove(i));
    assert forall|t: int| 0 <= t < ss.len() - 1 implies sig_views(ss.remove(i))[t] == sig_views(
        ss,
    ).remove(i)[t] by {
        lemma_sig_views_index(ss.remove(i), t);
        if t < i {
            lemma_sig_views_index(ss, t);
            assert(ss.remove(i)[t] == ss[t]);
        } else {
            lemma_sig_views_index(ss, t + 1);
            assert(ss.remove(i)[t] == ss[t + 1]);
        }
    }
    assert(sig_views(ss.remove(i)) =~= sig_views(ss).remove(i));
}

} // verus!
