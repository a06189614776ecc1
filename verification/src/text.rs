//! Verified helpers for the line- and field-oriented text formats the
//! solvers read: splitting on a separator, splitting into lines with the
//! same meaning as `str::lines`, and parsing signed decimal numerals.

use vstd::prelude::*;
use vstd::string::StrSliceExecFns;

verus! {

/// The views of a sequence of character vectors.
pub open spec fn views(vs: Seq<Vec<char>>) -> Seq<Seq<char>> {
    vs.map_values(|v: Vec<char>| v@)
}

/// Attach `c` to the front of the first piece.
pub open spec fn prepend_first(c: char, pieces: Seq<Seq<char>>) -> Seq<Seq<char>> {
    seq![seq![c] + pieces[0]] + pieces.drop_first()
}

/// Attach a whole prefix to the front of the first piece.
pub open spec fn prepend_seq_first(p: Seq<char>, pieces: Seq<Seq<char>>) -> Seq<Seq<char>> {
    seq![p + pieces[0]] + pieces.drop_first()
}

/// The pieces of `s` between non-overlapping, leftmost matches of `sep`,
/// as `str::split` produces them.
pub open spec fn spec_split(s: Seq<char>, sep: Seq<char>) -> Seq<Seq<char>>
    decreases s.len(),
    when sep.len() >= 1
{
    if s.len() >= sep.len() && s.subrange(0, sep.len() as int) == sep {
        seq![Seq::<char>::empty()] + spec_split(s.skip(sep.len() as int), sep)
    } else if s.len() == 0 {
        seq![Seq::<char>::empty()]
    } else {
        prepend_first(s[0], spec_split(s.drop_first(), sep))
    }
}

pub proof fn lemma_split_nonempty(s: Seq<char>, sep: Seq<char>)
    requires
        sep.len() >= 1,
    ensures
        spec_split(s, sep).len() >= 1,
    decreases s.len(),
{
    if s.len() >= sep.len() && s.subrange(0, sep.len() as int) == sep {
        lemma_split_nonempty(s.skip(sep.len() as int), sep);
    } else if s.len() == 0 {
    } else {
        lemma_split_nonempty(s.drop_first(), sep);
    }
}

/// A line with a trailing carriage return loses it, as under `str::lines`.
pub open spec fn strip_cr(l: Seq<char>) -> Seq<char> {
    if l.len() > 0 && l.last() == '\r' {
        l.drop_last()
    } else {
        l
    }
}

/// The lines of `s`, as `str::lines` produces them: split on `'\n'`,
/// drop a final empty piece, strip one trailing `'\r'` from each line.
pub open spec fn spec_lines(s: Seq<char>) -> Seq<Seq<char>> {
    let ps = spec_split(s, seq!['\n']);
    let qs = if ps.last().len() == 0 {
        ps.drop_last()
    } else {
        ps
    };
    qs.map_values(|l: Seq<char>| strip_cr(l))
}

/// The characters of `s`, as an owned vector.
pub fn chars_of(s: &str) -> (r: Vec<char>)
    ensures
        r@ == s@,
{
    let n = s.unicode_len();
    let mut r: Vec<char> = Vec::new();
    let mut i: usize = 0;
    while i < n
        invariant
            i <= n,
            n == s@.len(),
            r@ == s@.subrange(0, i as int),
        decreases n - i,
    {
        let c = s.get_char(i);
        r.push(c);
        proof {
            assert(s@.subrange(0, i + 1) =~= s@.subrange(0, i as int).push(s@[i as int]));
        }
        i = i + 1;
    }
    proof {
        assert(s@.subrange(0, n as int) =~= s@);
    }
    r
}

/// Whether `sep` occurs in `s` starting at position `i`.
fn matches_at(s: &Vec<char>, sep: &Vec<char>, i: usize) -> (b: bool)
    requires
        i <= s@.len(),
    ensures
        b == (i + sep@.len() <= s@.len() && s@.subrange(i as int, i + sep@.len()) == sep@),
{
    let n = s.len();
    if n - i < sep.len() {
        return false;
    }
    let mut j: usize = 0;
    while j < sep.len()
        invariant
            j <= sep@.len(),
            n == s@.len(),
            i + sep@.len() <= s@.len(),
            forall|k: int| 0 <= k < j ==> s@[i + k] == sep@[k],
        decreases sep@.len() - j,
    {
        proof {
            assert(i + j < n);
        }
        if s[i + j] != sep[j] {
            proof {
                assert(s@.subrange(i as int, i + sep@.len())[j as int] == s@[i + j]);
            }
            return false;
        }
        j = j + 1;
    }
    proof {
        assert(s@.subrange(i as int, i + sep@.len()) =~= sep@);
    }
    true
}

/// Split `s` on `sep`, exactly as `str::split` with a string pattern does.
pub fn split_at_seq(s: &Vec<char>, sep: &Vec<char>) -> (r: Vec<Vec<char>>)
    requires
        sep@.len() >= 1,
    ensures
        views(r@) == spec_split(s@, sep@),
{
    let ghost whole = spec_split(s@, sep@);
    let mut done: Vec<Vec<char>> = Vec::new();
    let mut cur: Vec<char> = Vec::new();
    let mut i: usize = 0;
    proof {
        lemma_split_nonempty(s@, sep@);
        assert(s@.skip(0) =~= s@);
        assert(views(done@) =~= Seq::<Seq<char>>::empty());
        assert(Seq::<char>::empty() + whole[0] =~= whole[0]);
        assert(seq![whole[0]] + whole.drop_first() =~= whole);
        assert(prepend_seq_first(Seq::<char>::empty(), whole) =~= whole);
    }
    while i < s.len()
        invariant
            i <= s@.len(),
            sep@.len() >= 1,
            whole == spec_split(s@, sep@),
            spec_split(s@.skip(i as int), sep@).len() >= 1,
            whole =~= views(done@) + prepend_seq_first(
                cur@,
                spec_split(s@.skip(i as int), sep@),
            ),
        decreases s@.len() - i,
    {
        let ghost rest = spec_split(s@.skip(i as int), sep@);
        if matches_at(s, sep, i) {
            proof {
                assert(s@.skip(i as int).len() >= sep@.len());
                assert(s@.skip(i as int).subrange(0, sep@.len() as int) =~= s@.subrange(
                    i as int,
                    i + sep@.len(),
                ));
                assert(s@.skip(i as int).skip(sep@.len() as int) =~= s@.skip(
                    i + sep@.len(),
                ));
                lemma_split_nonempty(s@.skip(i + sep@.len()), sep@);
            }
            let ghost tail = spec_split(s@.skip(i + sep@.len()), sep@);
            proof {
                assert(rest == seq![Seq::<char>::empty()] + tail);
                assert(rest[0] =~= Seq::<char>::empty());
                assert(rest.drop_first() =~= tail);
                assert(prepend_seq_first(cur@, rest) =~= seq![cur@] + tail);
                assert(prepend_seq_first(Seq::<char>::empty(), tail) =~= tail) by {
                    assert(Seq::<char>::empty() + tail[0] =~= tail[0]);
                    assert(seq![tail[0]] + tail.drop_first() =~= tail);
                }
            }
            done.push(cur);
            cur = Vec::new();
            i = i + sep.len();
            proof {
                assert(views(done@) =~= views(done@.drop_last()) + seq![done@.last()@]);
                assert(whole =~= views(done@) + prepend_seq_first(
                    cur@,
                    spec_split(s@.skip(i as int), sep@),
                ));
            }
        } else {
            proof {
                assert(s@.skip(i as int).len() > 0);
                assert(!(s@.skip(i as int).len() >= sep@.len() && s@.skip(i as int).subrange(
                    0,
                    sep@.len() as int,
                ) == sep@)) by {
                    if s@.skip(i as int).len() >= sep@.len() {
                        assert(s@.skip(i as int).subrange(0, sep@.len() as int) =~= s@.subrange(
                            i as int,
                            i + sep@.len(),
                        ));
                    }
                }
                assert(s@.skip(i as int).drop_first() =~= s@.skip(i + 1));
                lemma_split_nonempty(s@.skip(i + 1), sep@);
            }
            let ghost tail = spec_split(s@.skip(i + 1), sep@);
            proof {
                assert(s@.skip(i as int)[0] == s@[i as int]);
                assert(rest == prepend_first(s@[i as int], tail));
                assert(prepend_seq_first(cur@, rest) =~= prepend_seq_first(
                    cur@.push(s@[i as int]),
                    tail,
                )) by {
                    assert(rest[0] == seq![s@[i as int]] + tail[0]);
                    assert(rest.drop_first() =~= tail.drop_first());
                    assert(cur@ + (seq![s@[i as int]] + tail[0]) =~= cur@.push(s@[i as int])
                        + tail[0]);
                }
            }
            let c = s[i];
            cur.push(c);
            i = i + 1;
        }
    }
    proof {
        assert(s@.skip(i as int).len() == 0);
        let last = spec_split(s@.skip(i as int), sep@);
        assert(last =~= seq![Seq::<char>::empty()]);
        assert(prepend_seq_first(cur@, last) =~= seq![cur@]) by {
            assert(cur@ + last[0] =~= cur@);
            assert(last.drop_first() =~= Seq::<Seq<char>>::empty());
        }
    }
    done.push(cur);
    proof {
        assert(views(done@) =~= views(done@.drop_last()) + seq![done@.last()@]);
        assert(views(done@) =~= spec_split(s@, sep@));
    }
    done
}

/// Split `s` into its lines, exactly as `str::lines` does.
pub fn split_lines(s: &Vec<char>) -> (r: Vec<Vec<char>>)
    ensures
        views(r@) == spec_lines(s@),
{
    let sep: Vec<char> = vec!['\n'];
    proof {
        assert(sep@ =~= seq!['\n']);
    }
    let mut ps = split_at_seq(s, &sep);
    proof {
        lemma_split_nonempty(s@, seq!['\n']);
    }
    let ghost split0 = spec_split(s@, seq!['\n']);
    let ghost kept = if split0.last().len() == 0 {
        split0.drop_last()
    } else {
        split0
    };
    if ps[ps.len() - 1].len() == 0 {
        proof {
            assert(views(ps@).last() == ps@.last()@);
        }
        ps.pop();
        proof {
            assert(views(ps@) =~= split0.drop_last());
        }
    } else {
        proof {
            assert(views(ps@).last() == ps@.last()@);
        }
    }
    let mut r: Vec<Vec<char>> = Vec::new();
    let ghost total = kept.len();
    proof {
        assert(views(ps@) =~= kept);
    }
    while ps.len() > 0
        invariant
            views(r@).len() + ps@.len() == total,
            total == kept.len(),
            forall|k: int| 0 <= k < r@.len() ==> #[trigger] r@[k]@ == strip_cr(kept[k]),
            forall|k: int| 0 <= k < ps@.len() ==> #[trigger] ps@[k]@ == kept[r@.len() + k],
        decreases ps@.len(),
    {
        let mut piece = ps.remove(0);
        let ghost orig = piece@;
        if piece.len() > 0 && piece[piece.len() - 1] == '\r' {
            piece.pop();
        }
        proof {
            assert(piece@ == strip_cr(orig));
        }
        r.push(piece);
    }
    proof {
        let mapped = kept.map_values(|l: Seq<char>| strip_cr(l));
        assert(spec_lines(s@) == mapped);
        assert(views(r@).len() == mapped.len());
        assert forall|k: int| 0 <= k < mapped.len() implies views(r@)[k] == mapped[k] by {
            assert(r@[k]@ == strip_cr(kept[k]));
        }
        assert(views(r@) =~= mapped);
    }
    r
}

// ---- decimal numerals ----

pub open spec fn is_digit(c: char) -> bool {
    '0' <= c && c <= '9'
}

pub open spec fn digit_val(c: char) -> int {
    c as int - '0' as int
}

pub open spec fn all_digits(s: Seq<char>) -> bool {
    forall|i: int| 0 <= i < s.len() ==> is_digit(#[trigger] s[i])
}

/// The value of a string of decimal digits, most significant first.
pub open spec fn digits_val(s: Seq<char>) -> int
    decreases s.len(),
{
    if s.len() == 0 {
        0
    } else {
        digits_val(s.drop_last()) * 10 + digit_val(s.last())
    }
}

/// Whether `s` is a decimal numeral with an optional sign, as
/// `str::parse` for an integer type accepts it.
pub open spec fn is_int_numeral(s: Seq<char>) -> bool {
    if s.len() > 0 && (s[0] == '-' || s[0] == '+') {
        s.len() > 1 && all_digits(s.drop_first())
    } else {
        s.len() > 0 && all_digits(s)
    }
}

/// The integer a numeral denotes.
pub open spec fn int_value(s: Seq<char>) -> int {
    if s.len() > 0 && s[0] == '-' {
        -digits_val(s.drop_first())
    } else if s.len() > 0 && s[0] == '+' {
        digits_val(s.drop_first())
    } else {
        digits_val(s)
    }
}

/// Whether `s` denotes a value an `i64` can hold.
pub open spec fn is_i64_numeral(s: Seq<char>) -> bool {
    is_int_numeral(s) && i64::MIN <= int_value(s) <= i64::MAX
}

pub proof fn lemma_digits_val_nonneg(s: Seq<char>)
    requires
        all_digits(s),
    ensures
        digits_val(s) >= 0,
    decreases s.len(),
{
    if s.len() > 0 {
        assert(all_digits(s.drop_last()));
        lemma_digits_val_nonneg(s.drop_last());
    }
}

/// Extending a digit string can only increase its value.
pub proof fn lemma_digits_val_prefix(s: Seq<char>, k: int)
    requires
        all_digits(s),
        0 <= k <= s.len(),
    ensures
        digits_val(s.subrange(0, k)) <= digits_val(s),
    decreases s.len() - k,
{
    if k < s.len() {
        let t = s.subrange(0, k + 1);
        assert(all_digits(t));
        assert(t.drop_last() =~= s.subrange(0, k));
        lemma_digits_val_nonneg(s.subrange(0, k));
        assert(digits_val(t) == digits_val(s.subrange(0, k)) * 10 + digit_val(t.last()));
        assert(digits_val(s.subrange(0, k)) * 10 >= digits_val(s.subrange(0, k))) by (
        nonlinear_arith)
            requires
                digits_val(s.subrange(0, k)) >= 0,
        ;
        lemma_digits_val_prefix(s, k + 1);
    } else {
        assert(s.subrange(0, k) =~= s);
    }
}

/// Parse a decimal digit string, returning its value when every character
/// is a digit and the value is at most `cap`; `None` otherwise.
fn parse_digits(s: &Vec<char>, from: usize, cap: u64) -> (r: Option<u64>)
    requires
        from <= s@.len(),
    ensures
        match r {
            Some(v) => {
                &&& all_digits(s@.skip(from as int))
                &&& s@.len() > from
                &&& v == digits_val(s@.skip(from as int))
                &&& v <= cap
            },
            None => !(all_digits(s@.skip(from as int)) && s@.len() > from && digits_val(
                s@.skip(from as int),
            ) <= cap),
        },
{
    let ghost digits = s@.skip(from as int);
    if from == s.len() {
        return None;
    }
    let mut acc: u64 = 0;
    let mut i: usize = from;
    while i < s.len()
        invariant
            from <= i <= s@.len(),
            digits == s@.skip(from as int),
            all_digits(s@.subrange(from as int, i as int)),
            acc == digits_val(s@.subrange(from as int, i as int)),
        decreases s@.len() - i,
    {
        let c = s[i];
        if !('0' <= c && c <= '9') {
            proof {
                assert(digits[i - from] == c);
            }
            return None;
        }
        let d: u64 = (c as u64) - 48;
        proof {
            assert(d == digit_val(c));
        }
        if acc > (u64::MAX - d) / 10 {
            proof {
                let pre = s@.subrange(from as int, i + 1);
                assert(pre.drop_last() =~= s@.subrange(from as int, i as int));
                assert(digits_val(pre) == acc * 10 + d);
                assert(acc * 10 + d > u64::MAX) by (nonlinear_arith)
                    requires
                        acc > (u64::MAX - d) / 10,
                        0 <= d <= 9,
                ;
                if all_digits(digits) {
                    assert(digits.subrange(0, i + 1 - from) =~= pre);
                    lemma_digits_val_prefix(digits, i + 1 - from);
                    assert(digits_val(digits) > u64::MAX >= cap);
                }
            }
            return None;
        }
        acc = acc * 10 + d;
        proof {
            let pre = s@.subrange(from as int, i + 1);
            assert(pre.drop_last() =~= s@.subrange(from as int, i as int));
        }
        i = i + 1;
    }
    proof {
        assert(s@.subrange(from as int, i as int) =~= digits);
    }
    if acc <= cap {
        Some(acc)
    } else {
        None
    }
}

/// Parse `s` as an `i64`, exactly as `str::parse::<i64>` accepts it:
/// an optional sign followed by one or more digits, in range.
pub fn parse_i64(s: &Vec<char>) -> (r: Option<i64>)
    ensures
        r == if is_i64_numeral(s@) {
            Some(int_value(s@) as i64)
        } else {
            None::<i64>
        },
{
    proof {
        if is_int_numeral(s@) {
            if s@[0] == '-' || s@[0] == '+' {
                lemma_digits_val_nonneg(s@.drop_first());
            } else {
                lemma_digits_val_nonneg(s@);
            }
        }
    }
    if s.len() == 0 {
        return None;
    }
    let c0 = s[0];
    if c0 == '-' {
        proof {
            assert(s@.skip(1) =~= s@.drop_first());
        }
        match parse_digits(s, 1, 9223372036854775808u64) {
            Some(v) => {
                if v == 9223372036854775808u64 {
                    Some(i64::MIN)
                } else {
                    Some(-(v as i64))
                }
            },
            None => None,
        }
    } else if c0 == '+' {
        proof {
            assert(s@.skip(1) =~= s@.drop_first());
        }
        match parse_digits(s, 1, i64::MAX as u64) {
            Some(v) => Some(v as i64),
            None => None,
        }
    } else {
        proof {
            assert(s@.skip(0) =~= s@);
        }
        match parse_digits(s, 0, i64::MAX as u64) {
            Some(v) => Some(v as i64),
            None => None,
        }
    }
}

/// Whether `v` holds exactly the characters of `s`.
pub fn eq_str(v: &Vec<char>, s: &str) -> (b: bool)
    ensures
        b == (v@ == s@),
{
    let n = s.unicode_len();
    if v.len() != n {
        proof {
            assert(v@.len() != s@.len());
        }
        return false;
    }
    let mut i: usize = 0;
    while i < n
        invariant
            i <= n,
            n == s@.len(),
            v@.len() == n,
            forall|k: int| 0 <= k < i ==> v@[k] == s@[k],
        decreases n - i,
    {
        let c = s.get_char(i);
        if v[i] != c {
            return false;
        }
        i = i + 1;
    }
    proof {
        assert(v@ =~= s@);
    }
    true
}

} // verus!
