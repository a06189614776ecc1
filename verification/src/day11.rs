//! Monkeys tossing worry items: each monkey applies its operation to
//! every held item, relieves the worry (dividing by three, or reducing
//! by a shared modulus), and throws the item on by a divisibility test.
//! The answer is the product of the two busiest monkeys' inspection
//! counts.

use vstd::prelude::*;
use vstd::arithmetic::div_mod::{lemma_add_mod_noop, lemma_mul_mod_noop, lemma_mod_mod, lemma_fundamental_div_mod};
use vstd::relations::sorted_by;
use crate::seqs::{sort_i64, i64_leq};
use crate::text::{chars_of, split_lines, split_at_seq, parse_i64, spec_split, spec_lines, is_i64_numeral, int_value, views};

verus! {

#[derive(Clone, Copy, Debug, PartialEq, Eq, Structural)]
pub enum Operand {
    Old,
    Const(i64),
}

#[derive(Clone, Copy, Debug, PartialEq, Eq, Structural)]
pub enum NumOp {
    Add,
    Mul,
}

/// A monkey's worry operation: `left op right`, where either side may
/// be the old worry value.
#[derive(Clone, Copy, Debug, PartialEq, Eq, Structural)]
pub struct Operation {
    pub left: Operand,
    pub op: NumOp,
    pub right: Operand,
}

/// A monkey's throwing rule: the divisor tested and the two targets.
#[derive(Clone, Copy, Debug, PartialEq, Eq, Structural)]
pub struct MonkeyTest {
    pub div_by: i64,
    pub if_true: usize,
    pub if_false: usize,
}

pub struct Monkey {
    pub items: Vec<i64>,
    pub op: Operation,
    pub test: MonkeyTest,
    pub inspects: i64,
}

/// The ghost image of one monkey.
#[verifier::ext_equal]
pub struct SpecMonkey {
    pub items: Seq<int>,
    pub op: Operation,
    pub test: MonkeyTest,
    pub inspects: int,
}

pub open spec fn mview(m: Monkey) -> SpecMonkey {
    SpecMonkey {
        items: m.items@.map_values(|x: i64| x as int),
        op: m.op,
        test: m.test,
        inspects: m.inspects as int,
    }
}

pub open spec fn mviews(ms: Seq<Monkey>) -> Seq<SpecMonkey> {
    ms.map_values(|m: Monkey| mview(m))
}

pub open spec fn spec_operand(o: Operand, w: int) -> int {
    match o {
        Operand::Old => w,
        Operand::Const(c) => c as int,
    }
}

/// The new worry value an operation produces.
pub open spec fn spec_eval(op: Operation, w: int) -> int {
    match op.op {
        NumOp::Add => spec_operand(op.left, w) + spec_operand(op.right, w),
        NumOp::Mul => spec_operand(op.left, w) * spec_operand(op.right, w),
    }
}

/// How worry is relieved after an inspection.
pub enum WorryMode {
    DivThree,
    Modulo(int),
}

pub open spec fn spec_relieve(mode: WorryMode, w: int) -> int {
    match mode {
        WorryMode::DivThree => w / 3,
        WorryMode::Modulo(m) => w % m,
    }
}

pub open spec fn spec_target(t: MonkeyTest, w: int) -> int {
    if w % (t.div_by as int) == 0 {
        t.if_true as int
    } else {
        t.if_false as int
    }
}

/// Throw the snapshot items of monkey `i` one by one.
pub open spec fn spec_throw(
    state: Seq<SpecMonkey>,
    i: int,
    items: Seq<int>,
    mode: WorryMode,
) -> Seq<SpecMonkey>
    decreases items.len(),
{
    if items.len() == 0 {
        state
    } else {
        let nw = spec_relieve(mode, spec_eval(state[i].op, items[0]));
        let t = spec_target(state[i].test, nw);
        let with_item = state.update(
            t,
            SpecMonkey { items: state[t].items.push(nw), ..state[t] },
        );
        let with_count = with_item.update(
            i,
            SpecMonkey { inspects: with_item[i].inspects + 1, ..with_item[i] },
        );
        spec_throw(with_count, i, items.drop_first(), mode)
    }
}

/// One monkey's whole turn: throw the items it held at the start of
/// the turn, then put down everything it holds.
pub open spec fn spec_turn(state: Seq<SpecMonkey>, i: int, mode: WorryMode) -> Seq<SpecMonkey> {
    let thrown = spec_throw(state, i, state[i].items, mode);
    thrown.update(i, SpecMonkey { items: Seq::empty(), ..thrown[i] })
}

/// The turns of monkeys `0 .. k`, in order.
pub open spec fn spec_turns(state: Seq<SpecMonkey>, k: int, mode: WorryMode) -> Seq<SpecMonkey>
    decreases k,
{
    if k <= 0 {
        state
    } else {
        spec_turn(spec_turns(state, k - 1, mode), k - 1, mode)
    }
}

/// One full round.
pub open spec fn spec_round(state: Seq<SpecMonkey>, mode: WorryMode) -> Seq<SpecMonkey> {
    spec_turns(state, state.len() as int, mode)
}

pub open spec fn spec_rounds(state: Seq<SpecMonkey>, mode: WorryMode, n: nat) -> Seq<SpecMonkey>
    decreases n,
{
    if n == 0 {
        state
    } else {
        spec_round(spec_rounds(state, mode, (n - 1) as nat), mode)
    }
}

/// The structural side conditions of a monkey list: targets exist,
/// divisors are positive, counts and worries are nonnegative.
pub open spec fn monkeys_wf(state: Seq<SpecMonkey>) -> bool {
    forall|k: int|
        0 <= k < state.len() ==> {
            let m = #[trigger] state[k];
            &&& m.test.div_by > 0
            &&& m.test.if_true < state.len()
            &&& m.test.if_false < state.len()
            &&& m.inspects >= 0
            &&& forall|j: int| 0 <= j < m.items.len() ==> 0 <= #[trigger] m.items[j]
        }
}

/// Every intermediate value of one throw sequence fits the machine.
pub open spec fn throw_ok(state: Seq<SpecMonkey>, i: int, items: Seq<int>, mode: WorryMode) -> bool
    decreases items.len(),
{
    if items.len() == 0 {
        true
    } else {
        let nw = spec_relieve(mode, spec_eval(state[i].op, items[0]));
        let t = spec_target(state[i].test, nw);
        let with_item = state.update(
            t,
            SpecMonkey { items: state[t].items.push(nw), ..state[t] },
        );
        let with_count = with_item.update(
            i,
            SpecMonkey { inspects: with_item[i].inspects + 1, ..with_item[i] },
        );
        &&& spec_eval(state[i].op, items[0]) <= i64::MAX
        &&& state[i].inspects + 1 <= i64::MAX
        &&& throw_ok(with_count, i, items.drop_first(), mode)
    }
}

pub open spec fn turns_ok(state: Seq<SpecMonkey>, k: int, mode: WorryMode) -> bool
    decreases k,
{
    if k <= 0 {
        true
    } else {
        turns_ok(state, k - 1, mode) && throw_ok(
            spec_turns(state, k - 1, mode),
            k - 1,
            spec_turns(state, k - 1, mode)[k - 1].items,
            mode,
        )
    }
}

pub open spec fn round_ok(state: Seq<SpecMonkey>, mode: WorryMode) -> bool {
    turns_ok(state, state.len() as int, mode)
}

pub open spec fn rounds_ok(state: Seq<SpecMonkey>, mode: WorryMode, n: nat) -> bool
    decreases n,
{
    if n == 0 {
        true
    } else {
        rounds_ok(state, mode, (n - 1) as nat) && round_ok(
            spec_rounds(state, mode, (n - 1) as nat),
            mode,
        )
    }
}

proof fn lemma_turns_ok_prefix(state: Seq<SpecMonkey>, k: int, n: int, mode: WorryMode)
    requires
        k <= n,
        turns_ok(state, n, mode),
    ensures
        turns_ok(state, k, mode),
    decreases n - k,
{
    if k < n {
        lemma_turns_ok_prefix_step(state, n, mode);
        lemma_turns_ok_prefix(state, k, n - 1, mode);
    }
}

proof fn lemma_turns_ok_prefix_step(state: Seq<SpecMonkey>, n: int, mode: WorryMode)
    requires
        turns_ok(state, n, mode),
    ensures
        turns_ok(state, n - 1, mode),
{
    if n > 0 {
    }
}

/// Congruence survives a worry operation: operands taken modulo `m`
/// leave the result unchanged modulo `m`.
proof fn lemma_eval_congruence(op: Operation, w: int, wu: int, m: int)
    requires
        m > 0,
        w % m == wu % m,
    ensures
        spec_eval(op, w) % m == spec_eval(op, wu) % m,
{
    let p = spec_operand(op.left, w);
    let q = spec_operand(op.right, w);
    let pu = spec_operand(op.left, wu);
    let qu = spec_operand(op.right, wu);
    assert(p % m == pu % m && q % m == qu % m) by {
        match op.left {
            Operand::Old => {},
            Operand::Const(_) => {},
        }
        match op.right {
            Operand::Old => {},
            Operand::Const(_) => {},
        }
    }
    match op.op {
        NumOp::Add => {
            lemma_add_mod_noop(p, q, m);
            lemma_add_mod_noop(pu, qu, m);
        },
        NumOp::Mul => {
            lemma_mul_mod_noop(p, q, m);
            lemma_mul_mod_noop(pu, qu, m);
        },
    }
}

/// Congruence modulo `m` decides divisibility by any divisor of `m`.
proof fn lemma_congruence_descends(a: int, b: int, d: int, m: int)
    requires
        d > 0,
        m > 0,
        m % d == 0,
        a % m == b % m,
    ensures
        a % d == b % d,
{
    lemma_fundamental_div_mod(m, d);
    assert(m == d * (m / d));
    assert(m / d > 0) by {
        if m / d <= 0 {
            vstd::arithmetic::mul::lemma_mul_inequality(m / d, 0, d);
        }
    }
    lemma_mod_mod(a, d, m / d);
    lemma_mod_mod(b, d, m / d);
}

/// Reducing worries by a common multiple of every divisor never
/// changes where an item is thrown: the reduced and unreduced worries
/// stay congruent through the operation, and the divisibility test of
/// any monkey whose divisor divides the modulus picks the same target
/// for both.
pub proof fn lemma_reduction_preserves_decisions(
    op: Operation,
    t: MonkeyTest,
    w: int,
    wu: int,
    m: int,
)
    requires
        m > 0,
        t.div_by > 0,
        m % (t.div_by as int) == 0,
        w % m == wu % m,
    ensures
        spec_relieve(WorryMode::Modulo(m), spec_eval(op, w)) % m == spec_eval(op, wu) % m,
        spec_target(t, spec_relieve(WorryMode::Modulo(m), spec_eval(op, w))) == spec_target(
            t,
            spec_eval(op, wu),
        ),
{
    lemma_eval_congruence(op, w, wu, m);
    let d = t.div_by as int;
    let nw = spec_eval(op, w) % m;
    assert(nw % m == spec_eval(op, w) % m) by {
        vstd::arithmetic::div_mod::lemma_mod_twice(spec_eval(op, w), m);
    }
    lemma_congruence_descends(nw, spec_eval(op, wu), d, m);
}

/// The positive-mode invariant survives a throw.
proof fn lemma_throw_wf(state: Seq<SpecMonkey>, i: int, items: Seq<int>, mode: WorryMode)
    requires
        monkeys_wf(state),
        0 <= i < state.len(),
        forall|j: int| 0 <= j < items.len() ==> 0 <= #[trigger] items[j],
        match mode {
            WorryMode::DivThree => true,
            WorryMode::Modulo(m) => m > 0,
        },
        operation_nonneg(state[i].op),
    ensures
        monkeys_wf(spec_throw(state, i, items, mode)),
        spec_throw(state, i, items, mode).len() == state.len(),
        forall|k: int|
            0 <= k < state.len() ==> (#[trigger] spec_throw(state, i, items, mode)[k]).op
                == state[k].op && spec_throw(state, i, items, mode)[k].test == state[k].test,
    decreases items.len(),
{
    if items.len() > 0 {
        let nw = spec_relieve(mode, spec_eval(state[i].op, items[0]));
        let t = spec_target(state[i].test, nw);
        let with_item = state.update(
            t,
            SpecMonkey { items: state[t].items.push(nw), ..state[t] },
        );
        let with_count = with_item.update(
            i,
            SpecMonkey { inspects: with_item[i].inspects + 1, ..with_item[i] },
        );
        assert(0 <= nw) by {
            lemma_eval_nonneg(state[i].op, items[0]);
            match mode {
                WorryMode::DivThree => {},
                WorryMode::Modulo(m) => {},
            }
        }
        assert(monkeys_wf(with_count));
        lemma_throw_wf(with_count, i, items.drop_first(), mode);
    }
}

/// A nonnegative-operand operation keeps worries nonnegative.
pub open spec fn operand_nonneg(o: Operand) -> bool {
    match o {
        Operand::Old => true,
        Operand::Const(c) => c >= 0,
    }
}

pub open spec fn operation_nonneg(op: Operation) -> bool {
    operand_nonneg(op.left) && operand_nonneg(op.right)
}

proof fn lemma_eval_nonneg(op: Operation, w: int)
    requires
        operation_nonneg(op),
        w >= 0,
    ensures
        spec_eval(op, w) >= 0,
{
    match op.op {
        NumOp::Add => {},
        NumOp::Mul => {
            assert(spec_operand(op.left, w) * spec_operand(op.right, w) >= 0) by (
            nonlinear_arith)
                requires
                    spec_operand(op.left, w) >= 0,
                    spec_operand(op.right, w) >= 0,
            ;
        },
    }
}

/// Evaluate a monkey's operation on a worry value.
pub fn apply_operation(op: &Operation, w: i64) -> (r: i64)
    requires
        0 <= w,
        operation_nonneg(*op),
        spec_eval(*op, w as int) <= i64::MAX,
    ensures
        r == spec_eval(*op, w as int),
        r >= 0,
{
    proof {
        lemma_eval_nonneg(*op, w as int);
    }
    let a = match op.left {
        Operand::Old => w,
        Operand::Const(c) => c,
    };
    let b = match op.right {
        Operand::Old => w,
        Operand::Const(c) => c,
    };
    match op.op {
        NumOp::Add => a + b,
        NumOp::Mul => a * b,
    }
}

/// Pick the target monkey for a worry value.
pub fn apply_test(t: &MonkeyTest, w: i64) -> (r: usize)
    requires
        t.div_by > 0,
        0 <= w,
    ensures
        r == spec_target(*t, w as int),
{
    if w % t.div_by == 0 {
        t.if_true
    } else {
        t.if_false
    }
}


/// Appending one item to the throw list applies one more step at the
/// end, with the thrower's rule unchanged throughout.
proof fn lemma_throw_snoc(state: Seq<SpecMonkey>, i: int, items: Seq<int>, w: int, mode: WorryMode)
    requires
        0 <= i < state.len(),
        state[i].test.if_true < state.len(),
        state[i].test.if_false < state.len(),
    ensures
        ({
            let mid = spec_throw(state, i, items, mode);
            spec_throw(state, i, items.push(w), mode) == if 0 <= i < mid.len() {
                let nw = spec_relieve(mode, spec_eval(mid[i].op, w));
                let t = spec_target(mid[i].test, nw);
                let with_item = mid.update(
                    t,
                    SpecMonkey { items: mid[t].items.push(nw), ..mid[t] },
                );
                with_item.update(
                    i,
                    SpecMonkey { inspects: with_item[i].inspects + 1, ..with_item[i] },
                )
            } else {
                mid
            }
        }),
        spec_throw(state, i, items, mode).len() == state.len(),
        spec_throw(state, i, items, mode)[i].op == state[i].op,
        spec_throw(state, i, items, mode)[i].test == state[i].test,
    decreases items.len(),
{
    if items.len() == 0 {
        assert(items.push(w)[0] == w);
        assert(items.push(w).drop_first() =~= Seq::<int>::empty());
        let mid = spec_throw(state, i, items, mode);
        assert(mid == state);
        let nw = spec_relieve(mode, spec_eval(state[i].op, w));
        let t = spec_target(state[i].test, nw);
        let wi_ = state.update(t, SpecMonkey { items: state[t].items.push(nw), ..state[t] });
        let wc_ = wi_.update(i, SpecMonkey { inspects: wi_[i].inspects + 1, ..wi_[i] });
        assert(spec_throw(state, i, items.push(w), mode) == spec_throw(
            wc_,
            i,
            items.push(w).drop_first(),
            mode,
        ));
        assert(spec_throw(wc_, i, items.push(w).drop_first(), mode) == wc_);
    } else {
        let nw0 = spec_relieve(mode, spec_eval(state[i].op, items[0]));
        let t0 = spec_target(state[i].test, nw0);
        let with_item = state.update(
            t0,
            SpecMonkey { items: state[t0].items.push(nw0), ..state[t0] },
        );
        let with_count = with_item.update(
            i,
            SpecMonkey { inspects: with_item[i].inspects + 1, ..with_item[i] },
        );
        assert(items.push(w)[0] == items[0]);
        assert(items.push(w).drop_first() =~= items.drop_first().push(w));
        assert(with_count.len() == state.len());
        assert(with_count[i].test == state[i].test);
        lemma_throw_snoc(with_count, i, items.drop_first(), w, mode);
        let mid = spec_throw(state, i, items, mode);
        assert(mid == spec_throw(with_count, i, items.drop_first(), mode));
        assert(spec_throw(state, i, items.push(w), mode) == spec_throw(
            with_count,
            i,
            items.drop_first().push(w),
            mode,
        ));
    }
}

/// Play one round under the chosen relief rule.
fn run_round(monkeys: &mut Vec<Monkey>, div3: bool, mod_by: i64, Ghost(mode): Ghost<WorryMode>)
    requires
        monkeys_wf(mviews(old(monkeys)@)),
        forall|k: int|
            0 <= k < old(monkeys)@.len() ==> operation_nonneg(
                (#[trigger] old(monkeys)@[k]).op,
            ),
        round_ok(mviews(old(monkeys)@), mode),
        mode == if div3 {
            WorryMode::DivThree
        } else {
            WorryMode::Modulo(mod_by as int)
        },
        !div3 ==> mod_by > 0,
    ensures
        mviews(final(monkeys)@) == spec_round(mviews(old(monkeys)@), mode),
        final(monkeys)@.len() == old(monkeys)@.len(),
        monkeys_wf(mviews(final(monkeys)@)),
        forall|k: int|
            0 <= k < final(monkeys)@.len() ==> (#[trigger] final(monkeys)@[k]).op == old(
                monkeys,
            )@[k].op && final(monkeys)@[k].test == old(monkeys)@[k].test,
{
    let ghost m0 = mviews(old(monkeys)@);
    let n = monkeys.len();
    let mut i: usize = 0;
    while i < n
        invariant
            i <= n,
            n == old(monkeys)@.len(),
            monkeys@.len() == n,
            m0 == mviews(old(monkeys)@),
            m0.len() == n,
            monkeys_wf(m0),
            forall|k: int|
                0 <= k < n ==> operation_nonneg((#[trigger] old(monkeys)@[k]).op),
            round_ok(m0, mode),
            mode == if div3 {
                WorryMode::DivThree
            } else {
                WorryMode::Modulo(mod_by as int)
            },
            !div3 ==> mod_by > 0,
            mviews(monkeys@) == spec_turns(m0, i as int, mode),
            monkeys_wf(mviews(monkeys@)),
            forall|k: int|
                0 <= k < n ==> (#[trigger] monkeys@[k]).op == old(monkeys)@[k].op
                    && monkeys@[k].test == old(monkeys)@[k].test,
        decreases n - i,
    {
        let ghost turn_start = mviews(monkeys@);
        let ghost snapshot = turn_start[i as int].items;
        proof {
            lemma_turns_ok_prefix(m0, i as int + 1, m0.len() as int, mode);
            assert(turns_ok(m0, i + 1, mode));
            assert(throw_ok(turn_start, i as int, snapshot, mode));
        }
        let len0 = monkeys[i].items.len();
        proof {
            assert(mview(monkeys@[i as int]).items == snapshot);
            assert(snapshot.len() == len0);
        }
        let mut j: usize = 0;
        proof {
            assert(snapshot.take(0) =~= Seq::<int>::empty());
            assert(mviews(monkeys@) == spec_throw(turn_start, i as int, snapshot.take(0), mode));
            assert(snapshot.skip(0) =~= snapshot);
        }
        while j < len0
            invariant
                j <= len0,
                i < n,
                n == monkeys@.len(),
                len0 == snapshot.len(),
                monkeys_wf(turn_start),
                turn_start.len() == n,
                snapshot == turn_start[i as int].items,
                forall|t: int| 0 <= t < snapshot.len() ==> 0 <= #[trigger] snapshot[t],
                mode == if div3 {
                    WorryMode::DivThree
                } else {
                    WorryMode::Modulo(mod_by as int)
                },
                !div3 ==> mod_by > 0,
                forall|k: int|
                    0 <= k < n ==> operation_nonneg((#[trigger] monkeys@[k]).op),
                forall|k: int|
                    0 <= k < n ==> (#[trigger] monkeys@[k]).op == turn_start[k].op
                        && monkeys@[k].test == turn_start[k].test,
                throw_ok(turn_start, i as int, snapshot, mode),
                mviews(monkeys@) == spec_throw(
                    turn_start,
                    i as int,
                    snapshot.take(j as int),
                    mode,
                ),
                monkeys_wf(mviews(monkeys@)),
                monkeys@[i as int].items@.len() >= len0,
                forall|t: int|
                    0 <= t < len0 ==> #[trigger] monkeys@[i as int].items@[t] as int
                        == snapshot[t],
            decreases len0 - j,
        {
            let ghost here = mviews(monkeys@);
            proof {
                lemma_throw_unfold_ok(turn_start, i as int, snapshot, j as int, mode);
                assert(spec_eval(here[i as int].op, snapshot[j as int]) <= i64::MAX);
                assert(here[i as int].inspects + 1 <= i64::MAX);
                assert(here[i as int].op == turn_start[i as int].op);
                assert(mview(monkeys@[i as int]).op == monkeys@[i as int].op);
            }
            let w = monkeys[i].items[j];
            proof {
                assert(w as int == snapshot[j as int]);
                assert(0 <= w);
                lemma_eval_nonneg(monkeys@[i as int].op, w as int);
            }
            let applied = apply_operation(&monkeys[i].op, w);
            let new_worry: i64 = if div3 {
                applied / 3
            } else {
                applied % mod_by
            };
            proof {
                assert(new_worry as int == spec_relieve(mode, spec_eval(
                    here[i as int].op,
                    snapshot[j as int],
                )));
                assert(0 <= new_worry);
            }
            let throw_to = apply_test(&monkeys[i].test, new_worry);
            proof {
                assert(monkeys@[i as int].test == here[i as int].test);
                assert(throw_to == spec_target(here[i as int].test, new_worry as int));
                assert(throw_to < n) by {
                    assert(monkeys_wf(here));
                }
            }
            let ghost before_push = monkeys@;
            let mt = &mut monkeys[throw_to];
            mt.items.push(new_worry);
            proof {
                assert(monkeys@[throw_to as int].items@ == before_push[throw_to as int].items@
                    .push(new_worry));
                assert(forall|k: int|
                    0 <= k < n && k != throw_to ==> #[trigger] monkeys@[k] == before_push[k]);
            }
            let ghost before_count = monkeys@;
            let mi = &mut monkeys[i];
            let ins = mi.inspects;
            mi.inspects = ins + 1;
            proof {
                assert(monkeys@[i as int].inspects == before_count[i as int].inspects + 1);
                assert(forall|k: int|
                    0 <= k < n && k != i ==> #[trigger] monkeys@[k] == before_count[k]);
                let nw = spec_relieve(mode, spec_eval(here[i as int].op, snapshot[j as int]));
                let t = spec_target(here[i as int].test, nw);
                let with_item = here.update(
                    t,
                    SpecMonkey { items: here[t].items.push(nw), ..here[t] },
                );
                let wi = with_item[i as int];
                let with_count = with_item.update(
                    i as int,
                    SpecMonkey { inspects: wi.inspects + 1, ..wi },
                );
                assert(t == throw_to as int);
                assert(mviews(monkeys@) =~~= with_count) by {
                    assert(mviews(monkeys@).len() == with_count.len());
                    assert forall|k: int| 0 <= k < n implies mviews(monkeys@)[k]
                        =~~= with_count.index(k) by {
                        if k == i && i as int == t {
                            assert(mview(monkeys@[k]).items =~= with_count[k].items);
                        } else if k == t {
                            assert(mview(monkeys@[k]).items =~= with_count[k].items);
                        } else if k == i {
                            assert(mview(monkeys@[k]).items =~= with_count[k].items);
                        } else {
                            assert(mview(monkeys@[k]) =~~= with_count[k]);
                        }
                    }
                }
                lemma_throw_snoc(
                    turn_start,
                    i as int,
                    snapshot.take(j as int),
                    snapshot.index(j as int),
                    mode,
                );
                assert(snapshot.take(j as int).push(snapshot[j as int]) =~= snapshot.take(
                    j + 1,
                ));
                assert(mviews(monkeys@) == spec_throw(
                    turn_start,
                    i as int,
                    snapshot.take(j + 1),
                    mode,
                ));
                lemma_throw_wf_from(turn_start, i as int, snapshot.take(j + 1), mode);
            }
            j = j + 1;
        }
        proof {
            assert(snapshot.take(len0 as int) =~= snapshot);
        }
        let ghost before_clear = monkeys@;
        let mi = &mut monkeys[i];
        mi.items = Vec::new();
        proof {
            let thrown = spec_throw(turn_start, i as int, snapshot, mode);
            assert(mviews(before_clear) == thrown);
            assert(mviews(monkeys@) =~~= thrown.update(
                i as int,
                SpecMonkey { items: Seq::empty(), ..thrown[i as int] },
            )) by {
                assert forall|k: int| 0 <= k < n implies mviews(monkeys@)[k] =~~= thrown.update(
                    i as int,
                    SpecMonkey { items: Seq::empty(), ..thrown[i as int] },
                )[k] by {
                    if k == i {
                        assert(mview(monkeys@[k]).items =~= Seq::<int>::empty());
                    } else {
                        assert(monkeys@[k] == before_clear[k]);
                    }
                }
            }
            assert(mviews(monkeys@) == spec_turn(turn_start, i as int, mode));
            assert(mviews(monkeys@) == spec_turns(m0, i + 1, mode));
            assert(monkeys_wf(mviews(monkeys@)));
        }
        i = i + 1;
    }
    proof {
        assert(mviews(monkeys@) == spec_round(m0, mode));
    }
}

/// The machine-range condition of the `j`-th step follows from the
/// whole throw list being in range.
proof fn lemma_throw_unfold_ok(
    state: Seq<SpecMonkey>,
    i: int,
    items: Seq<int>,
    j: int,
    mode: WorryMode,
)
    requires
        0 <= i < state.len(),
        state[i].test.if_true < state.len(),
        state[i].test.if_false < state.len(),
        0 <= j < items.len(),
        throw_ok(state, i, items, mode),
    ensures
        ({
            let mid = spec_throw(state, i, items.take(j), mode);
            &&& spec_eval(mid[i].op, items[j]) <= i64::MAX || mid[i].op != mid[i].op
            &&& spec_eval(mid[i].op, items[j]) <= i64::MAX
            &&& mid[i].inspects + 1 <= i64::MAX
        }),
    decreases j,
{
    if j == 0 {
        assert(items.take(0) =~= Seq::<int>::empty());
        assert(spec_throw(state, i, items.take(0), mode) == state);
        assert(throw_ok(state, i, items, mode));
        assert(spec_eval(state[i].op, items[0]) <= i64::MAX);
        assert(state[i].inspects + 1 <= i64::MAX);
    } else {
        let nw = spec_relieve(mode, spec_eval(state[i].op, items[0]));
        let t = spec_target(state[i].test, nw);
        let with_item = state.update(
            t,
            SpecMonkey { items: state[t].items.push(nw), ..state[t] },
        );
        let with_count = with_item.update(
            i,
            SpecMonkey { inspects: with_item[i].inspects + 1, ..with_item[i] },
        );
        assert(with_count.len() == state.len());
        assert(with_count[i].test == state[i].test);
        lemma_throw_unfold_ok(with_count, i, items.drop_first(), j - 1, mode);
        assert(items.drop_first()[j - 1] == items[j]);
        assert(items.drop_first().take(j - 1) =~= items.take(j).drop_first());
        assert(items.take(j)[0] == items[0]);
        assert(spec_throw(state, i, items.take(j), mode) == spec_throw(
            with_count,
            i,
            items.take(j).drop_first(),
            mode,
        ));
    }
}

/// Well-formedness after any prefix of throws.
proof fn lemma_throw_wf_from(state: Seq<SpecMonkey>, i: int, items: Seq<int>, mode: WorryMode)
    requires
        monkeys_wf(state),
        0 <= i < state.len(),
        forall|j: int| 0 <= j < items.len() ==> 0 <= #[trigger] items[j],
        match mode {
            WorryMode::DivThree => true,
            WorryMode::Modulo(m) => m > 0,
        },
        operation_nonneg(state[i].op),
    ensures
        monkeys_wf(spec_throw(state, i, items, mode)),
        spec_throw(state, i, items, mode).len() == state.len(),
{
    lemma_throw_wf(state, i, items, mode);
}

/// One round of turns, worry divided by three after each inspection.
pub fn play_round(monkeys: &mut Vec<Monkey>)
    requires
        monkeys_wf(mviews(old(monkeys)@)),
        forall|k: int|
            0 <= k < old(monkeys)@.len() ==> operation_nonneg(
                (#[trigger] old(monkeys)@[k]).op,
            ),
        round_ok(mviews(old(monkeys)@), WorryMode::DivThree),
    ensures
        mviews(final(monkeys)@) == spec_round(mviews(old(monkeys)@), WorryMode::DivThree),
        final(monkeys)@.len() == old(monkeys)@.len(),
        monkeys_wf(mviews(final(monkeys)@)),
        forall|k: int|
            0 <= k < final(monkeys)@.len() ==> (#[trigger] final(monkeys)@[k]).op == old(
                monkeys,
            )@[k].op && final(monkeys)@[k].test == old(monkeys)@[k].test,
{
    run_round(monkeys, true, 0, Ghost(WorryMode::DivThree));
}

/// One round of turns, worry reduced by the shared modulus.
pub fn play_round2(monkeys: &mut Vec<Monkey>, mod_by: i64)
    requires
        monkeys_wf(mviews(old(monkeys)@)),
        forall|k: int|
            0 <= k < old(monkeys)@.len() ==> operation_nonneg(
                (#[trigger] old(monkeys)@[k]).op,
            ),
        round_ok(mviews(old(monkeys)@), WorryMode::Modulo(mod_by as int)),
        mod_by > 0,
    ensures
        mviews(final(monkeys)@) == spec_round(
            mviews(old(monkeys)@),
            WorryMode::Modulo(mod_by as int),
        ),
        final(monkeys)@.len() == old(monkeys)@.len(),
        monkeys_wf(mviews(final(monkeys)@)),
        forall|k: int|
            0 <= k < final(monkeys)@.len() ==> (#[trigger] final(monkeys)@[k]).op == old(
                monkeys,
            )@[k].op && final(monkeys)@[k].test == old(monkeys)@[k].test,
{
    run_round(monkeys, false, mod_by, Ghost(WorryMode::Modulo(mod_by as int)));
}


/// The inspection counts after `n` rounds.
pub open spec fn spec_inspects(state: Seq<SpecMonkey>) -> Seq<int> {
    state.map_values(|m: SpecMonkey| m.inspects)
}

/// Inspection counts as the machine integers they fit in.
pub open spec fn spec_inspects_i64(state: Seq<SpecMonkey>) -> Seq<i64> {
    state.map_values(|m: SpecMonkey| m.inspects as i64)
}

pub open spec fn all_ops_nonneg(ms: Seq<Monkey>) -> bool {
    forall|k: int| 0 <= k < ms.len() ==> operation_nonneg((#[trigger] ms[k]).op)
}

/// Run `rounds` rounds, then report the product of the two largest
/// inspection counts.
fn run_solve(monkeys: &mut Vec<Monkey>, rounds: usize, div3: bool, mod_by: i64, Ghost(mode): Ghost<
    WorryMode,
>) -> (r: i64)
    requires
        monkeys_wf(mviews(old(monkeys)@)),
        all_ops_nonneg(old(monkeys)@),
        old(monkeys)@.len() >= 2,
        rounds_ok(mviews(old(monkeys)@), mode, rounds as nat),
        mode == if div3 {
            WorryMode::DivThree
        } else {
            WorryMode::Modulo(mod_by as int)
        },
        !div3 ==> mod_by > 0,
        ({
            let fin = spec_rounds(mviews(old(monkeys)@), mode, rounds as nat);
            let ss = spec_inspects_i64(fin).sort_by(i64_leq());
            let l = ss.len() as int;
            i64::MIN <= ss[l - 1] * ss[l - 2] <= i64::MAX
        }),
    ensures
        ({
            let fin = spec_rounds(mviews(old(monkeys)@), mode, rounds as nat);
            let ss = spec_inspects_i64(fin).sort_by(i64_leq());
            let l = ss.len() as int;
            r == ss[l - 1] * ss[l - 2]
        }),
{
    let ghost m0 = mviews(old(monkeys)@);
    let mut round: usize = 0;
    while round < rounds
        invariant
            round <= rounds,
            m0 == mviews(old(monkeys)@),
            monkeys_wf(mviews(monkeys@)),
            monkeys@.len() == old(monkeys)@.len(),
            all_ops_nonneg(monkeys@),
            rounds_ok(m0, mode, rounds as nat),
            mode == if div3 {
                WorryMode::DivThree
            } else {
                WorryMode::Modulo(mod_by as int)
            },
            !div3 ==> mod_by > 0,
            mviews(monkeys@) == spec_rounds(m0, mode, round as nat),
        decreases rounds - round,
    {
        proof {
            lemma_rounds_ok_at(m0, mode, round as nat, rounds as nat);
            assert(round_ok(mviews(monkeys@), mode));
            assert(all_ops_nonneg(monkeys@));
            assert forall|k: int| 0 <= k < monkeys@.len() implies operation_nonneg(
                (#[trigger] monkeys@[k]).op,
            ) by {}
        }
        run_round(monkeys, div3, mod_by, Ghost(mode));
        round = round + 1;
        proof {
            assert(mviews(monkeys@) == spec_rounds(m0, mode, round as nat));
        }
    }
    let ghost fin = spec_rounds(m0, mode, rounds as nat);
    let mut inspects: Vec<i64> = Vec::new();
    let mut k: usize = 0;
    while k < monkeys.len()
        invariant
            k <= monkeys@.len(),
            fin == mviews(monkeys@),
            fin.len() == monkeys@.len(),
            inspects@ =~= spec_inspects_i64(fin).subrange(0, k as int),
        decreases monkeys@.len() - k,
    {
        proof {
            assert(mview(monkeys@[k as int]).inspects == monkeys@[k as int].inspects as int);
            assert(spec_inspects_i64(fin)[k as int] == fin[k as int].inspects as i64);
        }
        let ins = monkeys[k].inspects;
        inspects.push(ins);
        proof {
            assert(inspects@ =~= spec_inspects_i64(fin).subrange(0, k + 1));
        }
        k = k + 1;
    }
    proof {
        assert(inspects@ =~= spec_inspects_i64(fin));
    }
    sort_i64(&mut inspects);
    proof {
        let leq = i64_leq();
        assert(vstd::relations::total_ordering(leq)) by {
            assert forall|x: i64| #[trigger] leq(x, x) by {}
            assert forall|x: i64, y: i64| #[trigger] leq(x, y) && #[trigger] leq(y, x)
                implies x == y by {}
            assert forall|x: i64, y: i64, z: i64|
                #[trigger] leq(x, y) && #[trigger] leq(y, z) implies leq(x, z) by {}
            assert forall|x: i64, y: i64| #[trigger] leq(x, y) || #[trigger] leq(y, x) by {}
        }
        spec_inspects_i64(fin).lemma_sort_by_ensures(leq);
        vstd::seq_lib::lemma_sorted_unique(
            inspects@,
            spec_inspects_i64(fin).sort_by(leq),
            leq,
        );
    }
    let l = inspects.len();
    inspects[l - 1] * inspects[l - 2]
}

proof fn lemma_rounds_ok_at(state: Seq<SpecMonkey>, mode: WorryMode, k: nat, n: nat)
    requires
        k < n,
        rounds_ok(state, mode, n),
    ensures
        round_ok(spec_rounds(state, mode, k), mode),
    decreases n,
{
    if k == n - 1 {
    } else {
        lemma_rounds_ok_at(state, mode, k, (n - 1) as nat);
    }
}

/// Twenty worry-relieved rounds; the two busiest monkeys' product.
pub fn solve1(monkeys: Vec<Monkey>) -> (r: i64)
    requires
        monkeys_wf(mviews(monkeys@)),
        all_ops_nonneg(monkeys@),
        monkeys@.len() >= 2,
        rounds_ok(mviews(monkeys@), WorryMode::DivThree, 20),
        ({
            let fin = spec_rounds(mviews(monkeys@), WorryMode::DivThree, 20);
            let ss = spec_inspects_i64(fin).sort_by(i64_leq());
            let l = ss.len() as int;
            i64::MIN <= ss[l - 1] * ss[l - 2] <= i64::MAX
        }),
    ensures
        ({
            let fin = spec_rounds(mviews(monkeys@), WorryMode::DivThree, 20);
            let ss = spec_inspects_i64(fin).sort_by(i64_leq());
            let l = ss.len() as int;
            r == ss[l - 1] * ss[l - 2]
        }),
{
    let mut ms = monkeys;
    run_solve(&mut ms, 20, true, 0, Ghost(WorryMode::DivThree))
}

/// Ten thousand modulus-reduced rounds; the two busiest monkeys'
/// product.
pub fn solve2(monkeys: Vec<Monkey>, mod_by: i64) -> (r: i64)
    requires
        monkeys_wf(mviews(monkeys@)),
        all_ops_nonneg(monkeys@),
        monkeys@.len() >= 2,
        mod_by > 0,
        rounds_ok(mviews(monkeys@), WorryMode::Modulo(mod_by as int), 10000),
        ({
            let fin = spec_rounds(mviews(monkeys@), WorryMode::Modulo(mod_by as int), 10000);
            let ss = spec_inspects_i64(fin).sort_by(i64_leq());
            let l = ss.len() as int;
            i64::MIN <= ss[l - 1] * ss[l - 2] <= i64::MAX
        }),
    ensures
        ({
            let fin = spec_rounds(mviews(monkeys@), WorryMode::Modulo(mod_by as int), 10000);
            let ss = spec_inspects_i64(fin).sort_by(i64_leq());
            let l = ss.len() as int;
            r == ss[l - 1] * ss[l - 2]
        }),
{
    let mut ms = monkeys;
    run_solve(&mut ms, 10000, false, mod_by, Ghost(WorryMode::Modulo(mod_by as int)))
}


// ---- parsing ----

pub open spec fn old_word() -> Seq<char> {
    seq!['o', 'l', 'd']
}

pub open spec fn operand_ok(p: Seq<char>) -> bool {
    p == old_word() || is_i64_numeral(p)
}

pub open spec fn spec_operand_of(p: Seq<char>) -> Operand {
    if p == old_word() {
        Operand::Old
    } else {
        Operand::Const(int_value(p) as i64)
    }
}

pub open spec fn numop_ok(p: Seq<char>) -> bool {
    p == seq!['+'] || p == seq!['*']
}

pub open spec fn spec_numop_of(p: Seq<char>) -> NumOp {
    if p == seq!['+'] {
        NumOp::Add
    } else {
        NumOp::Mul
    }
}

/// Parse a `+` or `*`.
pub fn parse_numop(s: &str) -> (r: NumOp)
    requires
        numop_ok(s@),
    ensures
        r == spec_numop_of(s@),
{
    let cs = chars_of(s);
    numop_of(&cs)
}

fn numop_of(p: &Vec<char>) -> (r: NumOp)
    requires
        numop_ok(p@),
    ensures
        r == spec_numop_of(p@),
{
    if p.len() == 1 && p[0] == '+' {
        proof {
            assert(p@ =~= seq!['+']);
        }
        NumOp::Add
    } else {
        proof {
            if p@ == seq!['+'] {
                assert(p@.len() == 1 && p@[0] == '+');
            }
        }
        NumOp::Mul
    }
}

/// Parse an operand: the old value, or a constant.
pub fn parse_num(s: &str) -> (r: Operand)
    requires
        operand_ok(s@),
    ensures
        r == spec_operand_of(s@),
{
    let cs = chars_of(s);
    operand_of(&cs)
}

fn operand_of(p: &Vec<char>) -> (r: Operand)
    requires
        operand_ok(p@),
    ensures
        r == spec_operand_of(p@),
{
    if p.len() == 3 && p[0] == 'o' && p[1] == 'l' && p[2] == 'd' {
        proof {
            assert(p@ =~= old_word());
        }
        Operand::Old
    } else {
        proof {
            if p@ == old_word() {
                assert(p@.len() == 3 && p@[0] == 'o' && p@[1] == 'l' && p@[2] == 'd');
            }
        }
        Operand::Const(parse_i64(p).unwrap())
    }
}

/// Whether an operation line is well formed past its fixed prefix.
pub open spec fn operation_line_ok(l: Seq<char>) -> bool {
    let ps = spec_split(l.skip(19), seq![' ']);
    &&& l.len() >= 19
    &&& ps.len() >= 3
    &&& operand_ok(ps[0])
    &&& numop_ok(ps[1])
    &&& operand_ok(ps[2])
}

pub open spec fn spec_operation_of(l: Seq<char>) -> Operation {
    let ps = spec_split(l.skip(19), seq![' ']);
    Operation {
        left: spec_operand_of(ps[0]),
        op: spec_numop_of(ps[1]),
        right: spec_operand_of(ps[2]),
    }
}

fn skip_chars(l: &Vec<char>, from: usize) -> (r: Vec<char>)
    requires
        from <= l@.len(),
    ensures
        r@ == l@.skip(from as int),
{
    let mut r: Vec<char> = Vec::new();
    let mut i: usize = from;
    while i < l.len()
        invariant
            from <= i <= l@.len(),
            r@ == l@.subrange(from as int, i as int),
        decreases l@.len() - i,
    {
        let c = l[i];
        r.push(c);
        proof {
            assert(l@.subrange(from as int, i + 1) =~= l@.subrange(from as int, i as int).push(
                l@[i as int],
            ));
        }
        i = i + 1;
    }
    proof {
        assert(l@.subrange(from as int, l@.len() as int) =~= l@.skip(from as int));
    }
    r
}

/// Parse an `  Operation: new = a op b` line.
pub fn parse_operation(s: &str) -> (r: Operation)
    requires
        operation_line_ok(s@),
    ensures
        r == spec_operation_of(s@),
{
    let cs = chars_of(s);
    operation_of(&cs)
}

fn operation_of(l: &Vec<char>) -> (r: Operation)
    requires
        operation_line_ok(l@),
    ensures
        r == spec_operation_of(l@),
{
    let rest = skip_chars(l, 19);
    let sep: Vec<char> = vec![' '];
    proof {
        assert(sep@ =~= seq![' ']);
    }
    let parts = split_at_seq(&rest, &sep);
    proof {
        assert(views(parts@).len() == parts@.len());
        assert(parts@[0]@ == spec_split(l@.skip(19), seq![' '])[0]);
        assert(parts@[1]@ == spec_split(l@.skip(19), seq![' '])[1]);
        assert(parts@[2]@ == spec_split(l@.skip(19), seq![' '])[2]);
    }
    let left = operand_of(&parts[0]);
    let op = numop_of(&parts[1]);
    let right = operand_of(&parts[2]);
    Operation { left, op, right }
}

pub open spec fn last_piece(l: Seq<char>) -> Seq<char> {
    let ps = spec_split(l, seq![' ']);
    ps[ps.len() - 1]
}

/// Whether the three test lines are well formed.
pub open spec fn test_lines_ok(l0: Seq<char>, l1: Seq<char>, l2: Seq<char>) -> bool {
    &&& is_i64_numeral(last_piece(l0))
    &&& is_i64_numeral(last_piece(l1)) && 0 <= int_value(last_piece(l1)) <= usize::MAX
    &&& is_i64_numeral(last_piece(l2)) && 0 <= int_value(last_piece(l2)) <= usize::MAX
}

pub open spec fn spec_test_of(l0: Seq<char>, l1: Seq<char>, l2: Seq<char>) -> MonkeyTest {
    MonkeyTest {
        div_by: int_value(last_piece(l0)) as i64,
        if_true: int_value(last_piece(l1)) as usize,
        if_false: int_value(last_piece(l2)) as usize,
    }
}

fn last_piece_of(l: &Vec<char>) -> (r: Vec<char>)
    ensures
        r@ == last_piece(l@),
{
    let sep: Vec<char> = vec![' '];
    proof {
        assert(sep@ =~= seq![' ']);
    }
    let parts = split_at_seq(l, &sep);
    proof {
        crate::text::lemma_split_nonempty(l@, seq![' ']);
        assert(views(parts@).len() == parts@.len());
        assert(parts@[parts@.len() - 1]@ == spec_split(l@, seq![' '])[spec_split(
            l@,
            seq![' '],
        ).len() - 1]);
    }
    let last = &parts[parts.len() - 1];
    skip_chars(last, 0)
}

/// Parse the three test lines into the throwing rule.
pub fn parse_test(s: &[&str]) -> (r: MonkeyTest)
    requires
        s@.len() >= 3,
        test_lines_ok(s@[0]@, s@[1]@, s@[2]@),
    ensures
        r == spec_test_of(s@[0]@, s@[1]@, s@[2]@),
{
    let l0 = chars_of(s[0]);
    let l1 = chars_of(s[1]);
    let l2 = chars_of(s[2]);
    test_of(&l0, &l1, &l2)
}

fn test_of(l0: &Vec<char>, l1: &Vec<char>, l2: &Vec<char>) -> (r: MonkeyTest)
    requires
        test_lines_ok(l0@, l1@, l2@),
    ensures
        r == spec_test_of(l0@, l1@, l2@),
{
    let d = last_piece_of(l0);
    let t = last_piece_of(l1);
    let f = last_piece_of(l2);
    let div_by = parse_i64(&d).unwrap();
    let if_true = parse_i64(&t).unwrap() as usize;
    let if_false = parse_i64(&f).unwrap() as usize;
    MonkeyTest { div_by, if_true, if_false }
}

pub open spec fn comma_space() -> Seq<char> {
    seq![',', ' ']
}

/// Whether the items line is well formed past its fixed prefix.
pub open spec fn items_line_ok(l: Seq<char>) -> bool {
    let ps = spec_split(l.skip(18), comma_space());
    &&& l.len() >= 18
    &&& forall|i: int| 0 <= i < ps.len() ==> is_i64_numeral(#[trigger] ps[i])
}

pub open spec fn spec_items_of(l: Seq<char>) -> Seq<i64> {
    spec_split(l.skip(18), comma_space()).map_values(|p: Seq<char>| int_value(p) as i64)
}

fn items_of(l: &Vec<char>) -> (r: Vec<i64>)
    requires
        items_line_ok(l@),
    ensures
        r@ == spec_items_of(l@),
{
    let rest = skip_chars(l, 18);
    let sep: Vec<char> = vec![',', ' '];
    proof {
        assert(sep@ =~= comma_space());
    }
    let parts = split_at_seq(&rest, &sep);
    let ghost ps = spec_split(l@.skip(18), comma_space());
    proof {
        assert(views(parts@) == ps);
        assert(views(parts@).len() == parts@.len());
    }
    let mut r: Vec<i64> = Vec::new();
    let mut i: usize = 0;
    while i < parts.len()
        invariant
            i <= parts@.len(),
            views(parts@) == ps,
            views(parts@).len() == parts@.len(),
            forall|k: int| 0 <= k < ps.len() ==> is_i64_numeral(#[trigger] ps[k]),
            r@.len() == i,
            forall|k: int| 0 <= k < i ==> #[trigger] r@[k] as int == int_value(ps[k]),
        decreases parts@.len() - i,
    {
        proof {
            assert(parts@[i as int]@ == ps[i as int]);
        }
        let v = parse_i64(&parts[i]).unwrap();
        r.push(v);
        i = i + 1;
    }
    proof {
        assert(r@ =~= spec_items_of(l@));
    }
    r
}

/// Whether a whole monkey block is well formed.
pub open spec fn monkey_ok(b: Seq<char>) -> bool {
    let ls = spec_lines(b);
    &&& ls.len() >= 6
    &&& items_line_ok(ls[1])
    &&& operation_line_ok(ls[2])
    &&& test_lines_ok(ls[3], ls[4], ls[5])
}

pub open spec fn spec_monkey_items(b: Seq<char>) -> Seq<i64> {
    spec_items_of(spec_lines(b)[1])
}

pub open spec fn spec_monkey_op(b: Seq<char>) -> Operation {
    spec_operation_of(spec_lines(b)[2])
}

pub open spec fn spec_monkey_test(b: Seq<char>) -> MonkeyTest {
    spec_test_of(spec_lines(b)[3], spec_lines(b)[4], spec_lines(b)[5])
}

/// Parse one monkey block.
pub fn parse_monkey(s: &str) -> (r: Monkey)
    requires
        monkey_ok(s@),
    ensures
        r.items@ == spec_monkey_items(s@),
        r.op == spec_monkey_op(s@),
        r.test == spec_monkey_test(s@),
        r.inspects == 0,
{
    let cs = chars_of(s);
    monkey_of(&cs)
}

fn monkey_of(b: &Vec<char>) -> (r: Monkey)
    requires
        monkey_ok(b@),
    ensures
        r.items@ == spec_monkey_items(b@),
        r.op == spec_monkey_op(b@),
        r.test == spec_monkey_test(b@),
        r.inspects == 0,
{
    let lines = split_lines(b);
    proof {
        assert(views(lines@) == spec_lines(b@));
        assert(views(lines@).len() == lines@.len());
        assert(lines@[1]@ == spec_lines(b@)[1]);
        assert(lines@[2]@ == spec_lines(b@)[2]);
        assert(lines@[3]@ == spec_lines(b@)[3]);
        assert(lines@[4]@ == spec_lines(b@)[4]);
        assert(lines@[5]@ == spec_lines(b@)[5]);
    }
    let items = items_of(&lines[1]);
    let op = operation_of(&lines[2]);
    let test = test_of(&lines[3], &lines[4], &lines[5]);
    Monkey { items, op, test, inspects: 0 }
}

pub open spec fn blank_sep() -> Seq<char> {
    seq!['\n', '\n']
}

pub open spec fn monkeys_text_ok(s: Seq<char>) -> bool {
    forall|i: int|
        0 <= i < spec_split(s, blank_sep()).len() ==> monkey_ok(
            #[trigger] spec_split(s, blank_sep())[i],
        )
}

/// Parse the whole monkey list.
pub fn parse(s: &str) -> (r: Vec<Monkey>)
    requires
        monkeys_text_ok(s@),
    ensures
        r@.len() == spec_split(s@, blank_sep()).len(),
        forall|i: int|
            0 <= i < r@.len() ==> {
                let b = spec_split(s@, blank_sep())[i];
                &&& (#[trigger] r@[i]).items@ == spec_monkey_items(b)
                &&& r@[i].op == spec_monkey_op(b)
                &&& r@[i].test == spec_monkey_test(b)
                &&& r@[i].inspects == 0
            },
{
    let cs = chars_of(s);
    let sep: Vec<char> = vec!['\n', '\n'];
    proof {
        assert(sep@ =~= blank_sep());
    }
    let blocks = split_at_seq(&cs, &sep);
    let ghost bs = spec_split(s@, blank_sep());
    proof {
        assert(views(blocks@) == bs);
        assert(views(blocks@).len() == blocks@.len());
    }
    let mut out: Vec<Monkey> = Vec::new();
    let mut i: usize = 0;
    while i < blocks.len()
        invariant
            i <= blocks@.len(),
            views(blocks@) == bs,
            views(blocks@).len() == blocks@.len(),
            forall|k: int| 0 <= k < bs.len() ==> monkey_ok(#[trigger] bs[k]),
            out@.len() == i,
            forall|k: int|
                0 <= k < i ==> {
                    let b = bs[k];
                    &&& (#[trigger] out@[k]).items@ == spec_monkey_items(b)
                    &&& out@[k].op == spec_monkey_op(b)
                    &&& out@[k].test == spec_monkey_test(b)
                    &&& out@[k].inspects == 0
                },
        decreases blocks@.len() - i,
    {
        proof {
            assert(blocks@[i as int]@ == bs[i as int]);
        }
        let m = monkey_of(&blocks[i]);
        out.push(m);
        i = i + 1;
    }
    out
}

/// Whether every block's divisor line parses, with products in range.
pub open spec fn divisor_of(b: Seq<char>) -> int {
    int_value(spec_lines(b)[3].skip(21))
}

pub open spec fn divisors_ok(s: Seq<char>) -> bool {
    let bs = spec_split(s, blank_sep());
    forall|i: int|
        0 <= i < bs.len() ==> {
            let l = spec_lines(#[trigger] bs[i])[3];
            &&& spec_lines(bs[i]).len() >= 4
            &&& l.len() >= 21
            &&& is_i64_numeral(l.skip(21))
        }
}

pub open spec fn spec_mod_product(s: Seq<char>, k: int) -> int
    decreases k,
{
    if k <= 0 {
        1
    } else {
        spec_mod_product(s, k - 1) * divisor_of(spec_split(s, blank_sep())[k - 1])
    }
}

/// The product of every monkey's test divisor.
pub fn get_mod(s: &str) -> (r: i64)
    requires
        divisors_ok(s@),
        forall|k: int|
            0 <= k <= spec_split(s@, blank_sep()).len() ==> i64::MIN
                <= #[trigger] spec_mod_product(s@, k) <= i64::MAX,
    ensures
        r == spec_mod_product(s@, spec_split(s@, blank_sep()).len() as int),
{
    let cs = chars_of(s);
    let sep: Vec<char> = vec!['\n', '\n'];
    proof {
        assert(sep@ =~= blank_sep());
    }
    let blocks = split_at_seq(&cs, &sep);
    let ghost bs = spec_split(s@, blank_sep());
    proof {
        assert(views(blocks@) == bs);
        assert(views(blocks@).len() == blocks@.len());
    }
    let mut ret: i64 = 1;
    let mut i: usize = 0;
    while i < blocks.len()
        invariant
            i <= blocks@.len(),
            views(blocks@) == bs,
            views(blocks@).len() == blocks@.len(),
            bs == spec_split(s@, blank_sep()),
            divisors_ok(cs@),
            cs@ == s@,
            forall|k: int|
                0 <= k <= bs.len() ==> i64::MIN <= #[trigger] spec_mod_product(s@, k)
                    <= i64::MAX,
            ret == spec_mod_product(s@, i as int),
        decreases blocks@.len() - i,
    {
        proof {
            assert(blocks@[i as int]@ == bs[i as int]);
        }
        let block_lines = split_lines(&blocks[i]);
        proof {
            assert(spec_split(s@, blank_sep())[i as int] == bs[i as int]);
            assert(spec_lines(spec_split(s@, blank_sep())[i as int]).len() >= 4 && spec_lines(
                spec_split(s@, blank_sep())[i as int],
            )[3].len() >= 21 && is_i64_numeral(spec_lines(
                spec_split(s@, blank_sep())[i as int],
            )[3].skip(21)));
            assert(views(block_lines@) == spec_lines(bs[i as int]));
            assert(views(block_lines@).len() == block_lines@.len());
            assert(block_lines@[3]@ == spec_lines(bs[i as int])[3]);
        }
        let dl = skip_chars(&block_lines[3], 21);
        let div = parse_i64(&dl).unwrap();
        proof {
            assert(div as int == divisor_of(bs[i as int]));
            assert(divisor_of(spec_split(s@, blank_sep())[i as int]) == div);
            assert(spec_mod_product(s@, i + 1) == spec_mod_product(s@, i as int) * div);
        }
        ret = ret * div;
        i = i + 1;
    }
    ret
}

} // verus!
