//! Evaluation of a tape on intervals, with a record of the choices.
//!
//! An interval is a pair of binary32 bit patterns, its lower and its upper
//! bound.  At every minimum and maximum the evaluation marks in the byte of
//! that choice which operands can give the value anywhere in the region;
//! marks add up over evaluations until the caller clears the bytes.

use crate::choice::{choice_of, joined, mark, with_choice, Choice};
use crate::error::Error;
use crate::op::{
    reg_op_ok, regs_ok, spec_arity, spec_is_choice, spec_is_transfer, OpCode, RegOp, SsaOp,
};
use crate::point::{lacks_var, misses_var, shape, variable};
use crate::term::{slot_events, slot_term, term_run, term_step, Event, Run, Term};
use crate::root::{sqrt, square_root};
use crate::scalar::{
    abs, difference, ieee_add, ieee_div, ieee_mul, ieee_sub, le, less, less_eq, lt, max, maximum, min, minimum, neg, negated, product, quotient, sum, NAN, ONE, ZERO,
};
use crate::tape::{reg_choices_ok, Tape};
use vstd::prelude::*;

verus! {

/// A closed interval, by the bits of its bounds.
#[derive(Copy, Clone, PartialEq, Eq, Structural, Debug)]
pub struct Interval {
    pub lower: u32,
    pub upper: u32,
}

/// The state of an interval evaluation.
pub struct IntervalState {
    pub slots: Seq<Interval>,
    pub choices: Seq<u8>,
    pub simplify: bool,
}

/// What a choice gives on two intervals: its value and which operands can
/// contribute.
pub struct Chosen {
    pub value: Interval,
    pub choice: Choice,
}

/// The interval that holds one number.
pub open spec fn single(v: u32) -> Interval {
    Interval { lower: v, upper: v }
}

/// The interval whose bounds are both NaN.
pub open spec fn undefined() -> Interval {
    Interval { lower: NAN, upper: NAN }
}

/// Whether the lower bound is above the upper bound.
pub open spec fn is_empty(a: Interval) -> bool {
    less(a.upper, a.lower)
}

/// `[-upper, -lower]`.
pub open spec fn i_neg(a: Interval) -> Interval {
    Interval { lower: negated(a.upper), upper: negated(a.lower) }
}

/// The interval itself if it is not below zero anywhere, its negation if it
/// is not above zero anywhere, else zero up to the larger of its bounds'
/// magnitudes.
pub open spec fn i_abs(a: Interval) -> Interval {
    if less(a.lower, ZERO) {
        if less(ZERO, a.upper) {
            Interval { lower: ZERO, upper: maximum(a.upper, negated(a.lower)) }
        } else {
            Interval { lower: negated(a.upper), upper: negated(a.lower) }
        }
    } else {
        a
    }
}

/// The roots of the bounds; a lower bound below zero is taken as zero, and an
/// interval that is below zero everywhere has no root.
pub open spec fn i_sqrt(a: Interval) -> Interval {
    if less(a.upper, ZERO) {
        undefined()
    } else if less_eq(a.lower, ZERO) {
        Interval { lower: ZERO, upper: square_root(a.upper) }
    } else {
        Interval { lower: square_root(a.lower), upper: square_root(a.upper) }
    }
}

/// The root of an interval that is not below zero everywhere, and whose
/// lower bound is a number, has no bound that is NaN.  Where the interval
/// reaches to zero or below, its root is zero up to the root of its upper
/// bound.
pub proof fn root_is_defined(a: Interval)
    ensures
        !crate::scalar::is_nan(a.lower) && less_eq(ZERO, a.upper) ==> !crate::scalar::is_nan(
            i_sqrt(a).lower,
        ) && !crate::scalar::is_nan(i_sqrt(a).upper),
        less_eq(a.lower, ZERO) && less_eq(ZERO, a.upper) ==> i_sqrt(a) == (Interval {
            lower: ZERO,
            upper: square_root(a.upper),
        }),
{
    if !crate::scalar::is_nan(a.lower) && less_eq(ZERO, a.upper) {
        crate::root::root_is_a_number(a.upper);
        if !less_eq(a.lower, ZERO) {
            crate::root::root_is_a_number(a.lower);
        }
    }
}

/// The reciprocals of the bounds, exchanged; undefined for an interval that
/// is not above zero everywhere or below zero everywhere.
pub open spec fn i_recip(a: Interval) -> Interval {
    if less(ZERO, a.lower) || less(a.upper, ZERO) {
        Interval { lower: ieee_div(ONE, a.upper), upper: ieee_div(ONE, a.lower) }
    } else {
        undefined()
    }
}

/// The squares of the bounds, exchanged for an interval that is not above
/// zero anywhere; for one that holds zero inside, zero up to the larger
/// square.
pub open spec fn i_square(a: Interval) -> Interval {
    let lo = ieee_mul(a.lower, a.lower);
    let hi = ieee_mul(a.upper, a.upper);
    if less_eq(a.upper, ZERO) {
        Interval { lower: hi, upper: lo }
    } else if less_eq(a.lower, ZERO) {
        Interval { lower: ZERO, upper: maximum(lo, hi) }
    } else {
        Interval { lower: lo, upper: hi }
    }
}

/// `[a.lower + b.lower, a.upper + b.upper]`.
pub open spec fn i_add(a: Interval, b: Interval) -> Interval {
    Interval { lower: ieee_add(a.lower, b.lower), upper: ieee_add(a.upper, b.upper) }
}

/// `[a.lower - b.upper, a.upper - b.lower]`.
pub open spec fn i_sub(a: Interval, b: Interval) -> Interval {
    Interval { lower: ieee_sub(a.lower, b.upper), upper: ieee_sub(a.upper, b.lower) }
}

/// The smallest and the largest of four numbers.
pub open spec fn hull(p: u32, q: u32, r: u32, s: u32) -> Interval {
    Interval {
        lower: minimum(minimum(p, q), minimum(r, s)),
        upper: maximum(maximum(p, q), maximum(r, s)),
    }
}

/// The smallest and the largest of the four products of the bounds.
pub open spec fn i_mul(a: Interval, b: Interval) -> Interval {
    hull(
        ieee_mul(a.lower, b.lower),
        ieee_mul(a.lower, b.upper),
        ieee_mul(a.upper, b.lower),
        ieee_mul(a.upper, b.upper),
    )
}

/// The smallest and the largest of the four quotients of the bounds;
/// undefined for a divisor that is not above zero everywhere or below zero
/// everywhere.
pub open spec fn i_div(a: Interval, b: Interval) -> Interval {
    if less(ZERO, b.lower) || less(b.upper, ZERO) {
        hull(
            ieee_div(a.lower, b.lower),
            ieee_div(a.lower, b.upper),
            ieee_div(a.upper, b.lower),
            ieee_div(a.upper, b.upper),
        )
    } else {
        undefined()
    }
}

/// The minimum of two intervals.  The left operand alone gives it if it is
/// below the right one everywhere, the right one alone if that is below the
/// left one everywhere; else, and where a bound is NaN, both can.
pub open spec fn i_min(a: Interval, b: Interval) -> Chosen {
    if less(a.upper, b.lower) {
        Chosen { value: a, choice: Choice::Left }
    } else if less(b.upper, a.lower) {
        Chosen { value: b, choice: Choice::Right }
    } else {
        Chosen {
            value: Interval {
                lower: minimum(a.lower, b.lower),
                upper: minimum(a.upper, b.upper),
            },
            choice: Choice::Both,
        }
    }
}

/// The maximum of two intervals, as `i_min` gives their minimum.
pub open spec fn i_max(a: Interval, b: Interval) -> Chosen {
    if less(b.upper, a.lower) {
        Chosen { value: a, choice: Choice::Left }
    } else if less(a.upper, b.lower) {
        Chosen { value: b, choice: Choice::Right }
    } else {
        Chosen {
            value: Interval {
                lower: maximum(a.lower, b.lower),
                upper: maximum(a.upper, b.upper),
            },
            choice: Choice::Both,
        }
    }
}

/// The value of an operation that is neither a choice nor a transfer, on the
/// operand values `a` and `b`.
pub open spec fn plain_interval(
    op: RegOp,
    a: Interval,
    b: Interval,
    x: Interval,
    y: Interval,
    z: Interval,
    vars: Seq<u32>,
) -> Interval {
    match op.code {
        OpCode::Input => if op.imm == 0 {
            x
        } else if op.imm == 1 {
            y
        } else {
            z
        },
        OpCode::Var => single(variable(vars, op.imm)),
        OpCode::CopyImm => single(op.imm),
        OpCode::CopyReg => a,
        OpCode::NegReg => i_neg(a),
        OpCode::AbsReg => i_abs(a),
        OpCode::RecipReg => i_recip(a),
        OpCode::SqrtReg => i_sqrt(a),
        OpCode::SquareReg => i_square(a),
        OpCode::AddRegReg => i_add(a, b),
        OpCode::SubRegReg => i_sub(a, b),
        OpCode::MulRegReg => i_mul(a, b),
        OpCode::DivRegReg => i_div(a, b),
        OpCode::AddRegImm => i_add(a, single(op.imm)),
        OpCode::SubRegImm => i_sub(a, single(op.imm)),
        OpCode::SubImmReg => i_sub(single(op.imm), a),
        OpCode::MulRegImm => i_mul(a, single(op.imm)),
        OpCode::DivRegImm => i_div(a, single(op.imm)),
        OpCode::DivImmReg => i_div(single(op.imm), a),
        _ => a,
    }
}

/// What a choice gives on the value `a` of its left operand and the slots.
pub open spec fn chosen(op: RegOp, a: Interval, slots: Seq<Interval>) -> Chosen {
    let b = if op.code == OpCode::MinRegReg || op.code == OpCode::MaxRegReg {
        slots[op.rhs as int]
    } else {
        single(op.imm)
    };
    if op.code == OpCode::MinRegReg || op.code == OpCode::MinRegImm {
        i_min(a, b)
    } else {
        i_max(a, b)
    }
}

/// The state after one operation.
pub open spec fn interval_step(
    op: RegOp,
    st: IntervalState,
    x: Interval,
    y: Interval,
    z: Interval,
    vars: Seq<u32>,
) -> IntervalState {
    if op.code == OpCode::Load {
        IntervalState { slots: st.slots.update(op.out as int, st.slots[op.slot as int]), ..st }
    } else if op.code == OpCode::Store {
        IntervalState { slots: st.slots.update(op.slot as int, st.slots[op.lhs as int]), ..st }
    } else if op.code == OpCode::Swap {
        IntervalState {
            slots: st.slots.update(op.out as int, st.slots[op.slot as int]).update(
                op.slot as int,
                st.slots[op.out as int],
            ),
            ..st
        }
    } else if spec_is_choice(op.code) {
        let c = chosen(op, st.slots[op.lhs as int], st.slots);
        let byte = st.choices[op.choice as int];
        IntervalState {
            slots: st.slots.update(op.out as int, c.value),
            choices: st.choices.update(
                op.choice as int,
                with_choice(byte, joined(choice_of(byte), c.choice)),
            ),
            simplify: st.simplify || c.choice != Choice::Both,
        }
    } else {
        IntervalState {
            slots: st.slots.update(
                op.out as int,
                plain_interval(
                    op,
                    st.slots[op.lhs as int],
                    st.slots[op.rhs as int],
                    x,
                    y,
                    z,
                    vars,
                ),
            ),
            ..st
        }
    }
}

/// The state after all operations of `ops`, from the state `st`.
pub open spec fn interval_run(
    ops: Seq<RegOp>,
    st: IntervalState,
    x: Interval,
    y: Interval,
    z: Interval,
    vars: Seq<u32>,
) -> IntervalState
    decreases ops.len(),
{
    if ops.len() == 0 {
        st
    } else {
        interval_step(
            ops.last(),
            interval_run(ops.drop_last(), st, x, y, z, vars),
            x,
            y,
            z,
            vars,
        )
    }
}

/// The state in which an evaluation starts: every slot holds `[0, 0]`.
pub open spec fn interval_start(slots: int, choices: Seq<u8>) -> IntervalState {
    IntervalState {
        slots: Seq::new(slots as nat, |i: int| single(ZERO)),
        choices,
        simplify: false,
    }
}

/// What a choice with the code `code` gives on the values `a` and `b` of
/// its operand terms.
pub open spec fn chosen_of_term(code: OpCode, imm: u32, a: Interval, b: Interval) -> Chosen {
    let right = if spec_arity(code) >= 2 {
        b
    } else {
        single(imm)
    };
    if code == OpCode::MinRegReg || code == OpCode::MinRegImm {
        i_min(a, right)
    } else {
        i_max(a, right)
    }
}

/// The interval of a term on a region.  What was never written is zero.
pub open spec fn interval_of(t: Term, x: Interval, y: Interval, z: Interval, vars: Seq<u32>) -> Interval
    decreases t,
{
    match t {
        Term::Blank => single(ZERO),
        Term::Node(code, imm, _, a, b) => {
            let ia = interval_of(*a, x, y, z, vars);
            let ib = interval_of(*b, x, y, z, vars);
            if spec_is_choice(code) {
                chosen_of_term(code, imm, ia, ib).value
            } else {
                plain_interval(shape(code, imm), ia, ib, x, y, z, vars)
            }
        },
    }
}

/// The choice bytes, and whether one operand alone decided some choice,
/// after the choices of a log are marked, in their order.
pub open spec fn interval_replay(
    log: Seq<Event>,
    choices: Seq<u8>,
    x: Interval,
    y: Interval,
    z: Interval,
    vars: Seq<u32>,
) -> (Seq<u8>, bool)
    decreases log.len(),
{
    if log.len() == 0 {
        (choices, false)
    } else {
        let before = interval_replay(log.drop_last(), choices, x, y, z, vars);
        let e = log.last();
        let c = chosen_of_term(
            e.code,
            e.imm,
            interval_of(e.left, x, y, z, vars),
            interval_of(e.right, x, y, z, vars),
        );
        let byte = before.0[e.choice as int];
        (
            before.0.update(e.choice as int, with_choice(byte, joined(choice_of(byte), c.choice))),
            before.1 || c.choice != Choice::Both,
        )
    }
}

/// Whether the state of an interval evaluation holds the intervals of the
/// terms of a run on terms, and the marks of its log.
pub open spec fn follows(
    ist: IntervalState,
    sst: Run,
    choices: Seq<u8>,
    x: Interval,
    y: Interval,
    z: Interval,
    vars: Seq<u32>,
) -> bool {
    &&& ist.slots.len() == sst.slots.len()
    &&& forall|i: int|
        0 <= i < ist.slots.len() ==> #[trigger] ist.slots[i] == interval_of(
            sst.slots[i],
            x,
            y,
            z,
            vars,
        )
    &&& ist.choices == interval_replay(sst.log, choices, x, y, z, vars).0
    &&& ist.simplify == interval_replay(sst.log, choices, x, y, z, vars).1
}

/// One operation of an interval evaluation follows the same operation on
/// terms.
pub proof fn interval_step_follows(
    op: RegOp,
    limit: int,
    q1: IntervalState,
    s1: Run,
    choices: Seq<u8>,
    x: Interval,
    y: Interval,
    z: Interval,
    vars: Seq<u32>,
)
    requires
        reg_op_ok(op, limit, q1.slots.len() as int),
        0 < limit <= q1.slots.len(),
        follows(q1, s1, choices, x, y, z, vars),
    ensures
        follows(interval_step(op, q1, x, y, z, vars), term_step(op, s1), choices, x, y, z, vars),
        interval_step(op, q1, x, y, z, vars).slots.len() == q1.slots.len(),
{
    let q2 = interval_step(op, q1, x, y, z, vars);
    let s2 = term_step(op, s1);
    let a = interval_of(s1.slots[op.lhs as int], x, y, z, vars);
    let b = interval_of(s1.slots[op.rhs as int], x, y, z, vars);
    assert(q1.slots[op.lhs as int] == a);
    assert(q1.slots[op.rhs as int] == b);
    if spec_is_transfer(op.code) {
        assert(q1.slots[op.slot as int] == interval_of(s1.slots[op.slot as int], x, y, z, vars));
        assert(q1.slots[op.out as int] == interval_of(s1.slots[op.out as int], x, y, z, vars));
        assert(s2.log == s1.log);
    } else {
        let t = s2.slots[op.out as int];
        assert(t == crate::term::made(
            op.code,
            op.imm,
            op.choice,
            s1.slots[op.lhs as int],
            s1.slots[op.rhs as int],
        ));
        if spec_is_choice(op.code) {
            assert(s2.log.drop_last() =~= s1.log);
            assert(s2.log.last() == crate::term::met(
                op.code,
                op.imm,
                op.choice,
                s1.slots[op.lhs as int],
                s1.slots[op.rhs as int],
            ));
            assert(interval_of(t, x, y, z, vars) == chosen_of_term(op.code, op.imm, a, b).value);
            assert(q2.slots[op.out as int] == interval_of(t, x, y, z, vars));
        } else {
            assert(s2.log == s1.log);
            assert(q2.slots[op.out as int] == interval_of(t, x, y, z, vars));
        }
    }
    assert forall|i: int| 0 <= i < q2.slots.len() implies #[trigger] q2.slots[i] == interval_of(
        s2.slots[i],
        x,
        y,
        z,
        vars,
    ) by {
        assert(q1.slots[i] == interval_of(s1.slots[i], x, y, z, vars));
    }
}

/// An interval evaluation follows the run on terms, operation by operation.
pub proof fn interval_follows_terms(
    ops: Seq<RegOp>,
    limit: int,
    ist: IntervalState,
    sst: Run,
    choices: Seq<u8>,
    x: Interval,
    y: Interval,
    z: Interval,
    vars: Seq<u32>,
)
    requires
        regs_ok(ops, limit, ist.slots.len() as int),
        0 < limit <= ist.slots.len(),
        follows(ist, sst, choices, x, y, z, vars),
    ensures
        follows(
            interval_run(ops, ist, x, y, z, vars),
            term_run(ops, sst),
            choices,
            x,
            y,
            z,
            vars,
        ),
        interval_run(ops, ist, x, y, z, vars).slots.len() == ist.slots.len(),
    decreases ops.len(),
{
    if ops.len() > 0 {
        let op = ops.last();
        assert(reg_op_ok(op, limit, ist.slots.len() as int));
        assert forall|i: int| 0 <= i < ops.drop_last().len() implies reg_op_ok(
            #[trigger] ops.drop_last()[i],
            limit,
            ist.slots.len() as int,
        ) by {
            assert(ops.drop_last()[i] == ops[i]);
        }
        interval_follows_terms(ops.drop_last(), limit, ist, sst, choices, x, y, z, vars);
        interval_step_follows(
            op,
            limit,
            interval_run(ops.drop_last(), ist, x, y, z, vars),
            term_run(ops.drop_last(), sst),
            choices,
            x,
            y,
            z,
            vars,
        );
    }
}

/// The interval of a tape on symbolic slots on a region: the interval of
/// the term of its root, and undefined for a region with an empty side.
pub open spec fn ssa_interval(
    ssa: Seq<SsaOp>,
    x: Interval,
    y: Interval,
    z: Interval,
    vars: Seq<u32>,
) -> Interval {
    if is_empty(x) || is_empty(y) || is_empty(z) {
        undefined()
    } else {
        interval_of(slot_term(ssa, 0), x, y, z, vars)
    }
}

/// The choice bytes after an interval evaluation on a region, and whether
/// one operand alone decided some choice.  Nothing is marked for a region
/// with an empty side.
pub open spec fn marked_on(
    ssa: Seq<SsaOp>,
    choices: Seq<u8>,
    x: Interval,
    y: Interval,
    z: Interval,
    vars: Seq<u32>,
) -> (Seq<u8>, bool) {
    if is_empty(x) || is_empty(y) || is_empty(z) {
        (choices, false)
    } else {
        interval_replay(slot_events(ssa, 0), choices, x, y, z, vars)
    }
}

/// The interval of the tape on a region.
pub open spec fn interval_value(
    tape: &Tape,
    x: Interval,
    y: Interval,
    z: Interval,
    vars: Seq<u32>,
) -> Interval {
    ssa_interval(tape.ssa_view(), x, y, z, vars)
}

impl Interval {
    /// The interval from `lower` to `upper`.
    pub fn new(lower: u32, upper: u32) -> (r: Interval)
        ensures
            r == (Interval { lower, upper }),
    {
        Interval { lower, upper }
    }

    /// The interval that holds one number.
    pub fn point(v: u32) -> (r: Interval)
        ensures
            r == single(v),
    {
        Interval { lower: v, upper: v }
    }

    /// The interval whose bounds are both NaN.
    pub fn nan() -> (r: Interval)
        ensures
            r == undefined(),
    {
        Interval { lower: NAN, upper: NAN }
    }

    /// Whether the lower bound is above the upper bound.
    pub fn empty(&self) -> (r: bool)
        ensures
            r == is_empty(*self),
    {
        lt(self.upper, self.lower)
    }

    /// Negation.
    pub fn neg(&self) -> (r: Interval)
        ensures
            r == i_neg(*self),
    {
        Interval { lower: neg(self.upper), upper: neg(self.lower) }
    }

    /// Absolute value.
    pub fn abs(&self) -> (r: Interval)
        ensures
            r == i_abs(*self),
    {
        if lt(self.lower, ZERO) {
            if lt(ZERO, self.upper) {
                Interval { lower: ZERO, upper: max(self.upper, neg(self.lower)) }
            } else {
                Interval { lower: neg(self.upper), upper: neg(self.lower) }
            }
        } else {
            *self
        }
    }

    /// Square root.  Of an interval that is not below zero everywhere, and
    /// whose lower bound is a number, neither bound of the root is NaN; where
    /// it reaches to zero or below, the root starts at zero.
    pub fn sqrt(&self) -> (r: Interval)
        ensures
            r == i_sqrt(*self),
            !crate::scalar::is_nan(self.lower) && less_eq(ZERO, self.upper)
                ==> !crate::scalar::is_nan(r.lower) && !crate::scalar::is_nan(r.upper),
            less_eq(self.lower, ZERO) && less_eq(ZERO, self.upper) ==> r == (Interval {
                lower: ZERO,
                upper: square_root(self.upper),
            }),
    {
        proof {
            root_is_defined(*self);
        }
        if lt(self.upper, ZERO) {
            Interval::nan()
        } else if le(self.lower, ZERO) {
            Interval { lower: ZERO, upper: sqrt(self.upper) }
        } else {
            Interval { lower: sqrt(self.lower), upper: sqrt(self.upper) }
        }
    }

    /// Reciprocal.
    pub fn recip(&self) -> (r: Interval)
        ensures
            r == i_recip(*self),
    {
        if lt(ZERO, self.lower) || lt(self.upper, ZERO) {
            Interval { lower: quotient(ONE, self.upper), upper: quotient(ONE, self.lower) }
        } else {
            Interval::nan()
        }
    }

    /// Square.
    pub fn square(&self) -> (r: Interval)
        ensures
            r == i_square(*self),
    {
        let lo = product(self.lower, self.lower);
        let hi = product(self.upper, self.upper);
        if le(self.upper, ZERO) {
            Interval { lower: hi, upper: lo }
        } else if le(self.lower, ZERO) {
            Interval { lower: ZERO, upper: max(lo, hi) }
        } else {
            Interval { lower: lo, upper: hi }
        }
    }

    /// Sum.
    pub fn plus(&self, b: &Interval) -> (r: Interval)
        ensures
            r == i_add(*self, *b),
    {
        Interval { lower: sum(self.lower, b.lower), upper: sum(self.upper, b.upper) }
    }

    /// Difference.
    pub fn minus(&self, b: &Interval) -> (r: Interval)
        ensures
            r == i_sub(*self, *b),
    {
        Interval { lower: difference(self.lower, b.upper), upper: difference(self.upper, b.lower) }
    }

    /// Product.
    pub fn times(&self, b: &Interval) -> (r: Interval)
        ensures
            r == i_mul(*self, *b),
    {
        let p = product(self.lower, b.lower);
        let q = product(self.lower, b.upper);
        let r = product(self.upper, b.lower);
        let s = product(self.upper, b.upper);
        Interval { lower: min(min(p, q), min(r, s)), upper: max(max(p, q), max(r, s)) }
    }

    /// Quotient.
    pub fn over(&self, b: &Interval) -> (r: Interval)
        ensures
            r == i_div(*self, *b),
    {
        if lt(ZERO, b.lower) || lt(b.upper, ZERO) {
            let p = quotient(self.lower, b.lower);
            let q = quotient(self.lower, b.upper);
            let r = quotient(self.upper, b.lower);
            let s = quotient(self.upper, b.upper);
            Interval { lower: min(min(p, q), min(r, s)), upper: max(max(p, q), max(r, s)) }
        } else {
            Interval::nan()
        }
    }

    /// Minimum, and which operands can give it.
    pub fn min_choice(&self, b: &Interval) -> (r: (Interval, Choice))
        ensures
            r.0 == i_min(*self, *b).value,
            r.1 == i_min(*self, *b).choice,
    {
        if lt(self.upper, b.lower) {
            (*self, Choice::Left)
        } else if lt(b.upper, self.lower) {
            (*b, Choice::Right)
        } else {
            (
                Interval { lower: min(self.lower, b.lower), upper: min(self.upper, b.upper) },
                Choice::Both,
            )
        }
    }

    /// Maximum, and which operands can give it.
    pub fn max_choice(&self, b: &Interval) -> (r: (Interval, Choice))
        ensures
            r.0 == i_max(*self, *b).value,
            r.1 == i_max(*self, *b).choice,
    {
        if lt(b.upper, self.lower) {
            (*self, Choice::Left)
        } else if lt(self.upper, b.lower) {
            (*b, Choice::Right)
        } else {
            (
                Interval { lower: max(self.lower, b.lower), upper: max(self.upper, b.upper) },
                Choice::Both,
            )
        }
    }
}

/// The value of an operation that is neither a choice nor a transfer.
fn plain(
    op: &RegOp,
    a: &Interval,
    b: &Interval,
    x: &Interval,
    y: &Interval,
    z: &Interval,
    vars: &Vec<u32>,
) -> (r: Interval)
    ensures
        r == plain_interval(*op, *a, *b, *x, *y, *z, vars@),
{
    let imm = Interval::point(op.imm);
    match op.code {
        OpCode::Input => if op.imm == 0 {
            *x
        } else if op.imm == 1 {
            *y
        } else {
            *z
        },
        OpCode::Var => if (op.imm as usize) < vars.len() {
            Interval::point(vars[op.imm as usize])
        } else {
            Interval::point(0)
        },
        OpCode::CopyImm => imm,
        OpCode::CopyReg => *a,
        OpCode::NegReg => a.neg(),
        OpCode::AbsReg => a.abs(),
        OpCode::RecipReg => a.recip(),
        OpCode::SqrtReg => a.sqrt(),
        OpCode::SquareReg => a.square(),
        OpCode::AddRegReg => a.plus(b),
        OpCode::SubRegReg => a.minus(b),
        OpCode::MulRegReg => a.times(b),
        OpCode::DivRegReg => a.over(b),
        OpCode::AddRegImm => a.plus(&imm),
        OpCode::SubRegImm => a.minus(&imm),
        OpCode::SubImmReg => imm.minus(a),
        OpCode::MulRegImm => a.times(&imm),
        OpCode::DivRegImm => a.over(&imm),
        OpCode::DivImmReg => imm.over(a),
        _ => *a,
    }
}

/// Evaluates the tape on the region `x × y × z` with the variables `vars`.
/// Returns an interval that holds the values of the expression in the
/// region, and whether some choice was decided by one operand alone; the
/// choices are marked in `choices`, in addition to what is marked there.
/// For a region with an empty side the result is undefined, and nothing is
/// marked.  Fails with `VarBindingMissing`, and changes nothing, if the tape
/// reads a variable that `vars` does not supply.
pub fn eval_interval(
    tape: &Tape,
    x: Interval,
    y: Interval,
    z: Interval,
    vars: &Vec<u32>,
    choices: &mut Vec<u8>,
) -> (r: Result<(Interval, bool), Error>)
    requires
        old(choices).len() == tape.choices(),
    ensures
        final(choices).len() == old(choices).len(),
        lacks_var(tape@, vars.len() as int) ==> r is Err && r->Err_0 == Error::VarBindingMissing
            && final(choices)@ == old(choices)@,
        !lacks_var(tape@, vars.len() as int) && (is_empty(x) || is_empty(y) || is_empty(z))
            ==> r is Ok && r->Ok_0.0 == undefined() && !r->Ok_0.1 && final(choices)@ == old(choices)@,
        !lacks_var(tape@, vars.len() as int) && !(is_empty(x) || is_empty(y) || is_empty(z))
            ==> r is Ok && ({
            let end = interval_run(
                tape@,
                interval_start(tape.slots(), old(choices)@),
                x,
                y,
                z,
                vars@,
            );
            r->Ok_0.0 == end.slots[0] && r->Ok_0.1 == end.simplify && final(choices)@
                == end.choices
        }),
        r is Ok ==> r->Ok_0.0 == interval_value(tape, x, y, z, vars@) && final(choices)@
            == marked_on(tape.ssa_view(), old(choices)@, x, y, z, vars@).0 && r->Ok_0.1
            == marked_on(tape.ssa_view(), old(choices)@, x, y, z, vars@).1,
{
    if misses_var(tape, vars.len()) {
        return Err(Error::VarBindingMissing);
    }
    if x.empty() || y.empty() || z.empty() {
        return Ok((Interval::nan(), false));
    }
    tape.well_formed();
    let ops = tape.ops();
    let count = tape.slot_count();
    let mut slots: Vec<Interval> = Vec::new();
    let mut k: usize = 0;
    while k < count
        invariant
            k <= count,
            slots.len() == k,
            forall|i: int| 0 <= i < k ==> slots[i] == single(ZERO),
        decreases count - k,
    {
        slots.push(Interval::point(ZERO));
        k = k + 1;
    }
    let ghost start = interval_start(tape.slots(), choices@);
    assert(slots@ =~= start.slots);
    let mut simplify = false;
    let mut i: usize = 0;
    assert(ops@.take(0) =~= Seq::<RegOp>::empty());
    while i < ops.len()
        invariant
            i <= ops.len(),
            ops@ == tape@,
            count == tape.slots(),
            tape.limit() <= count,
            tape.limit() >= 4,
            slots.len() == count,
            choices.len() == tape.choices(),
            regs_ok(ops@, tape.limit(), tape.slots()),
            reg_choices_ok(ops@, tape.choices()),
            interval_run(ops@.take(i as int), start, x, y, z, vars@) == (IntervalState {
                slots: slots@,
                choices: choices@,
                simplify,
            }),
        decreases ops.len() - i,
    {
        let op = ops[i];
        assert(reg_op_ok(op, tape.limit(), tape.slots()));
        assert(ops@.take(i + 1).drop_last() =~= ops@.take(i as int));
        assert(ops@.take(i + 1).last() == op);
        let ghost before = IntervalState { slots: slots@, choices: choices@, simplify };
        match op.code {
            OpCode::Load => {
                let v = slots[op.slot];
                slots.set(op.out as usize, v);
            },
            OpCode::Store => {
                let v = slots[op.lhs as usize];
                slots.set(op.slot, v);
            },
            OpCode::Swap => {
                let v = slots[op.slot];
                let w = slots[op.out as usize];
                slots.set(op.out as usize, v);
                slots.set(op.slot, w);
            },
            OpCode::MinRegReg | OpCode::MinRegImm | OpCode::MaxRegReg | OpCode::MaxRegImm => {
                let a = slots[op.lhs as usize];
                let b = match op.code {
                    OpCode::MinRegReg | OpCode::MaxRegReg => slots[op.rhs as usize],
                    _ => Interval::point(op.imm),
                };
                let (value, choice) = match op.code {
                    OpCode::MinRegReg | OpCode::MinRegImm => a.min_choice(&b),
                    _ => a.max_choice(&b),
                };
                slots.set(op.out as usize, value);
                let byte = choices[op.choice];
                choices.set(op.choice, mark(byte, choice));
                match choice {
                    Choice::Both => {},
                    _ => {
                        simplify = true;
                    },
                }
            },
            _ => {
                let a = slots[op.lhs as usize];
                let b = slots[op.rhs as usize];
                let v = plain(&op, &a, &b, &x, &y, &z, vars);
                slots.set(op.out as usize, v);
            },
        }
        assert((IntervalState { slots: slots@, choices: choices@, simplify }) == interval_step(
            op,
            before,
            x,
            y,
            z,
            vars@,
        ));
        i = i + 1;
    }
    assert(ops@.take(ops.len() as int) =~= ops@);
    proof {
        let blank = Run {
            slots: Seq::new(tape.slots() as nat, |i: int| Term::Blank),
            log: Seq::<Event>::empty(),
        };
        interval_follows_terms(ops@, tape.limit(), start, blank, old(choices)@, x, y, z, vars@);
        assert(blank.log + slot_events(tape.ssa_view(), 0) =~= slot_events(tape.ssa_view(), 0));
        assert(term_run(ops@, blank).slots[0] == slot_term(tape.ssa_view(), 0));
    }
    Ok((slots[0], simplify))
}

} // verus!
