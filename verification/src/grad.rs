//! Evaluation of a tape at a point, with the partial derivatives of the
//! value by the three coordinates.

use crate::error::Error;
use crate::op::{reg_op_ok, regs_ok, spec_is_transfer, OpCode, RegOp};
use crate::point::{lacks_var, misses_var, shape, variable};
use crate::term::{slot_term, term_run, term_step, Run, Term};
use crate::root::{sqrt, square_root};
use crate::scalar::{
    difference, ieee_add, ieee_div, ieee_mul, ieee_sub, less, lt, neg, negated, product,
    quotient, sum, ONE, TWO, ZERO,
};
use crate::tape::Tape;
use vstd::prelude::*;

verus! {

/// A value and its derivatives by X, Y and Z, all as binary32 bits.
#[derive(Copy, Clone, PartialEq, Eq, Structural, Debug)]
pub struct Grad {
    pub v: u32,
    pub dx: u32,
    pub dy: u32,
    pub dz: u32,
}

/// A value that does not depend on the coordinates.
pub open spec fn constant(v: u32) -> Grad {
    Grad { v, dx: ZERO, dy: ZERO, dz: ZERO }
}

/// `-a`.
pub open spec fn g_neg(a: Grad) -> Grad {
    Grad { v: negated(a.v), dx: negated(a.dx), dy: negated(a.dy), dz: negated(a.dz) }
}

/// `|a|`: `-a` where the value is below zero, else `a`.
pub open spec fn g_abs(a: Grad) -> Grad {
    if less(a.v, ZERO) {
        g_neg(a)
    } else {
        a
    }
}

/// `1 / a`, with the derivatives `d / -(v * v)`.
pub open spec fn g_recip(a: Grad) -> Grad {
    let d = negated(ieee_mul(a.v, a.v));
    Grad {
        v: ieee_div(ONE, a.v),
        dx: ieee_div(a.dx, d),
        dy: ieee_div(a.dy, d),
        dz: ieee_div(a.dz, d),
    }
}

/// The square root, with the derivatives `d / (2 sqrt(v))`.
pub open spec fn g_sqrt(a: Grad) -> Grad {
    let r = square_root(a.v);
    let d = ieee_mul(TWO, r);
    Grad { v: r, dx: ieee_div(a.dx, d), dy: ieee_div(a.dy, d), dz: ieee_div(a.dz, d) }
}

/// The square, with the derivatives `(2 v) d`.
pub open spec fn g_square(a: Grad) -> Grad {
    let d = ieee_mul(TWO, a.v);
    Grad {
        v: ieee_mul(a.v, a.v),
        dx: ieee_mul(d, a.dx),
        dy: ieee_mul(d, a.dy),
        dz: ieee_mul(d, a.dz),
    }
}

/// `a + b`.
pub open spec fn g_add(a: Grad, b: Grad) -> Grad {
    Grad {
        v: ieee_add(a.v, b.v),
        dx: ieee_add(a.dx, b.dx),
        dy: ieee_add(a.dy, b.dy),
        dz: ieee_add(a.dz, b.dz),
    }
}

/// `a - b`.
pub open spec fn g_sub(a: Grad, b: Grad) -> Grad {
    Grad {
        v: ieee_sub(a.v, b.v),
        dx: ieee_sub(a.dx, b.dx),
        dy: ieee_sub(a.dy, b.dy),
        dz: ieee_sub(a.dz, b.dz),
    }
}

/// The derivative of a product: `av * bd + bv * ad`.
pub open spec fn product_rule(av: u32, ad: u32, bv: u32, bd: u32) -> u32 {
    ieee_add(ieee_mul(av, bd), ieee_mul(bv, ad))
}

/// `a * b`.
pub open spec fn g_mul(a: Grad, b: Grad) -> Grad {
    Grad {
        v: ieee_mul(a.v, b.v),
        dx: product_rule(a.v, a.dx, b.v, b.dx),
        dy: product_rule(a.v, a.dy, b.v, b.dy),
        dz: product_rule(a.v, a.dz, b.v, b.dz),
    }
}

/// The derivative of a quotient: `(bv * ad - av * bd) / (bv * bv)`.
pub open spec fn quotient_rule(av: u32, ad: u32, bv: u32, bd: u32) -> u32 {
    ieee_div(ieee_sub(ieee_mul(bv, ad), ieee_mul(av, bd)), ieee_mul(bv, bv))
}

/// `a / b`.
pub open spec fn g_div(a: Grad, b: Grad) -> Grad {
    Grad {
        v: ieee_div(a.v, b.v),
        dx: quotient_rule(a.v, a.dx, b.v, b.dx),
        dy: quotient_rule(a.v, a.dy, b.v, b.dy),
        dz: quotient_rule(a.v, a.dz, b.v, b.dz),
    }
}

/// The operand with the smaller value; the right one if neither is smaller.
pub open spec fn g_min(a: Grad, b: Grad) -> Grad {
    if less(a.v, b.v) {
        a
    } else {
        b
    }
}

/// The operand with the larger value; the right one if neither is larger.
pub open spec fn g_max(a: Grad, b: Grad) -> Grad {
    if less(b.v, a.v) {
        a
    } else {
        b
    }
}

/// The coordinate that an `Input` operation reads, with its derivatives.
pub open spec fn g_input(imm: u32, x: u32, y: u32, z: u32) -> Grad {
    if imm == 0 {
        Grad { v: x, dx: ONE, dy: ZERO, dz: ZERO }
    } else if imm == 1 {
        Grad { v: y, dx: ZERO, dy: ONE, dz: ZERO }
    } else {
        Grad { v: z, dx: ZERO, dy: ZERO, dz: ONE }
    }
}

/// The value of an operation that is no transfer, on the operand values `a`
/// and `b`.
pub open spec fn grad_value(op: RegOp, a: Grad, b: Grad, x: u32, y: u32, z: u32, vars: Seq<u32>) -> Grad {
    let c = constant(op.imm);
    match op.code {
        OpCode::Input => g_input(op.imm, x, y, z),
        OpCode::Var => constant(variable(vars, op.imm)),
        OpCode::CopyImm => c,
        OpCode::CopyReg => a,
        OpCode::NegReg => g_neg(a),
        OpCode::AbsReg => g_abs(a),
        OpCode::RecipReg => g_recip(a),
        OpCode::SqrtReg => g_sqrt(a),
        OpCode::SquareReg => g_square(a),
        OpCode::AddRegReg => g_add(a, b),
        OpCode::SubRegReg => g_sub(a, b),
        OpCode::MulRegReg => g_mul(a, b),
        OpCode::DivRegReg => g_div(a, b),
        OpCode::MinRegReg => g_min(a, b),
        OpCode::MaxRegReg => g_max(a, b),
        OpCode::AddRegImm => g_add(a, c),
        OpCode::SubRegImm => g_sub(a, c),
        OpCode::SubImmReg => g_sub(c, a),
        OpCode::MulRegImm => g_mul(a, c),
        OpCode::DivRegImm => g_div(a, c),
        OpCode::DivImmReg => g_div(c, a),
        OpCode::MinRegImm => g_min(a, c),
        OpCode::MaxRegImm => g_max(a, c),
        _ => a,
    }
}

/// The slots after one operation.
pub open spec fn grad_step(op: RegOp, slots: Seq<Grad>, x: u32, y: u32, z: u32, vars: Seq<u32>) -> Seq<
    Grad,
> {
    if op.code == OpCode::Load {
        slots.update(op.out as int, slots[op.slot as int])
    } else if op.code == OpCode::Store {
        slots.update(op.slot as int, slots[op.lhs as int])
    } else if op.code == OpCode::Swap {
        slots.update(op.out as int, slots[op.slot as int]).update(
            op.slot as int,
            slots[op.out as int],
        )
    } else {
        slots.update(
            op.out as int,
            grad_value(op, slots[op.lhs as int], slots[op.rhs as int], x, y, z, vars),
        )
    }
}

/// The slots after all operations of `ops`.
pub open spec fn grad_run(ops: Seq<RegOp>, slots: Seq<Grad>, x: u32, y: u32, z: u32, vars: Seq<u32>) -> Seq<
    Grad,
>
    decreases ops.len(),
{
    if ops.len() == 0 {
        slots
    } else {
        grad_step(ops.last(), grad_run(ops.drop_last(), slots, x, y, z, vars), x, y, z, vars)
    }
}

/// The value and the derivatives of a term at a point.  What was never
/// written is zero.
pub open spec fn grad_of_term(t: Term, x: u32, y: u32, z: u32, vars: Seq<u32>) -> Grad
    decreases t,
{
    match t {
        Term::Blank => constant(ZERO),
        Term::Node(code, imm, _, a, b) => grad_value(
            shape(code, imm),
            grad_of_term(*a, x, y, z, vars),
            grad_of_term(*b, x, y, z, vars),
            x,
            y,
            z,
            vars,
        ),
    }
}

/// The value and the derivatives of the tape at a point: those of the term
/// of its root.
pub open spec fn grad_of(tape: &Tape, x: u32, y: u32, z: u32, vars: Seq<u32>) -> Grad {
    grad_of_term(slot_term(tape.ssa_view(), 0), x, y, z, vars)
}

/// A gradient evaluation follows the run on terms, operation by operation.
pub proof fn grad_follows_terms(
    ops: Seq<RegOp>,
    limit: int,
    slots: Seq<Grad>,
    sst: Run,
    x: u32,
    y: u32,
    z: u32,
    vars: Seq<u32>,
)
    requires
        regs_ok(ops, limit, slots.len() as int),
        0 < limit <= slots.len(),
        slots.len() == sst.slots.len(),
        forall|i: int|
            0 <= i < slots.len() ==> #[trigger] slots[i] == grad_of_term(
                sst.slots[i],
                x,
                y,
                z,
                vars,
            ),
    ensures
        grad_run(ops, slots, x, y, z, vars).len() == slots.len(),
        term_run(ops, sst).slots.len() == slots.len(),
        forall|i: int|
            0 <= i < slots.len() ==> #[trigger] grad_run(ops, slots, x, y, z, vars)[i]
                == grad_of_term(term_run(ops, sst).slots[i], x, y, z, vars),
    decreases ops.len(),
{
    if ops.len() > 0 {
        let op = ops.last();
        assert(reg_op_ok(op, limit, slots.len() as int));
        assert forall|i: int| 0 <= i < ops.drop_last().len() implies reg_op_ok(
            #[trigger] ops.drop_last()[i],
            limit,
            slots.len() as int,
        ) by {
            assert(ops.drop_last()[i] == ops[i]);
        }
        grad_follows_terms(ops.drop_last(), limit, slots, sst, x, y, z, vars);
        let q1 = grad_run(ops.drop_last(), slots, x, y, z, vars);
        let s1 = term_run(ops.drop_last(), sst);
        let q2 = grad_step(op, q1, x, y, z, vars);
        let s2 = term_step(op, s1);
        assert(q1[op.lhs as int] == grad_of_term(s1.slots[op.lhs as int], x, y, z, vars));
        assert(q1[op.rhs as int] == grad_of_term(s1.slots[op.rhs as int], x, y, z, vars));
        if spec_is_transfer(op.code) {
            assert(q1[op.slot as int] == grad_of_term(s1.slots[op.slot as int], x, y, z, vars));
            assert(q1[op.out as int] == grad_of_term(s1.slots[op.out as int], x, y, z, vars));
        }
        assert forall|i: int| 0 <= i < slots.len() implies #[trigger] q2[i] == grad_of_term(
            s2.slots[i],
            x,
            y,
            z,
            vars,
        ) by {
            assert(q1[i] == grad_of_term(s1.slots[i], x, y, z, vars));
        }
    }
}

impl Grad {
    /// A value that does not depend on the coordinates.
    pub fn new(v: u32) -> (r: Grad)
        ensures
            r == constant(v),
    {
        Grad { v, dx: ZERO, dy: ZERO, dz: ZERO }
    }

    fn negate(&self) -> (r: Grad)
        ensures
            r == g_neg(*self),
    {
        Grad { v: neg(self.v), dx: neg(self.dx), dy: neg(self.dy), dz: neg(self.dz) }
    }

    fn plus(&self, b: &Grad) -> (r: Grad)
        ensures
            r == g_add(*self, *b),
    {
        Grad {
            v: sum(self.v, b.v),
            dx: sum(self.dx, b.dx),
            dy: sum(self.dy, b.dy),
            dz: sum(self.dz, b.dz),
        }
    }

    fn minus(&self, b: &Grad) -> (r: Grad)
        ensures
            r == g_sub(*self, *b),
    {
        Grad {
            v: difference(self.v, b.v),
            dx: difference(self.dx, b.dx),
            dy: difference(self.dy, b.dy),
            dz: difference(self.dz, b.dz),
        }
    }

    fn times(&self, b: &Grad) -> (r: Grad)
        ensures
            r == g_mul(*self, *b),
    {
        Grad {
            v: product(self.v, b.v),
            dx: sum(product(self.v, b.dx), product(b.v, self.dx)),
            dy: sum(product(self.v, b.dy), product(b.v, self.dy)),
            dz: sum(product(self.v, b.dz), product(b.v, self.dz)),
        }
    }

    fn over(&self, b: &Grad) -> (r: Grad)
        ensures
            r == g_div(*self, *b),
    {
        let d = product(b.v, b.v);
        Grad {
            v: quotient(self.v, b.v),
            dx: quotient(difference(product(b.v, self.dx), product(self.v, b.dx)), d),
            dy: quotient(difference(product(b.v, self.dy), product(self.v, b.dy)), d),
            dz: quotient(difference(product(b.v, self.dz), product(self.v, b.dz)), d),
        }
    }

    fn least(&self, b: &Grad) -> (r: Grad)
        ensures
            r == g_min(*self, *b),
    {
        if lt(self.v, b.v) {
            *self
        } else {
            *b
        }
    }

    fn most(&self, b: &Grad) -> (r: Grad)
        ensures
            r == g_max(*self, *b),
    {
        if lt(b.v, self.v) {
            *self
        } else {
            *b
        }
    }
}

/// The value of an operation that is no transfer.
fn value(op: &RegOp, a: &Grad, b: &Grad, x: u32, y: u32, z: u32, vars: &Vec<u32>) -> (r: Grad)
    ensures
        r == grad_value(*op, *a, *b, x, y, z, vars@),
{
    let c = Grad::new(op.imm);
    match op.code {
        OpCode::Input => if op.imm == 0 {
            Grad { v: x, dx: ONE, dy: ZERO, dz: ZERO }
        } else if op.imm == 1 {
            Grad { v: y, dx: ZERO, dy: ONE, dz: ZERO }
        } else {
            Grad { v: z, dx: ZERO, dy: ZERO, dz: ONE }
        },
        OpCode::Var => if (op.imm as usize) < vars.len() {
            Grad::new(vars[op.imm as usize])
        } else {
            Grad::new(0)
        },
        OpCode::CopyImm => c,
        OpCode::CopyReg => *a,
        OpCode::NegReg => a.negate(),
        OpCode::AbsReg => if lt(a.v, ZERO) {
            a.negate()
        } else {
            *a
        },
        OpCode::RecipReg => {
            let d = neg(product(a.v, a.v));
            Grad {
                v: quotient(ONE, a.v),
                dx: quotient(a.dx, d),
                dy: quotient(a.dy, d),
                dz: quotient(a.dz, d),
            }
        },
        OpCode::SqrtReg => {
            let r = sqrt(a.v);
            let d = product(TWO, r);
            Grad { v: r, dx: quotient(a.dx, d), dy: quotient(a.dy, d), dz: quotient(a.dz, d) }
        },
        OpCode::SquareReg => {
            let d = product(TWO, a.v);
            Grad {
                v: product(a.v, a.v),
                dx: product(d, a.dx),
                dy: product(d, a.dy),
                dz: product(d, a.dz),
            }
        },
        OpCode::AddRegReg => a.plus(b),
        OpCode::SubRegReg => a.minus(b),
        OpCode::MulRegReg => a.times(b),
        OpCode::DivRegReg => a.over(b),
        OpCode::MinRegReg => a.least(b),
        OpCode::MaxRegReg => a.most(b),
        OpCode::AddRegImm => a.plus(&c),
        OpCode::SubRegImm => a.minus(&c),
        OpCode::SubImmReg => c.minus(a),
        OpCode::MulRegImm => a.times(&c),
        OpCode::DivRegImm => a.over(&c),
        OpCode::DivImmReg => c.over(a),
        OpCode::MinRegImm => a.least(&c),
        OpCode::MaxRegImm => a.most(&c),
        _ => *a,
    }
}

/// Evaluates the tape at the point `(x, y, z)` with the variables `vars`:
/// the value, and its derivatives by the three coordinates.  No choice is
/// recorded.  Fails with `VarBindingMissing` if the tape reads a variable
/// that `vars` does not supply.
pub fn eval_gradient(tape: &Tape, x: u32, y: u32, z: u32, vars: &Vec<u32>) -> (r: Result<Grad, Error>)
    ensures
        r is Err <==> lacks_var(tape@, vars.len() as int),
        r is Err ==> r->Err_0 == Error::VarBindingMissing,
        r is Ok ==> r->Ok_0 == grad_of(tape, x, y, z, vars@),
{
    if misses_var(tape, vars.len()) {
        return Err(Error::VarBindingMissing);
    }
    tape.well_formed();
    let ops = tape.ops();
    let count = tape.slot_count();
    let mut slots: Vec<Grad> = Vec::new();
    let mut k: usize = 0;
    while k < count
        invariant
            k <= count,
            slots.len() == k,
            forall|i: int| 0 <= i < k ==> slots[i] == constant(ZERO),
        decreases count - k,
    {
        slots.push(Grad::new(ZERO));
        k = k + 1;
    }
    let ghost start = Seq::new(tape.slots() as nat, |i: int| constant(ZERO));
    assert(slots@ =~= start);
    let mut i: usize = 0;
    assert(ops@.take(0) =~= Seq::<RegOp>::empty());
    while i < ops.len()
        invariant
            i <= ops.len(),
            ops@ == tape@,
            count == tape.slots(),
            tape.limit() <= count,
            tape.limit() >= 4,
            slots.len() == count,
            regs_ok(ops@, tape.limit(), tape.slots()),
            grad_run(ops@.take(i as int), start, x, y, z, vars@) == slots@,
        decreases ops.len() - i,
    {
        let op = ops[i];
        assert(reg_op_ok(op, tape.limit(), tape.slots()));
        assert(ops@.take(i + 1).drop_last() =~= ops@.take(i as int));
        assert(ops@.take(i + 1).last() == op);
        match op.code {
            OpCode::Load => {
                let v = slots[op.slot];
                slots.set(op.out as usize, v);
            },
            OpCode::Store => {
                let v = slots[op.lhs as usize];
                slots.set(op.slot, v);
            },
            OpCode::Swap => {
                let v = slots[op.slot];
                let w = slots[op.out as usize];
                slots.set(op.out as usize, v);
                slots.set(op.slot, w);
            },
            _ => {
                let a = slots[op.lhs as usize];
                let b = slots[op.rhs as usize];
                let v = value(&op, &a, &b, x, y, z, vars);
                slots.set(op.out as usize, v);
            },
        }
        i = i + 1;
    }
    assert(ops@.take(ops.len() as int) =~= ops@);
    proof {
        let blank = Run {
            slots: Seq::new(tape.slots() as nat, |i: int| Term::Blank),
            log: Seq::<crate::term::Event>::empty(),
        };
        grad_follows_terms(ops@, tape.limit(), start, blank, x, y, z, vars@);
        assert(term_run(ops@, blank).slots[0] == slot_term(tape.ssa_view(), 0));
    }
    Ok(slots[0])
}

} // verus!
