//! Evaluation of a tape at a point.
//!
//! Values are binary32 bit patterns.  A minimum or maximum records in the
//! byte of its choice which operand gave its value: the first operand is
//! written without comparison, the second is folded into it.

use crate::choice::{
    has_value, replace, value_written, with_choice, Choice, CHOICE_LEFT,
    HAS_VALUE,
};
use crate::error::Error;
use crate::op::{
    reg_op_ok, regs_ok, spec_arity, spec_is_choice, spec_is_transfer, OpCode, RegOp,
};
use crate::term::{slot_events, slot_term, term_run, term_step, Event, Run, Term};
use crate::root::{sqrt, square_root};
use crate::scalar::{
    abs, difference, ieee_add, ieee_div, ieee_mul, ieee_sub, less, lt, magnitude, max, maximum,
    min, minimum, neg, negated, product, quotient, sum, ONE,
};
use crate::tape::{reg_choices_ok, Tape};
use vstd::prelude::*;

verus! {

/// The state of a point evaluation: the values of the slots, the choice
/// bytes, and whether some choice was decided by one operand alone.
pub struct PointState {
    pub slots: Seq<u32>,
    pub choices: Seq<u8>,
    pub simplify: bool,
}

/// What folding the value `arg` into a choice gives: the new value, the new
/// byte, and whether one operand alone decided.
pub struct Folded {
    pub value: u32,
    pub byte: u8,
    pub decided: bool,
}

/// The byte of a choice to which its first operand was just written: a
/// value is there, and it came from the left.
pub open spec fn first_byte() -> u8 {
    3
}

/// Folds `arg` into the running minimum `inout` of a choice.  Without a
/// value so far, `arg` is taken as it is.  Else the smaller wins: if that is
/// the running value, the byte stays; if it is `arg`, the byte records the
/// right operand alone; if neither is smaller, both are recorded.  The byte
/// has its value bit set afterwards.
pub open spec fn fold_min(inout: u32, arg: u32, byte: u8) -> Folded {
    if !has_value(byte) {
        Folded { value: arg, byte: (byte + 1) as u8, decided: false }
    } else if less(inout, arg) {
        Folded { value: inout, byte, decided: true }
    } else if less(arg, inout) {
        Folded { value: arg, byte: with_choice(byte, Choice::Right), decided: true }
    } else {
        Folded { value: minimum(inout, arg), byte: with_choice(byte, Choice::Both), decided: false }
    }
}

/// Folds `arg` into the running maximum `inout` of a choice, as `fold_min`
/// does for a minimum.
pub open spec fn fold_max(inout: u32, arg: u32, byte: u8) -> Folded {
    if !has_value(byte) {
        Folded { value: arg, byte: (byte + 1) as u8, decided: false }
    } else if less(arg, inout) {
        Folded { value: inout, byte, decided: true }
    } else if less(inout, arg) {
        Folded { value: arg, byte: with_choice(byte, Choice::Right), decided: true }
    } else {
        Folded { value: maximum(inout, arg), byte: with_choice(byte, Choice::Both), decided: false }
    }
}

/// The coordinate that an `Input` operation reads.
pub open spec fn coordinate(imm: u32, x: u32, y: u32, z: u32) -> u32 {
    if imm == 0 {
        x
    } else if imm == 1 {
        y
    } else {
        z
    }
}

/// The variable that a `Var` operation reads; zero if it was not supplied.
pub open spec fn variable(vars: Seq<u32>, imm: u32) -> u32 {
    if imm < vars.len() {
        vars[imm as int]
    } else {
        0
    }
}

/// The value of an operation that is neither a choice nor a transfer, on the
/// operand values `a` and `b`.
pub open spec fn plain_value(op: RegOp, a: u32, b: u32, x: u32, y: u32, z: u32, vars: Seq<u32>) -> u32 {
    match op.code {
        OpCode::Input => coordinate(op.imm, x, y, z),
        OpCode::Var => variable(vars, op.imm),
        OpCode::CopyImm => op.imm,
        OpCode::CopyReg => a,
        OpCode::NegReg => negated(a),
        OpCode::AbsReg => magnitude(a),
        OpCode::RecipReg => ieee_div(ONE, a),
        OpCode::SqrtReg => square_root(a),
        OpCode::SquareReg => ieee_mul(a, a),
        OpCode::AddRegReg => ieee_add(a, b),
        OpCode::SubRegReg => ieee_sub(a, b),
        OpCode::MulRegReg => ieee_mul(a, b),
        OpCode::DivRegReg => ieee_div(a, b),
        OpCode::AddRegImm => ieee_add(a, op.imm),
        OpCode::SubRegImm => ieee_sub(a, op.imm),
        OpCode::SubImmReg => ieee_sub(op.imm, a),
        OpCode::MulRegImm => ieee_mul(a, op.imm),
        OpCode::DivRegImm => ieee_div(a, op.imm),
        OpCode::DivImmReg => ieee_div(op.imm, a),
        _ => a,
    }
}

/// The right operand of a choice: a slot or the immediate.
pub open spec fn right_operand(op: RegOp, slots: Seq<u32>) -> u32 {
    if op.code == OpCode::MinRegReg || op.code == OpCode::MaxRegReg {
        slots[op.rhs as int]
    } else {
        op.imm
    }
}

/// What a choice gives on the operand values `a` and `b`: the left operand
/// is written first, then the right one is folded into it.
pub open spec fn choice_value(op: RegOp, a: u32, b: u32) -> Folded {
    if op.code == OpCode::MinRegReg || op.code == OpCode::MinRegImm {
        fold_min(a, b, first_byte())
    } else {
        fold_max(a, b, first_byte())
    }
}

/// The state after one operation.
pub open spec fn point_step(
    op: RegOp,
    st: PointState,
    x: u32,
    y: u32,
    z: u32,
    vars: Seq<u32>,
) -> PointState {
    if op.code == OpCode::Load {
        PointState { slots: st.slots.update(op.out as int, st.slots[op.slot as int]), ..st }
    } else if op.code == OpCode::Store {
        PointState { slots: st.slots.update(op.slot as int, st.slots[op.lhs as int]), ..st }
    } else if op.code == OpCode::Swap {
        PointState {
            slots: st.slots.update(op.out as int, st.slots[op.slot as int]).update(
                op.slot as int,
                st.slots[op.out as int],
            ),
            ..st
        }
    } else if spec_is_choice(op.code) {
        let f = choice_value(op, st.slots[op.lhs as int], right_operand(op, st.slots));
        PointState {
            slots: st.slots.update(op.out as int, f.value),
            choices: st.choices.update(op.choice as int, f.byte),
            simplify: st.simplify || f.decided,
        }
    } else {
        PointState {
            slots: st.slots.update(
                op.out as int,
                plain_value(op, st.slots[op.lhs as int], st.slots[op.rhs as int], x, y, z, vars),
            ),
            ..st
        }
    }
}

/// The state after all operations of `ops`, from the state `st`.
pub open spec fn point_run(
    ops: Seq<RegOp>,
    st: PointState,
    x: u32,
    y: u32,
    z: u32,
    vars: Seq<u32>,
) -> PointState
    decreases ops.len(),
{
    if ops.len() == 0 {
        st
    } else {
        point_step(ops.last(), point_run(ops.drop_last(), st, x, y, z, vars), x, y, z, vars)
    }
}

/// Whether some operation reads a variable at an index of `count` or more.
pub open spec fn lacks_var(ops: Seq<RegOp>, count: int) -> bool {
    exists|i: int| 0 <= i < ops.len() && (#[trigger] ops[i]).code == OpCode::Var && ops[i].imm >= count
}

/// The state in which an evaluation starts: every slot holds zero.
pub open spec fn point_start(slots: int, choices: Seq<u8>) -> PointState {
    PointState { slots: Seq::new(slots as nat, |i: int| 0u32), choices, simplify: false }
}

/// Writes the first operand of a choice: the value as it is, and the byte
/// that says that a value is there and that it came from the left.
pub fn copy_choice(arg: u32) -> (r: (u32, u8))
    ensures
        r.0 == arg,
        r.1 == first_byte(),
{
    (arg, HAS_VALUE + CHOICE_LEFT)
}

/// Folds `arg` into the running minimum of a choice, as `fold_min` says.
pub fn min_choice(inout: u32, arg: u32, byte: u8) -> (r: (u32, u8, bool))
    requires
        byte < 8,
    ensures
        r.0 == fold_min(inout, arg, byte).value,
        r.1 == fold_min(inout, arg, byte).byte,
        r.2 == fold_min(inout, arg, byte).decided,
        has_value(r.1),
        r.1 < 8,
{
    if !value_written(byte) {
        (arg, byte + 1, false)
    } else if lt(inout, arg) {
        (inout, byte, true)
    } else if lt(arg, inout) {
        (arg, replace(byte, Choice::Right), true)
    } else {
        (min(inout, arg), replace(byte, Choice::Both), false)
    }
}

/// Folds `arg` into the running maximum of a choice, as `fold_max` says.
pub fn max_choice(inout: u32, arg: u32, byte: u8) -> (r: (u32, u8, bool))
    requires
        byte < 8,
    ensures
        r.0 == fold_max(inout, arg, byte).value,
        r.1 == fold_max(inout, arg, byte).byte,
        r.2 == fold_max(inout, arg, byte).decided,
        has_value(r.1),
        r.1 < 8,
{
    if !value_written(byte) {
        (arg, byte + 1, false)
    } else if lt(arg, inout) {
        (inout, byte, true)
    } else if lt(inout, arg) {
        (arg, replace(byte, Choice::Right), true)
    } else {
        (max(inout, arg), replace(byte, Choice::Both), false)
    }
}

/// The value of an operation that is neither a choice nor a transfer.
fn plain(op: &RegOp, a: u32, b: u32, x: u32, y: u32, z: u32, vars: &Vec<u32>) -> (r: u32)
    ensures
        r == plain_value(*op, a, b, x, y, z, vars@),
{
    match op.code {
        OpCode::Input => if op.imm == 0 {
            x
        } else if op.imm == 1 {
            y
        } else {
            z
        },
        OpCode::Var => if (op.imm as usize) < vars.len() {
            vars[op.imm as usize]
        } else {
            0
        },
        OpCode::CopyImm => op.imm,
        OpCode::CopyReg => a,
        OpCode::NegReg => neg(a),
        OpCode::AbsReg => abs(a),
        OpCode::RecipReg => quotient(ONE, a),
        OpCode::SqrtReg => sqrt(a),
        OpCode::SquareReg => product(a, a),
        OpCode::AddRegReg => sum(a, b),
        OpCode::SubRegReg => difference(a, b),
        OpCode::MulRegReg => product(a, b),
        OpCode::DivRegReg => quotient(a, b),
        OpCode::AddRegImm => sum(a, op.imm),
        OpCode::SubRegImm => difference(a, op.imm),
        OpCode::SubImmReg => difference(op.imm, a),
        OpCode::MulRegImm => product(a, op.imm),
        OpCode::DivRegImm => quotient(a, op.imm),
        OpCode::DivImmReg => quotient(op.imm, a),
        _ => a,
    }
}

/// Whether some operation of the tape reads a variable that `count`
/// variables do not supply.
pub fn misses_var(tape: &Tape, count: usize) -> (r: bool)
    ensures
        r == lacks_var(tape@, count as int),
{
    let ops = tape.ops();
    let mut i: usize = 0;
    while i < ops.len()
        invariant
            i <= ops.len(),
            ops@ == tape@,
            forall|j: int|
                0 <= j < i ==> !((#[trigger] ops[j]).code == OpCode::Var && ops[j].imm >= count),
        decreases ops.len() - i,
    {
        match ops[i].code {
            OpCode::Var => {
                if ops[i].imm as usize >= count {
                    return true;
                }
            },
            _ => {},
        }
        i = i + 1;
    }
    false
}

/// Evaluates the tape at the point `(x, y, z)` with the variables `vars`.
/// Returns the value of the term of the root, and whether some choice was
/// decided by one operand alone; the byte of every choice that ran is
/// rewritten.  Fails with `VarBindingMissing`, and changes nothing, if the
/// tape reads a variable that `vars` does not supply.
pub fn eval_point(
    tape: &Tape,
    x: u32,
    y: u32,
    z: u32,
    vars: &Vec<u32>,
    choices: &mut Vec<u8>,
) -> (r: Result<(u32, bool), Error>)
    requires
        old(choices).len() == tape.choices(),
    ensures
        final(choices).len() == old(choices).len(),
        lacks_var(tape@, vars.len() as int) ==> r is Err && r->Err_0 == Error::VarBindingMissing
            && final(choices)@ == old(choices)@,
        !lacks_var(tape@, vars.len() as int) ==> r is Ok && ({
            let end = point_run(
                tape@,
                point_start(tape.slots(), old(choices)@),
                x,
                y,
                z,
                vars@,
            );
            r->Ok_0.0 == end.slots[0] && r->Ok_0.1 == end.simplify && final(choices)@
                == end.choices
        }),
        r is Ok ==> r->Ok_0.0 == point_value(tape, x, y, z, vars@) && final(choices)@
            == point_replay(
            slot_events(tape.ssa_view(), 0),
            old(choices)@,
            x,
            y,
            z,
            vars@,
        ).0 && r->Ok_0.1 == point_replay(
            slot_events(tape.ssa_view(), 0),
            old(choices)@,
            x,
            y,
            z,
            vars@,
        ).1,
{
    if misses_var(tape, vars.len()) {
        return Err(Error::VarBindingMissing);
    }
    tape.well_formed();
    let ops = tape.ops();
    let count = tape.slot_count();
    let mut slots: Vec<u32> = Vec::new();
    let mut k: usize = 0;
    while k < count
        invariant
            k <= count,
            slots.len() == k,
            forall|i: int| 0 <= i < k ==> slots[i] == 0,
        decreases count - k,
    {
        slots.push(0);
        k = k + 1;
    }
    let ghost start = point_start(tape.slots(), choices@);
    assert(slots@ =~= start.slots);
    let mut simplify = false;
    let mut i: usize = 0;
    assert(ops@.take(0) =~= Seq::<RegOp>::empty());
    while i < ops.len()
        invariant
            i <= ops.len(),
            ops@ == tape@,
            count == tape.slots(),
            tape.limit() <= count,
            tape.limit() >= 4,
            slots.len() == count,
            choices.len() == tape.choices(),
            regs_ok(ops@, tape.limit(), tape.slots()),
            reg_choices_ok(ops@, tape.choices()),
            point_run(ops@.take(i as int), start, x, y, z, vars@) == (PointState {
                slots: slots@,
                choices: choices@,
                simplify,
            }),
        decreases ops.len() - i,
    {
        let op = ops[i];
        assert(reg_op_ok(op, tape.limit(), tape.slots()));
        assert(ops@.take(i + 1).drop_last() =~= ops@.take(i as int));
        assert(ops@.take(i + 1).last() == op);
        let ghost before = PointState { slots: slots@, choices: choices@, simplify };
        match op.code {
            OpCode::Load => {
                let v = slots[op.slot];
                slots.set(op.out as usize, v);
            },
            OpCode::Store => {
                let v = slots[op.lhs as usize];
                slots.set(op.slot, v);
            },
            OpCode::Swap => {
                let v = slots[op.slot];
                let w = slots[op.out as usize];
                slots.set(op.out as usize, v);
                slots.set(op.slot, w);
            },
            OpCode::MinRegReg | OpCode::MinRegImm | OpCode::MaxRegReg | OpCode::MaxRegImm => {
                let a = slots[op.lhs as usize];
                let b = match op.code {
                    OpCode::MinRegReg | OpCode::MaxRegReg => slots[op.rhs as usize],
                    _ => op.imm,
                };
                let (first, byte) = copy_choice(a);
                let (value, byte, decided) = match op.code {
                    OpCode::MinRegReg | OpCode::MinRegImm => min_choice(first, b, byte),
                    _ => max_choice(first, b, byte),
                };
                slots.set(op.out as usize, value);
                choices.set(op.choice, byte);
                simplify = simplify || decided;
            },
            _ => {
                let a = slots[op.lhs as usize];
                let b = slots[op.rhs as usize];
                let v = plain(&op, a, b, x, y, z, vars);
                slots.set(op.out as usize, v);
            },
        }
        assert((PointState { slots: slots@, choices: choices@, simplify }) == point_step(
            op,
            before,
            x,
            y,
            z,
            vars@,
        ));
        i = i + 1;
    }
    assert(ops@.take(ops.len() as int) =~= ops@);
    proof {
        let blank = Run {
            slots: Seq::new(tape.slots() as nat, |i: int| Term::Blank),
            log: Seq::<Event>::empty(),
        };
        point_follows_terms(ops@, tape.limit(), start, blank, old(choices)@, x, y, z, vars@);
        assert(blank.log + slot_events(tape.ssa_view(), 0) =~= slot_events(tape.ssa_view(), 0));
        assert(term_run(ops@, blank).slots[0] == slot_term(tape.ssa_view(), 0));
    }
    Ok((slots[0], simplify))
}

/// Evaluates the tape at each of the points `(xs[i], ys[i], zs[i])`, as far
/// as all three lists reach.  No choice is recorded.
pub fn eval_slice(tape: &Tape, xs: &Vec<u32>, ys: &Vec<u32>, zs: &Vec<u32>, vars: &Vec<u32>) -> (r:
    Result<Vec<u32>, Error>)
    ensures
        lacks_var(tape@, vars.len() as int) ==> r is Err && r->Err_0 == Error::VarBindingMissing,
        !lacks_var(tape@, vars.len() as int) ==> r is Ok && r->Ok_0.len() <= xs.len()
            && r->Ok_0.len() <= ys.len() && r->Ok_0.len() <= zs.len() && (r->Ok_0.len()
            == xs.len() || r->Ok_0.len() == ys.len() || r->Ok_0.len() == zs.len()) && forall|
            i: int,
        |
            0 <= i < r->Ok_0.len() ==> #[trigger] r->Ok_0[i] == point_value(
                tape,
                xs[i],
                ys[i],
                zs[i],
                vars@,
            ),
{
    if misses_var(tape, vars.len()) {
        return Err(Error::VarBindingMissing);
    }
    let mut n: usize = xs.len();
    if ys.len() < n {
        n = ys.len();
    }
    if zs.len() < n {
        n = zs.len();
    }
    let mut out: Vec<u32> = Vec::new();
    let mut i: usize = 0;
    while i < n
        invariant
            i <= n,
            n <= xs.len(),
            n <= ys.len(),
            n <= zs.len(),
            out.len() == i,
            !lacks_var(tape@, vars.len() as int),
            forall|k: int|
                0 <= k < i ==> #[trigger] out[k] == point_value(tape, xs[k], ys[k], zs[k], vars@),
        decreases n - i,
    {
        let mut scratch: Vec<u8> = Vec::new();
        let total = tape.choice_count();
        let mut c: usize = 0;
        while c < total
            invariant
                c <= total,
                total == tape.choices(),
                scratch.len() == c,
                forall|k: int| 0 <= k < c ==> scratch[k] == 0,
            decreases total - c,
        {
            scratch.push(0);
            c = c + 1;
        }
        assert(scratch@ =~= blank_choices(tape.choices()));
        match eval_point(tape, xs[i], ys[i], zs[i], vars, &mut scratch) {
            Ok((v, _)) => {
                out.push(v);
            },
            Err(_) => {
                assert(false);
            },
        }
        i = i + 1;
    }
    Ok(out)
}

/// An operation with the code `code` and the immediate operand `imm`, and
/// nothing else.
pub open spec fn shape(code: OpCode, imm: u32) -> RegOp {
    RegOp { code, out: 0, lhs: 0, rhs: 0, imm, slot: 0, choice: 0 }
}

/// What a choice with the code `code` gives on the values `a` and `b` of
/// its operand terms.
pub open spec fn choice_of_term(code: OpCode, imm: u32, a: u32, b: u32) -> Folded {
    choice_value(
        shape(code, imm),
        a,
        if spec_arity(code) >= 2 {
            b
        } else {
            imm
        },
    )
}

/// The value of a term at a point.  What was never written is zero.
pub open spec fn point_of(t: Term, x: u32, y: u32, z: u32, vars: Seq<u32>) -> u32
    decreases t,
{
    match t {
        Term::Blank => 0,
        Term::Node(code, imm, _, a, b) => {
            let pa = point_of(*a, x, y, z, vars);
            let pb = point_of(*b, x, y, z, vars);
            if spec_is_choice(code) {
                choice_of_term(code, imm, pa, pb).value
            } else {
                plain_value(shape(code, imm), pa, pb, x, y, z, vars)
            }
        },
    }
}

/// The choice bytes, and whether one operand alone decided some choice,
/// after the choices of a log, in their order.
pub open spec fn point_replay(
    log: Seq<Event>,
    choices: Seq<u8>,
    x: u32,
    y: u32,
    z: u32,
    vars: Seq<u32>,
) -> (Seq<u8>, bool)
    decreases log.len(),
{
    if log.len() == 0 {
        (choices, false)
    } else {
        let before = point_replay(log.drop_last(), choices, x, y, z, vars);
        let e = log.last();
        let f = choice_of_term(
            e.code,
            e.imm,
            point_of(e.left, x, y, z, vars),
            point_of(e.right, x, y, z, vars),
        );
        (before.0.update(e.choice as int, f.byte), before.1 || f.decided)
    }
}

/// Whether the state of a point evaluation holds the values of the terms of
/// a run on terms, and the choices of its log.
pub open spec fn follows(
    pst: PointState,
    sst: Run,
    choices: Seq<u8>,
    x: u32,
    y: u32,
    z: u32,
    vars: Seq<u32>,
) -> bool {
    &&& pst.slots.len() == sst.slots.len()
    &&& forall|i: int|
        0 <= i < pst.slots.len() ==> #[trigger] pst.slots[i] == point_of(
            sst.slots[i],
            x,
            y,
            z,
            vars,
        )
    &&& pst.choices == point_replay(sst.log, choices, x, y, z, vars).0
    &&& pst.simplify == point_replay(sst.log, choices, x, y, z, vars).1
}

/// A point evaluation follows the run on terms, operation by operation.
pub proof fn point_follows_terms(
    ops: Seq<RegOp>,
    limit: int,
    pst: PointState,
    sst: Run,
    choices: Seq<u8>,
    x: u32,
    y: u32,
    z: u32,
    vars: Seq<u32>,
)
    requires
        regs_ok(ops, limit, pst.slots.len() as int),
        0 < limit <= pst.slots.len(),
        follows(pst, sst, choices, x, y, z, vars),
    ensures
        follows(point_run(ops, pst, x, y, z, vars), term_run(ops, sst), choices, x, y, z, vars),
        point_run(ops, pst, x, y, z, vars).slots.len() == pst.slots.len(),
    decreases ops.len(),
{
    if ops.len() > 0 {
        let op = ops.last();
        assert(reg_op_ok(op, limit, pst.slots.len() as int));
        assert forall|i: int| 0 <= i < ops.drop_last().len() implies reg_op_ok(
            #[trigger] ops.drop_last()[i],
            limit,
            pst.slots.len() as int,
        ) by {
            assert(ops.drop_last()[i] == ops[i]);
        }
        point_follows_terms(ops.drop_last(), limit, pst, sst, choices, x, y, z, vars);
        let q1 = point_run(ops.drop_last(), pst, x, y, z, vars);
        let s1 = term_run(ops.drop_last(), sst);
        let q2 = point_step(op, q1, x, y, z, vars);
        let s2 = term_step(op, s1);
        assert(q1.slots[op.lhs as int] == point_of(s1.slots[op.lhs as int], x, y, z, vars));
        assert(q1.slots[op.rhs as int] == point_of(s1.slots[op.rhs as int], x, y, z, vars));
        if spec_is_transfer(op.code) {
            assert(q1.slots[op.slot as int] == point_of(s1.slots[op.slot as int], x, y, z, vars));
            assert(q1.slots[op.out as int] == point_of(s1.slots[op.out as int], x, y, z, vars));
        } else if spec_is_choice(op.code) {
            assert(s2.log.drop_last() =~= s1.log);
        }
        assert forall|i: int| 0 <= i < q2.slots.len() implies #[trigger] q2.slots[i] == point_of(
            s2.slots[i],
            x,
            y,
            z,
            vars,
        ) by {
            assert(q1.slots[i] == point_of(s1.slots[i], x, y, z, vars));
        }
    }
}

/// Choice bytes that record nothing.
pub open spec fn blank_choices(count: int) -> Seq<u8> {
    Seq::new(count as nat, |i: int| 0u8)
}

/// The value of the tape at a point: the value of the term of its root.
pub open spec fn point_value(tape: &Tape, x: u32, y: u32, z: u32, vars: Seq<u32>) -> u32 {
    point_of(slot_term(tape.ssa_view(), 0), x, y, z, vars)
}

} // verus!
