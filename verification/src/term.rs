//! What a tape computes, as terms.
//!
//! A term says how a value is made from the coordinates, the variables and
//! the constants, whatever kind of value that is.  Run on terms, a tape on
//! registers leaves in register 0 the term of its root, and a log of the
//! choices that it met.  The evaluators compute the images of those terms
//! in their own domains.

use crate::op::{spec_arity, spec_is_choice, OpCode, RegOp, SsaOp};
use vstd::prelude::*;

verus! {

/// How a value is made: by which operation, with which immediate operand
/// and, for a minimum or maximum, which choice, from which operands.
/// `Blank` is what a slot holds before anything is written to it, and
/// stands for an operand that an operation does not have.
pub enum Term {
    Blank,
    Node(OpCode, u32, usize, Box<Term>, Box<Term>),
}

/// A choice that a run met: the operation, the index of the choice, and the
/// terms of the two operands.
pub struct Event {
    pub code: OpCode,
    pub imm: u32,
    pub choice: usize,
    pub left: Term,
    pub right: Term,
}

/// The state of a run on terms: the slots, and the log of the choices.
pub struct Run {
    pub slots: Seq<Term>,
    pub log: Seq<Event>,
}

/// The choice that a term carries: that of a minimum or maximum, and zero
/// for any other operation.
pub open spec fn tag(code: OpCode, choice: usize) -> usize {
    if spec_is_choice(code) {
        choice
    } else {
        0
    }
}

/// The term that an operation with the code `code`, the immediate operand
/// `imm` and the choice `choice` makes of the operand terms `a` and `b`, as
/// far as it has operands.
pub open spec fn made(code: OpCode, imm: u32, choice: usize, a: Term, b: Term) -> Term {
    Term::Node(
        code,
        imm,
        tag(code, choice),
        Box::new(
            if spec_arity(code) >= 1 {
                a
            } else {
                Term::Blank
            },
        ),
        Box::new(
            if spec_arity(code) >= 2 {
                b
            } else {
                Term::Blank
            },
        ),
    )
}

/// The event of a choice on the operand terms `a` and `b`.
pub open spec fn met(code: OpCode, imm: u32, choice: usize, a: Term, b: Term) -> Event {
    Event {
        code,
        imm,
        choice,
        left: a,
        right: if spec_arity(code) >= 2 {
            b
        } else {
            Term::Blank
        },
    }
}

/// The state after one operation on registers.
pub open spec fn term_step(op: RegOp, st: Run) -> Run {
    if op.code == OpCode::Load {
        Run { slots: st.slots.update(op.out as int, st.slots[op.slot as int]), ..st }
    } else if op.code == OpCode::Store {
        Run { slots: st.slots.update(op.slot as int, st.slots[op.lhs as int]), ..st }
    } else if op.code == OpCode::Swap {
        Run {
            slots: st.slots.update(op.out as int, st.slots[op.slot as int]).update(
                op.slot as int,
                st.slots[op.out as int],
            ),
            ..st
        }
    } else {
        let a = st.slots[op.lhs as int];
        let b = st.slots[op.rhs as int];
        Run {
            slots: st.slots.update(op.out as int, made(op.code, op.imm, op.choice, a, b)),
            log: if spec_is_choice(op.code) {
                st.log.push(met(op.code, op.imm, op.choice, a, b))
            } else {
                st.log
            },
        }
    }
}

/// The state after all operations of `ops`, from the state `st`.
pub open spec fn term_run(ops: Seq<RegOp>, st: Run) -> Run
    decreases ops.len(),
{
    if ops.len() == 0 {
        st
    } else {
        term_step(ops.last(), term_run(ops.drop_last(), st))
    }
}

/// Running a tape is running its first operation and then the rest.
pub proof fn run_from_first(ops: Seq<RegOp>, st: Run)
    requires
        ops.len() > 0,
    ensures
        term_run(ops, st) == term_run(ops.drop_first(), term_step(ops.first(), st)),
    decreases ops.len(),
{
    if ops.len() == 1 {
        assert(ops.drop_last() =~= Seq::<RegOp>::empty());
        assert(ops.drop_first() =~= Seq::<RegOp>::empty());
        assert(term_run(ops.drop_last(), st) == st);
    } else {
        run_from_first(ops.drop_last(), st);
        assert(ops.drop_last().drop_first() =~= ops.drop_first().drop_last());
        assert(ops.drop_last().first() == ops.first());
        assert(ops.drop_first().last() == ops.last());
    }
}

/// The term of the slot `i` of a tape on symbolic slots.
pub open spec fn slot_term(ops: Seq<SsaOp>, i: int) -> Term
    decreases
        (if i < ops.len() {
            ops.len() - i
        } else {
            0
        }),
{
    if 0 <= i < ops.len() {
        let op = ops[i];
        made(
            op.code,
            op.imm,
            op.choice,
            if spec_arity(op.code) >= 1 && i < op.lhs {
                slot_term(ops, op.lhs as int)
            } else {
                Term::Blank
            },
            if spec_arity(op.code) >= 2 && i < op.rhs {
                slot_term(ops, op.rhs as int)
            } else {
                Term::Blank
            },
        )
    } else {
        Term::Blank
    }
}

/// The log of the choices of the operations from slot `lo` up, in the order
/// in which they run: the last slot first.
pub open spec fn slot_events(ops: Seq<SsaOp>, lo: int) -> Seq<Event>
    decreases
        (if lo < ops.len() {
            ops.len() - lo
        } else {
            0
        }),
{
    if 0 <= lo < ops.len() {
        let op = ops[lo];
        let rest = slot_events(ops, lo + 1);
        if spec_is_choice(op.code) {
            rest.push(
                met(
                    op.code,
                    op.imm,
                    op.choice,
                    slot_term(ops, op.lhs as int),
                    slot_term(ops, op.rhs as int),
                ),
            )
        } else {
            rest
        }
    } else {
        Seq::<Event>::empty()
    }
}

/// Whether a tape on registers computes what the tape `ssa` on symbolic
/// slots says: from whatever its slots hold, it leaves the term of the root
/// in register 0, and adds to the log the choices of `ssa`, in their order.
pub open spec fn faithful(ssa: Seq<SsaOp>, ops: Seq<RegOp>, slots: int) -> bool {
    forall|st: Run|
        st.slots.len() >= slots ==> (#[trigger] term_run(ops, st)).slots[0] == slot_term(ssa, 0)
            && term_run(ops, st).log == st.log + slot_events(ssa, 0) && term_run(
            ops,
            st,
        ).slots.len() == st.slots.len()
}

/// The terms of all slots of a tape.
pub open spec fn slot_terms(ops: Seq<SsaOp>) -> Seq<Term> {
    Seq::new(ops.len(), |i: int| slot_term(ops, i))
}

} // verus!
