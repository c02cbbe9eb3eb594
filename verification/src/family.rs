//! Families of evaluators.

use crate::context::{Context, Node};
use crate::error::Error;
use crate::allocator::MIN_REGISTERS;
use crate::op::{loads_follow_stores, regs_ok, slots_are_needed};
use crate::plan::unschedulable;
use crate::policy::{allocated_ops, allocated_slots};
use crate::tape::{compile, compiled, oversized, Tape};
use crate::plan::INLINE_WEIGHT;
use crate::ssa::node_term;
use crate::term::slot_term;
use vstd::prelude::*;

verus! {

/// Represents a family of evaluators: what compiles tapes for them must
/// keep to their register limit.
pub trait EvalFamily {
    /// Register limit for this evaluator family.
    const REG_LIMIT: u8;
}

/// The family of the evaluators of this library, which interpret a tape.
pub struct Interpreter;

impl EvalFamily for Interpreter {
    const REG_LIMIT: u8 = 24;
}

/// Compiles the expression below `root` for the evaluators of the family
/// `F`, as `compile` does with the register limit of the family.
pub fn compile_for<F: EvalFamily>(ctx: &Context, root: Node) -> (r: Result<Tape, Error>)
    ensures
        root.0 >= ctx@.len() ==> r is Err && r->Err_0 == Error::InvalidNode,
        root.0 < ctx@.len() && F::REG_LIMIT < MIN_REGISTERS ==> r is Err && r->Err_0
            == Error::BadRegisterLimit,
        root.0 < ctx@.len() && F::REG_LIMIT >= MIN_REGISTERS ==> (r is Err <==> unschedulable(
            ctx@,
            root.0 as int,
            INLINE_WEIGHT as int,
        ) || oversized(ctx@, root.0 as int, INLINE_WEIGHT as int)),
        root.0 < ctx@.len() && F::REG_LIMIT >= MIN_REGISTERS && r is Err ==> r->Err_0
            == Error::MalformedExpr,
        r is Ok ==> r->Ok_0.limit() == F::REG_LIMIT && compiled(
            ctx@,
            root.0 as int,
            INLINE_WEIGHT as int,
            r->Ok_0,
        ),
        r is Ok ==> regs_ok(r->Ok_0@, F::REG_LIMIT as int, r->Ok_0.slots()) && loads_follow_stores(
            r->Ok_0@,
        ) && slots_are_needed(r->Ok_0@, F::REG_LIMIT as int, r->Ok_0.slots()),
        r is Ok ==> r->Ok_0@ == allocated_ops(r->Ok_0.ssa_view(), F::REG_LIMIT) && r->Ok_0.slots()
            == allocated_slots(r->Ok_0.ssa_view(), F::REG_LIMIT),
        r is Ok ==> slot_term(r->Ok_0.ssa_view(), 0) == node_term(ctx@, root.0 as int, root.0 as int),
{
    compile(ctx, root, F::REG_LIMIT)
}

} // verus!
