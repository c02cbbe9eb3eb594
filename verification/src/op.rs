//! The operations of a tape, before and after register allocation.

use vstd::prelude::*;

verus! {

/// What an operation does with its operands.  `Reg` names an operand that is
/// read from a slot, `Imm` one that is part of the operation.
#[derive(Clone, Copy, PartialEq, Eq, Structural, Debug)]
pub enum OpCode {
    /// Reads the coordinate named by `imm`: 0 for X, 1 for Y, 2 for Z.
    Input,
    /// Reads the variable supplied at index `imm`.
    Var,
    CopyImm,
    CopyReg,
    NegReg,
    AbsReg,
    RecipReg,
    SqrtReg,
    SquareReg,
    AddRegReg,
    SubRegReg,
    MulRegReg,
    DivRegReg,
    MinRegReg,
    MaxRegReg,
    AddRegImm,
    SubRegImm,
    SubImmReg,
    MulRegImm,
    DivRegImm,
    DivImmReg,
    MinRegImm,
    MaxRegImm,
    /// Copies the memory slot `slot` to the register `out`.
    Load,
    /// Copies the register `lhs` to the memory slot `slot`.
    Store,
    /// Exchanges the register `out` and the memory slot `slot`.
    Swap,
}

/// The number of operands that an operation reads from slots.
pub open spec fn spec_arity(code: OpCode) -> u8 {
    match code {
        OpCode::Input | OpCode::Var | OpCode::CopyImm => 0,
        OpCode::AddRegReg | OpCode::SubRegReg | OpCode::MulRegReg | OpCode::DivRegReg
        | OpCode::MinRegReg | OpCode::MaxRegReg => 2,
        OpCode::Load | OpCode::Store | OpCode::Swap => 0,
        _ => 1,
    }
}

/// Whether the operation is a minimum or a maximum.
pub open spec fn spec_is_choice(code: OpCode) -> bool {
    code == OpCode::MinRegReg || code == OpCode::MaxRegReg || code == OpCode::MinRegImm || code
        == OpCode::MaxRegImm
}

/// Whether the operation moves a value between a register and memory.
pub open spec fn spec_is_transfer(code: OpCode) -> bool {
    code == OpCode::Load || code == OpCode::Store || code == OpCode::Swap
}

/// The number of operands that an operation reads from slots.
#[verifier::when_used_as_spec(spec_arity)]
pub fn arity(code: OpCode) -> (r: u8)
    ensures
        r == spec_arity(code),
{
    match code {
        OpCode::Input | OpCode::Var | OpCode::CopyImm => 0,
        OpCode::AddRegReg | OpCode::SubRegReg | OpCode::MulRegReg | OpCode::DivRegReg
        | OpCode::MinRegReg | OpCode::MaxRegReg => 2,
        OpCode::Load | OpCode::Store | OpCode::Swap => 0,
        _ => 1,
    }
}

/// Whether the operation is a minimum or a maximum.
#[verifier::when_used_as_spec(spec_is_choice)]
pub fn is_choice(code: OpCode) -> (r: bool)
    ensures
        r == spec_is_choice(code),
{
    match code {
        OpCode::MinRegReg | OpCode::MaxRegReg | OpCode::MinRegImm | OpCode::MaxRegImm => true,
        _ => false,
    }
}

/// Whether the operation moves a value between a register and memory.
#[verifier::when_used_as_spec(spec_is_transfer)]
pub fn is_transfer(code: OpCode) -> (r: bool)
    ensures
        r == spec_is_transfer(code),
{
    match code {
        OpCode::Load | OpCode::Store | OpCode::Swap => true,
        _ => false,
    }
}

/// An operation on symbolic slots.  `out` is the slot that it defines, `lhs`
/// and `rhs` the slots that it reads, as far as its code has operands; `imm`
/// is its immediate operand, coordinate or variable index; `choice` is the
/// index of its choice if it is a minimum or maximum.
#[derive(Clone, Copy, PartialEq, Eq, Structural, Debug)]
pub struct SsaOp {
    pub code: OpCode,
    pub out: usize,
    pub lhs: usize,
    pub rhs: usize,
    pub imm: u32,
    pub choice: usize,
}

/// An operation on registers.  `out`, `lhs` and `rhs` are registers, `slot`
/// is the memory slot of a `Load`, `Store` or `Swap`.
#[derive(Clone, Copy, PartialEq, Eq, Structural, Debug)]
pub struct RegOp {
    pub code: OpCode,
    pub out: u8,
    pub lhs: u8,
    pub rhs: u8,
    pub imm: u32,
    pub slot: usize,
    pub choice: usize,
}

/// Whether every slot that the operation at position `i` reads is defined
/// by a later operation of a tape of `len` operations, and the operation
/// defines the slot `i`.  A tape lists the root first.
pub open spec fn ssa_op_ok(op: SsaOp, i: int, len: int) -> bool {
    &&& !spec_is_transfer(op.code)
    &&& op.out == i
    &&& spec_arity(op.code) >= 1 ==> i < op.lhs < len
    &&& spec_arity(op.code) >= 2 ==> i < op.rhs < len
}

/// Whether a sequence of operations is in single-assignment form, root
/// first: operation `i` defines slot `i` and reads only slots that later
/// operations define.
pub open spec fn ssa_ok(ops: Seq<SsaOp>) -> bool {
    forall|i: int| 0 <= i < ops.len() ==> ssa_op_ok(#[trigger] ops[i], i, ops.len() as int)
}

/// Whether the registers that the operation names are below `limit` and its
/// memory slot, if it has one, is from `limit` up and below `slots`.
pub open spec fn reg_op_ok(op: RegOp, limit: int, slots: int) -> bool {
    &&& op.out < limit
    &&& op.lhs < limit
    &&& op.rhs < limit
    &&& spec_is_transfer(op.code) ==> limit <= op.slot < slots
}

/// Whether every operation of a tape keeps to the register limit and to the
/// slots of the tape.
pub open spec fn regs_ok(ops: Seq<RegOp>, limit: int, slots: int) -> bool {
    forall|i: int| 0 <= i < ops.len() ==> reg_op_ok(#[trigger] ops[i], limit, slots)
}

/// Whether some operation before position `i` writes the memory slot `m`.
pub open spec fn stored_before(ops: Seq<RegOp>, i: int, m: int) -> bool {
    exists|j: int|
        0 <= j < i && (#[trigger] ops[j]).code == OpCode::Store && ops[j].slot == m
}

/// Whether every `Load` reads a memory slot that an earlier `Store` wrote.
pub open spec fn loads_follow_stores(ops: Seq<RegOp>) -> bool {
    forall|i: int|
        0 <= i < ops.len() && (#[trigger] ops[i]).code == OpCode::Load ==> stored_before(
            ops,
            i,
            ops[i].slot as int,
        )
}

/// Whether some operation from position `p` up to position `j`, the latter
/// not included, writes the memory slot `m`.
pub open spec fn stored_between(ops: Seq<RegOp>, p: int, j: int, m: int) -> bool {
    exists|t: int| p <= t < j && (#[trigger] ops[t]).code == OpCode::Store && ops[t].slot == m
}

/// Whether the memory slot `m` holds a value when the operation at position
/// `p` is about to run: a load of `m` is still to come, and no store to `m`
/// comes before it.
pub open spec fn in_use(ops: Seq<RegOp>, p: int, m: int) -> bool {
    exists|j: int|
        p <= j < ops.len() && (#[trigger] ops[j]).code == OpCode::Load && ops[j].slot == m
            && !stored_between(ops, p, j, m)
}

/// The number of values in memory when the operation at position `p` is
/// about to run: the number of the slots from `limit` up to `upto`, the
/// latter not included, that hold a value then.
pub open spec fn in_memory(ops: Seq<RegOp>, p: int, limit: int, upto: int) -> nat
    decreases upto - limit,
{
    if upto <= limit {
        0
    } else {
        in_memory(ops, p, limit, upto - 1) + if in_use(ops, p, upto - 1) {
            1nat
        } else {
            0nat
        }
    }
}

/// The largest number of values in memory at once, at the positions up to
/// and including `p`.
pub open spec fn most_in_memory(ops: Seq<RegOp>, p: int, limit: int, slots: int) -> nat
    decreases p,
{
    if p <= 0 {
        in_memory(ops, 0, limit, slots)
    } else if in_memory(ops, p, limit, slots) > most_in_memory(ops, p - 1, limit, slots) {
        in_memory(ops, p, limit, slots)
    } else {
        most_in_memory(ops, p - 1, limit, slots)
    }
}

/// Whether a tape with `limit` registers and `slots` slots in all has no
/// more memory slots than it has values in memory at once: the number of
/// its slots is the number of its registers plus the largest number of
/// values in memory at once.
pub open spec fn slots_are_needed(ops: Seq<RegOp>, limit: int, slots: int) -> bool {
    slots == limit + most_in_memory(ops, ops.len() as int, limit, slots)
}

/// Whether at some position every memory slot of the tape holds a value, if
/// it has a memory slot at all.
pub open spec fn packed(ops: Seq<RegOp>, limit: int, slots: int) -> bool {
    slots == limit || exists|p: int| #[trigger] all_in_use(ops, p, limit, slots)
}

/// Whether every memory slot holds a value when the operation at position
/// `p` is about to run.
pub open spec fn all_in_use(ops: Seq<RegOp>, p: int, limit: int, slots: int) -> bool {
    0 <= p <= ops.len() && forall|m: int| limit <= m < slots ==> #[trigger] in_use(ops, p, m)
}

/// No more values are in memory than there are memory slots.
pub proof fn in_memory_is_bounded(ops: Seq<RegOp>, p: int, limit: int, upto: int)
    requires
        limit <= upto,
    ensures
        in_memory(ops, p, limit, upto) <= upto - limit,
    decreases upto - limit,
{
    if limit < upto {
        in_memory_is_bounded(ops, p, limit, upto - 1);
    }
}

/// Where every memory slot holds a value, as many values are in memory as
/// there are memory slots.
pub proof fn in_memory_when_full(ops: Seq<RegOp>, p: int, limit: int, upto: int)
    requires
        limit <= upto,
        forall|m: int| limit <= m < upto ==> #[trigger] in_use(ops, p, m),
    ensures
        in_memory(ops, p, limit, upto) == upto - limit,
    decreases upto - limit,
{
    if limit < upto {
        in_memory_when_full(ops, p, limit, upto - 1);
    }
}

/// The largest number of values in memory at once is no more than the
/// number of memory slots, and no less than the number at any position.
pub proof fn most_in_memory_bounds(ops: Seq<RegOp>, p: int, q: int, limit: int, slots: int)
    requires
        limit <= slots,
        0 <= q <= p,
    ensures
        in_memory(ops, q, limit, slots) <= most_in_memory(ops, p, limit, slots) <= slots - limit,
    decreases p,
{
    in_memory_is_bounded(ops, p, limit, slots);
    in_memory_is_bounded(ops, 0, limit, slots);
    if p > 0 {
        if q < p {
            most_in_memory_bounds(ops, p - 1, q, limit, slots);
        } else {
            most_in_memory_bounds(ops, p - 1, p - 1, limit, slots);
        }
    }
}

/// A tape in which at some position every memory slot holds a value has no
/// more memory slots than values in memory at once.
pub proof fn packed_slots_are_needed(ops: Seq<RegOp>, limit: int, slots: int)
    requires
        limit <= slots,
        packed(ops, limit, slots),
    ensures
        slots_are_needed(ops, limit, slots),
{
    let len = ops.len() as int;
    if slots == limit {
        most_in_memory_bounds(ops, len, 0, limit, slots);
    } else {
        let p = choose|p: int| #[trigger] all_in_use(ops, p, limit, slots);
        in_memory_when_full(ops, p, limit, slots);
        most_in_memory_bounds(ops, len, p, limit, slots);
    }
}

} // verus!
