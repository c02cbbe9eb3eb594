//! What the register allocator does, as a function of its state.
//!
//! The state of an allocation is written down as a ledger; every step of the
//! allocator is a function from ledger to ledger.  The tape on registers is
//! therefore a function of the tape on symbolic slots and of the number of
//! registers: the same input gives the same tape, operation for operation.
//!
//! A register for a value is the first one that holds no value.  If every
//! register holds one, the register that was used longest ago gives way,
//! the first such register if there are several; its value moves to the
//! memory slot that was freed last, or to a new memory slot if none is
//! free.

use crate::allocator::{Binding, Picks};
use crate::op::{spec_arity, OpCode, RegOp, SsaOp};
use vstd::prelude::*;

verus! {

/// The state of an allocation.
pub struct Ledger {
    /// Where the value of each symbolic slot is expected.
    pub allocations: Seq<Binding>,
    /// The symbolic slot whose value each register holds.
    pub registers: Seq<Option<usize>>,
    /// The time at which each register was last used.
    pub used: Seq<u64>,
    /// The present time.
    pub clock: u64,
    /// The memory slots that are free for reuse, the one freed last at the
    /// end.
    pub spare: Seq<usize>,
    /// The number of slots in use, registers included.
    pub total: usize,
    /// The operations emitted, last to run first.
    pub out: Seq<RegOp>,
    /// The number of operations taken.
    pub steps: usize,
}

/// The ledger of an allocation that has taken no operation: the value of
/// slot 0, the root, is expected in register 0.
pub open spec fn start(limit: u8, size: nat) -> Ledger {
    Ledger {
        allocations: Seq::new(
            size,
            |s: int|
                if s == 0 {
                    Binding::Register(0)
                } else {
                    Binding::Unassigned
                },
        ),
        registers: Seq::new(
            limit as nat,
            |q: int|
                if q == 0 {
                    Some(0usize)
                } else {
                    None
                },
        ),
        used: Seq::new(limit as nat, |q: int| 0u64),
        clock: 1,
        spare: Seq::empty(),
        total: limit as usize,
        out: Seq::empty(),
        steps: 0,
    }
}

/// The ledger once the register `r` was used: the time of its last use is
/// the present time, and time has moved on, unless it has reached the
/// largest time there is.
pub open spec fn touched(l: Ledger, r: u8) -> Ledger {
    Ledger {
        used: l.used.update(r as int, l.clock),
        clock: if l.clock < u64::MAX {
            (l.clock + 1) as u64
        } else {
            l.clock
        },
        ..l
    }
}

/// The first register from `q` up that holds no value and is not `pin`.
pub open spec fn first_free(registers: Seq<Option<usize>>, pin: Option<u8>, q: int) -> Option<u8>
    decreases registers.len() - q,
{
    if q < 0 || q >= registers.len() || q > u8::MAX {
        None
    } else if registers[q] is None && pin != Some(q as u8) {
        Some(q as u8)
    } else {
        first_free(registers, pin, q + 1)
    }
}

/// The register that was used longest ago among `victim` and the registers
/// from `c` up, `pin` left out; of several, `victim`, else the first.
pub open spec fn oldest(used: Seq<u64>, pin: Option<u8>, c: int, victim: u8) -> u8
    decreases used.len() - c,
{
    if c < 0 || c >= used.len() || c > u8::MAX {
        victim
    } else if pin != Some(c as u8) && used[c] < used[victim as int] {
        oldest(used, pin, c + 1, c as u8)
    } else {
        oldest(used, pin, c + 1, victim)
    }
}

/// The load of the memory slot `m` into the register `r`.
pub open spec fn load_of(r: u8, m: usize) -> RegOp {
    RegOp { code: OpCode::Load, out: r, lhs: 0, rhs: 0, imm: 0, slot: m, choice: 0 }
}

/// The store of the register `r` to the memory slot `m`.
pub open spec fn store_of(r: u8, m: usize) -> RegOp {
    RegOp { code: OpCode::Store, out: 0, lhs: r, rhs: 0, imm: 0, slot: m, choice: 0 }
}

/// The ledger with a register that holds no value and is not `pin`, and
/// that register.  It is the first such register if there is one.  Else the
/// register that was used longest ago gives way: its slot is bound to the
/// memory slot that was freed last, or to a new one if none is free, and a
/// load of that memory slot is emitted.
pub open spec fn evicted(l: Ledger, pin: Option<u8>) -> (Ledger, u8) {
    match first_free(l.registers, pin, 0) {
        Some(q) => (l, q),
        None => {
            let victim = oldest(
                l.used,
                pin,
                0,
                if pin == Some(0u8) {
                    1
                } else {
                    0
                },
            );
            match l.registers[victim as int] {
                None => (l, victim),
                Some(holder) => {
                    let mem = if l.spare.len() > 0 {
                        l.spare.last()
                    } else {
                        l.total
                    };
                    (
                        Ledger {
                            allocations: l.allocations.update(holder as int, Binding::Memory(mem)),
                            registers: l.registers.update(victim as int, None),
                            spare: if l.spare.len() > 0 {
                                l.spare.drop_last()
                            } else {
                                l.spare
                            },
                            total: if l.spare.len() > 0 {
                                l.total
                            } else {
                                (l.total + 1) as usize
                            },
                            out: l.out.push(load_of(victim, mem)),
                            ..l
                        },
                        victim,
                    )
                },
            }
        },
    }
}

/// The ledger once a store of the register `r` to the memory slot of `s` is
/// emitted, if `s` is bound to one.
pub open spec fn with_store(l: Ledger, s: usize, r: u8) -> Ledger {
    match l.allocations[s as int] {
        Binding::Memory(m) => Ledger { out: l.out.push(store_of(r, m)), ..l },
        _ => l,
    }
}

/// The memory slots that are free once the slot `s` is bound anew.
pub open spec fn spare_without(l: Ledger, s: usize) -> Seq<usize> {
    match l.allocations[s as int] {
        Binding::Memory(m) => l.spare.push(m),
        _ => l.spare,
    }
}

/// The ledger once the slot `s` is unbound.
pub open spec fn released(l: Ledger, s: usize) -> Ledger {
    Ledger {
        allocations: l.allocations.update(s as int, Binding::Unassigned),
        registers: match l.allocations[s as int] {
            Binding::Register(r) => l.registers.update(r as int, None),
            _ => l.registers,
        },
        spare: spare_without(l, s),
        ..l
    }
}

/// The ledger once the slot `s` is bound to the register `r`.
pub open spec fn bound_to(l: Ledger, s: usize, r: u8) -> Ledger {
    Ledger {
        allocations: l.allocations.update(s as int, Binding::Register(r)),
        registers: l.registers.update(r as int, Some(s)),
        spare: spare_without(l, s),
        ..l
    }
}

/// The ledger once the register of `s` is noted as used, if `s` has one.
pub open spec fn touched_if_bound(l: Ledger, s: usize) -> Ledger {
    match l.allocations[s as int] {
        Binding::Register(q) => touched(l, q),
        _ => l,
    }
}

/// The ledger once the registers of the operation `o` are picked, and the
/// registers.  The registers that the operands have are noted as used.  The
/// result keeps its register if it has one, else it takes one.  An operand
/// that has no register takes that of the result; if both have none, the
/// right one takes another, which is not that of the result.
pub open spec fn with_picks(l: Ledger, o: SsaOp) -> (Ledger, Picks) {
    let n = spec_arity(o.code);
    let l1 = if n >= 1 {
        touched_if_bound(l, o.lhs)
    } else {
        l
    };
    let l2 = if n >= 2 {
        touched_if_bound(l1, o.rhs)
    } else {
        l1
    };
    let (l3, r_out) = match l2.allocations[o.out as int] {
        Binding::Register(q) => (l2, q),
        _ => evicted(l2, None),
    };
    let lhs_fresh = n >= 1 && !(l3.allocations[o.lhs as int] is Register);
    let r_lhs = if n >= 1 && l3.allocations[o.lhs as int] is Register {
        l3.allocations[o.lhs as int]->Register_0
    } else {
        r_out
    };
    if n >= 2 && o.rhs != o.lhs {
        match l3.allocations[o.rhs as int] {
            Binding::Register(q) => (
                l3,
                Picks { r_out, r_lhs, r_rhs: q, lhs_fresh, rhs_fresh: false },
            ),
            _ => if lhs_fresh {
                let (l4, r_rhs) = evicted(l3, Some(r_out));
                (l4, Picks { r_out, r_lhs, r_rhs, lhs_fresh, rhs_fresh: true })
            } else {
                (l3, Picks { r_out, r_lhs, r_rhs: r_out, lhs_fresh, rhs_fresh: true })
            },
        }
    } else if n >= 2 {
        (l3, Picks { r_out, r_lhs, r_rhs: r_lhs, lhs_fresh, rhs_fresh: false })
    } else {
        (l3, Picks { r_out, r_lhs, r_rhs: r_out, lhs_fresh, rhs_fresh: false })
    }
}

/// The operation `o` on the registers `p`.
pub open spec fn lowered_op(o: SsaOp, p: Picks) -> RegOp {
    RegOp {
        code: o.code,
        out: p.r_out,
        lhs: p.r_lhs,
        rhs: p.r_rhs,
        imm: o.imm,
        slot: 0,
        choice: o.choice,
    }
}

/// The ledger once the operation `o` is emitted on the registers `p`, with
/// its stores.  In the order of emission, which is the reverse of
/// execution: the store of its result, the operation, the store of its left
/// operand, that of its right operand; each store only where the slot is
/// bound to memory, those of the operands only where the operand had no
/// register.
pub open spec fn with_op(l: Ledger, o: SsaOp, p: Picks) -> Ledger {
    let l1 = with_store(l, o.out, p.r_out);
    let l2 = Ledger { out: l1.out.push(lowered_op(o, p)), ..l1 };
    let l3 = if p.lhs_fresh {
        with_store(l2, o.lhs, p.r_lhs)
    } else {
        l2
    };
    if p.rhs_fresh {
        with_store(l3, o.rhs, p.r_rhs)
    } else {
        l3
    }
}

/// The ledger once the operation `o` is taken: its registers are picked, it
/// is emitted with its stores, its result is unbound, its operands are
/// bound to their registers, and the register of the result is noted as
/// used.
pub open spec fn taken_op(l: Ledger, o: SsaOp) -> Ledger {
    let (l1, p) = with_picks(l, o);
    let l2 = with_op(l1, o, p);
    let l3 = released(l2, o.out);
    let l4 = if p.lhs_fresh {
        bound_to(l3, o.lhs, p.r_lhs)
    } else {
        l3
    };
    let l5 = if p.rhs_fresh {
        bound_to(l4, o.rhs, p.r_rhs)
    } else {
        l4
    };
    let l6 = touched(l5, p.r_out);
    Ledger { steps: (l6.steps + 1) as usize, ..l6 }
}

/// The ledger once the first `i` operations of `ssa` are taken.
pub open spec fn taken_all(limit: u8, ssa: Seq<SsaOp>, i: int) -> Ledger
    decreases i,
{
    if i <= 0 {
        start(limit, ssa.len())
    } else {
        taken_op(taken_all(limit, ssa, i - 1), ssa[i - 1])
    }
}

/// The tape on `limit` registers of the tape `ssa` on symbolic slots, in
/// the order in which it runs.
pub open spec fn allocated_ops(ssa: Seq<SsaOp>, limit: u8) -> Seq<RegOp> {
    taken_all(limit, ssa, ssa.len() as int).out.reverse()
}

/// The number of slots of the tape on `limit` registers of the tape `ssa`.
pub open spec fn allocated_slots(ssa: Seq<SsaOp>, limit: u8) -> usize {
    taken_all(limit, ssa, ssa.len() as int).total
}

} // verus!
