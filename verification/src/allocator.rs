//! The register allocator: it rewrites a tape of operations on symbolic
//! slots into a tape on a fixed number of registers, with loads and stores to
//! memory slots where the registers do not suffice.
//!
//! The allocator takes the operations root first, that is against the
//! direction of execution, and emits its own in that same direction; the
//! result is reversed at the end.  While it runs, the binding of a slot says
//! where the operations already emitted, which run later, expect its value.
//!
//! Every step is the function of the state that `policy` defines, so the
//! result is a function of the input.  A memory slot that is free again is
//! used before a new one is made, so the tape has no more memory slots than
//! values in memory at once.

use crate::error::Error;
use crate::op::{
    all_in_use, arity, in_use, is_transfer, loads_follow_stores, packed, packed_slots_are_needed,
    reg_op_ok, regs_ok, slots_are_needed, spec_arity, spec_is_transfer, ssa_op_ok, stored_before,
    stored_between, OpCode, RegOp, SsaOp,
};
use crate::policy::{
    bound_to, evicted, first_free, oldest, released, start, taken_op, touched, with_op,
    with_picks, with_store, Ledger,
};
use crate::sound::{
    computes_all, expect_before, sound, sound_after_load, sound_after_op, sound_after_store,
    sound_at_end, sound_at_start, sound_with_room,
};
use vstd::prelude::*;

verus! {

/// The smallest number of registers that the allocator works with.
pub const MIN_REGISTERS: u8 = 4;

/// The largest number of operations that the allocator takes.  With no more
/// than two new memory slots for an operation, the numbers of the slots then
/// fit the machine.
pub const MAX_OPS: usize = (usize::MAX - 257) / 2;

/// Where the value of a slot is expected.
#[derive(Clone, Copy, PartialEq, Eq, Structural, Debug)]
pub enum Binding {
    Unassigned,
    Register(u8),
    Memory(usize),
}

/// Whether some operation after position `i` writes the memory slot `m`.
/// Positions are in the order of emission, which is the reverse of
/// execution.
pub open spec fn stored_after(out: Seq<RegOp>, i: int, m: int) -> bool {
    exists|j: int| i < j < out.len() && (#[trigger] out[j]).code == OpCode::Store && out[j].slot == m
}

/// Whether some slot is bound to the memory slot `m`.
pub open spec fn bound_memory(allocations: Seq<Binding>, m: int) -> bool {
    exists|s: int|
        0 <= s < allocations.len() && #[trigger] allocations[s] == Binding::Memory(m as usize)
}

/// Whether every load of the memory slot `m` is matched by a store that
/// runs before it.
pub open spec fn settled(out: Seq<RegOp>, m: int) -> bool {
    forall|i: int|
        0 <= i < out.len() && (#[trigger] out[i]).code == OpCode::Load && out[i].slot == m
            ==> stored_after(out, i, m)
}

/// The operations of `out` that are not transfers between registers and
/// memory, in the same order.
pub open spec fn strip(out: Seq<RegOp>) -> Seq<RegOp>
    decreases out.len(),
{
    if out.len() == 0 {
        Seq::<RegOp>::empty()
    } else if spec_is_transfer(out.last().code) {
        strip(out.drop_last())
    } else {
        strip(out.drop_last()).push(out.last())
    }
}

/// Whether the register operation `x` is the operation `o` on registers:
/// the same code, immediate and choice.
pub open spec fn lowers(o: SsaOp, x: RegOp) -> bool {
    x.code == o.code && x.imm == o.imm && x.choice == o.choice
}

/// Whether what is expected in the places is what the bindings say: the
/// slot that is bound to a register or a memory slot is expected there, and
/// nothing else is expected anywhere.
pub open spec fn matches(
    expect: Seq<Option<usize>>,
    allocations: Seq<Binding>,
    limit: int,
) -> bool {
    &&& forall|s: int|
        0 <= s < allocations.len() ==> match #[trigger] allocations[s] {
            Binding::Register(r) => expect[r as int] == Some(s as usize),
            Binding::Memory(m) => expect[m as int] == Some(s as usize),
            Binding::Unassigned => true,
        }
    &&& forall|loc: int|
        0 <= loc < expect.len() && (#[trigger] expect[loc]) is Some ==> expect[loc]->Some_0
            < allocations.len() && (if loc < limit {
            allocations[expect[loc]->Some_0 as int] == Binding::Register(loc as u8)
        } else {
            allocations[expect[loc]->Some_0 as int] == Binding::Memory(loc as usize)
        })
}

/// The state of an allocation.
pub struct RegisterAllocator {
    reg_limit: u8,
    allocations: Vec<Binding>,
    registers: Vec<Option<usize>>,
    used: Vec<u64>,
    clock: u64,
    spare_memory: Vec<usize>,
    total_slots: usize,
    out: Vec<RegOp>,
    steps: usize,
    expect: Ghost<Seq<Option<usize>>>,
    seen: Ghost<Seq<SsaOp>>,
}

proof fn settled_after_push(out: Seq<RegOp>, op: RegOp, m: int)
    requires
        settled(out, m),
        op.code != OpCode::Load || op.slot != m,
    ensures
        settled(out.push(op), m),
{
    let next = out.push(op);
    assert forall|i: int|
        0 <= i < next.len() && (#[trigger] next[i]).code == OpCode::Load && next[i].slot
            == m implies stored_after(next, i, m) by {
        assert(out[i] == next[i]);
        let j = choose|j: int|
            i < j < out.len() && (#[trigger] out[j]).code == OpCode::Store && out[j].slot == m;
        assert(next[j] == out[j]);
    }
}

proof fn settled_by_store(out: Seq<RegOp>, op: RegOp)
    requires
        op.code == OpCode::Store,
    ensures
        settled(out.push(op), op.slot as int),
{
    let next = out.push(op);
    assert forall|i: int|
        0 <= i < next.len() && (#[trigger] next[i]).code == OpCode::Load && next[i].slot
            == op.slot implies stored_after(next, i, op.slot as int) by {
        assert(next[out.len() as int] == op);
    }
}

/// Whether every memory slot in use is free for reuse, or has a slot bound
/// to it.
#[verifier::opaque]
pub open spec fn spare_or_bound(
    allocations: Seq<Binding>,
    spare: Seq<usize>,
    limit: int,
    total: int,
) -> bool {
    forall|m: int|
        limit <= m < total ==> spare.contains(m as usize) || #[trigger] bound_memory(allocations, m)
}

/// Whether every memory slot to which a slot is bound has a load that no
/// store yet matches.
#[verifier::opaque]
pub open spec fn loaded(allocations: Seq<Binding>, out: Seq<RegOp>) -> bool {
    forall|s: int|
        0 <= s < allocations.len() && (#[trigger] allocations[s]) is Memory ==> !settled(
            out,
            allocations[s]->Memory_0 as int,
        )
}

/// Whether, after the first `k` operations emitted, every memory slot had a
/// load that no store yet matched.
pub open spec fn full_from(out: Seq<RegOp>, k: int, limit: int, total: int) -> bool {
    0 <= k <= out.len() && forall|m: int| limit <= m < total ==> !#[trigger] settled(out.take(k), m)
}

/// Whether at some time every memory slot in use had a load that no store
/// yet matched, if there is a memory slot at all: no memory slot was made
/// while another was free.
#[verifier::opaque]
pub open spec fn filled(out: Seq<RegOp>, limit: int, total: int) -> bool {
    total == limit || exists|k: int| #[trigger] full_from(out, k, limit, total)
}

proof fn unsettled_after_push(out: Seq<RegOp>, op: RegOp, m: int)
    requires
        !settled(out, m),
        op.code != OpCode::Store || op.slot != m,
    ensures
        !settled(out.push(op), m),
{
    let next = out.push(op);
    let i = choose|i: int|
        0 <= i < out.len() && (#[trigger] out[i]).code == OpCode::Load && out[i].slot == m
            && !stored_after(out, i, m);
    assert(next[i] == out[i]);
    if stored_after(next, i, m) {
        let j = choose|j: int|
            i < j < next.len() && (#[trigger] next[j]).code == OpCode::Store && next[j].slot == m;
        if j < out.len() {
            assert(out[j] == next[j]);
        }
    }
}

proof fn unsettled_by_load(out: Seq<RegOp>, op: RegOp)
    requires
        op.code == OpCode::Load,
    ensures
        !settled(out.push(op), op.slot as int),
{
    let next = out.push(op);
    assert(next[out.len() as int] == op);
    assert(!stored_after(next, out.len() as int, op.slot as int));
}

proof fn filled_grows(out: Seq<RegOp>, more: Seq<RegOp>, limit: int, total: int)
    requires
        filled(out, limit, total),
        out.len() <= more.len(),
        forall|i: int| 0 <= i < out.len() ==> #[trigger] more[i] == out[i],
    ensures
        filled(more, limit, total),
{
    reveal(filled);
    if total != limit {
        let k = choose|k: int| #[trigger] full_from(out, k, limit, total);
        assert(more.take(k) =~= out.take(k));
        assert(full_from(more, k, limit, total));
    }
}

proof fn unbound_is_spare(
    allocations: Seq<Binding>,
    spare: Seq<usize>,
    limit: int,
    total: int,
    s: int,
    b: Binding,
)
    requires
        spare_or_bound(allocations, spare, limit, total),
        0 <= s < allocations.len(),
        !(b is Memory),
    ensures
        spare_or_bound(
            allocations.update(s, b),
            match allocations[s] {
                Binding::Memory(m) => spare.push(m),
                _ => spare,
            },
            limit,
            total,
        ),
{
    reveal(spare_or_bound);
    let after = allocations.update(s, b);
    let more = match allocations[s] {
        Binding::Memory(m) => spare.push(m),
        _ => spare,
    };
    assert forall|m: int| limit <= m < total implies more.contains(m as usize) || #[trigger] bound_memory(
        after,
        m,
    ) by {
        assert(spare.contains(m as usize) || bound_memory(allocations, m));
        if spare.contains(m as usize) {
            let i = choose|i: int| 0 <= i < spare.len() && spare[i] == m as usize;
            assert(more[i] == m as usize);
        } else {
            let t = choose|t: int|
                0 <= t < allocations.len() && #[trigger] allocations[t] == Binding::Memory(
                    m as usize,
                );
            if t == s {
                assert(more[spare.len() as int] == m as usize);
            } else {
                assert(after[t] == allocations[t]);
            }
        }
    }
}

proof fn loaded_after(
    expect: Seq<Option<usize>>,
    allocations: Seq<Binding>,
    out: Seq<RegOp>,
    more: Seq<RegOp>,
    limit: int,
    o: SsaOp,
    p: Picks,
)
    requires
        matches(expect, allocations, limit),
        loaded(allocations, out),
        allocations.len() <= usize::MAX,
        o.out < allocations.len(),
        spec_arity(o.code) >= 1 ==> o.lhs < allocations.len() && o.lhs != o.out,
        spec_arity(o.code) >= 2 ==> o.rhs < allocations.len() && o.rhs != o.out,
        p.lhs_fresh ==> spec_arity(o.code) >= 1,
        p.rhs_fresh ==> spec_arity(o.code) >= 2,
        forall|m: int|
            !(#[trigger] settled(out, m)) && allocations[o.out as int] != Binding::Memory(
                m as usize,
            ) && !(p.lhs_fresh && allocations[o.lhs as int] == Binding::Memory(m as usize)) && !(
            p.rhs_fresh && allocations[o.rhs as int] == Binding::Memory(m as usize)) ==> !settled(
                more,
                m,
            ),
    ensures
        loaded(bound_after(allocations, o, p), more),
{
    reveal(loaded);
    let bound = bound_after(allocations, o, p);
    assert forall|s: int| 0 <= s < bound.len() && (#[trigger] bound[s]) is Memory implies !settled(
        more,
        bound[s]->Memory_0 as int,
    ) by {
        assert(allocations[s] == bound[s]);
        let m = allocations[s]->Memory_0;
        assert(expect[m as int] == Some(s as usize));
        assert(!settled(out, m as int));
        assert(match allocations[o.out as int] {
            Binding::Memory(n) => expect[n as int] == Some(o.out),
            _ => true,
        });
        if p.lhs_fresh {
            assert(match allocations[o.lhs as int] {
                Binding::Memory(n) => expect[n as int] == Some(o.lhs),
                _ => true,
            });
        }
        if p.rhs_fresh {
            assert(match allocations[o.rhs as int] {
                Binding::Memory(n) => expect[n as int] == Some(o.rhs),
                _ => true,
            });
        }
    }
}

proof fn filled_is_packed(out: Seq<RegOp>, limit: int, total: int)
    requires
        filled(out, limit, total),
    ensures
        packed(out.reverse(), limit, total),
{
    reveal(filled);
    if total != limit {
        let ops = out.reverse();
        let len = out.len() as int;
        let k = choose|k: int| #[trigger] full_from(out, k, limit, total);
        let head = out.take(k);
        let p = len - k;
        assert forall|m: int| limit <= m < total implies #[trigger] in_use(ops, p, m) by {
            assert(!settled(head, m));
            let i = choose|i: int|
                0 <= i < head.len() && (#[trigger] head[i]).code == OpCode::Load && head[i].slot
                    == m && !stored_after(head, i, m);
            let j = len - 1 - i;
            assert(ops[j] == out[i]);
            assert(head[i] == out[i]);
            if stored_between(ops, p, j, m) {
                let t = choose|t: int|
                    p <= t < j && (#[trigger] ops[t]).code == OpCode::Store && ops[t].slot == m;
                let back = len - 1 - t;
                assert(ops[t] == out[back]);
                assert(head[back] == out[back]);
                assert(stored_after(head, i, m));
            }
        }
        assert(all_in_use(ops, p, limit, total));
    }
}

impl RegisterAllocator {
    /// The invariant of the allocator.  Bindings and registers agree; every
    /// operation emitted keeps to the register limit and to the slots in
    /// use; a load that no store yet matches reads a memory slot to which
    /// some slot is still bound, so that its store is still to come; and
    /// nothing is expected in a memory slot that is free for reuse.
    #[verifier::opaque]
    pub closed spec fn wf(&self) -> bool {
        &&& self.reg_limit >= MIN_REGISTERS
        &&& self.registers.len() == self.reg_limit
        &&& self.used.len() == self.reg_limit
        &&& self.total_slots >= self.reg_limit
        &&& 0 < self.allocations.len() <= MAX_OPS
        &&& self.steps <= self.allocations.len()
        &&& self.total_slots <= self.reg_limit + 2 * self.steps + 2
        &&& self.expect@.len() == self.total_slots
        &&& forall|s: int|
            0 <= s < self.allocations.len() ==> match #[trigger] self.allocations[s] {
                Binding::Register(r) => s >= self.steps && r < self.reg_limit
                    && self.registers[r as int] == Some(s as usize),
                Binding::Memory(m) => s >= self.steps && self.reg_limit <= m < self.total_slots,
                Binding::Unassigned => true,
            }
        &&& forall|r: int|
            0 <= r < self.registers.len() && (#[trigger] self.registers[r]) is Some
                ==> self.registers[r]->Some_0 < self.allocations.len()
                && self.allocations[self.registers[r]->Some_0 as int] == Binding::Register(r as u8)
        &&& forall|i: int|
            0 <= i < self.spare_memory.len() ==> self.reg_limit <= #[trigger] self.spare_memory[i]
                < self.total_slots && self.expect@[self.spare_memory[i] as int] is None
        &&& forall|i: int, j: int|
            0 <= i < j < self.spare_memory.len() ==> self.spare_memory[i] != self.spare_memory[j]
        &&& regs_ok(self.out@, self.reg_limit as int, self.total_slots as int)
        &&& forall|i: int|
            0 <= i < self.out.len() && (#[trigger] self.out[i]).code == OpCode::Load
                && !stored_after(self.out@, i, self.out[i].slot as int) ==> bound_memory(
                self.allocations@,
                self.out[i].slot as int,
            )
    }

    /// Whether the operations emitted so far compute what the operations
    /// taken so far say, given what is expected in the registers and memory
    /// slots.
    pub closed spec fn sound_now(&self) -> bool {
        sound(self.out@, self.expect@, self.seen@)
    }

    /// Whether what is expected is what the bindings say, every operation
    /// taken is counted, no more than two memory slots were made for each of
    /// them, and none was made while another was free: every memory slot is
    /// free or bound, a bound one has a load that no store yet matches, and
    /// at some time all of them had one at once.
    #[verifier::opaque]
    pub closed spec fn stable(&self) -> bool {
        &&& matches(self.expect@, self.allocations@, self.reg_limit as int)
        &&& self.seen@.len() == self.steps
        &&& self.total_slots <= self.reg_limit + 2 * self.steps
        &&& self.spills_ok()
    }

    /// Whether no memory slot was made while another was free.
    pub closed spec fn spills_ok(&self) -> bool {
        &&& spare_or_bound(
            self.allocations@,
            self.spare_memory@,
            self.reg_limit as int,
            self.total_slots as int,
        )
        &&& loaded(self.allocations@, self.out@)
        &&& filled(self.out@, self.reg_limit as int, self.total_slots as int)
    }

    /// The state of the allocation, without what is only there for proofs.
    pub closed spec fn ledger(&self) -> Ledger {
        Ledger {
            allocations: self.allocations@,
            registers: self.registers@,
            used: self.used@,
            clock: self.clock,
            spare: self.spare_memory@,
            total: self.total_slots,
            out: self.out@,
            steps: self.steps,
        }
    }

    /// The number of registers.
    pub closed spec fn limit(&self) -> int {
        self.reg_limit as int
    }

    /// The number of slots in use, registers included.
    pub closed spec fn slots(&self) -> int {
        self.total_slots as int
    }

    /// The number of operations taken so far.
    pub closed spec fn steps(&self) -> int {
        self.steps as int
    }

    /// The operations taken so far.
    pub closed spec fn taken(&self) -> Seq<SsaOp> {
        self.seen@
    }

    /// The number of symbolic slots.
    pub closed spec fn size(&self) -> int {
        self.allocations.len() as int
    }

    /// The operations emitted so far, last to run first.
    pub closed spec fn emitted(&self) -> Seq<RegOp> {
        self.out@
    }

    /// Whether no slot is bound.
    pub closed spec fn idle(&self) -> bool {
        forall|s: int|
            0 <= s < self.allocations.len() ==> #[trigger] self.allocations[s]
                == Binding::Unassigned
    }

    /// An allocator for `size` symbolic slots and `reg_limit` registers.  The
    /// value of slot 0, the root, is expected in register 0.  Fails with
    /// `BadRegisterLimit` for fewer than four registers, else with
    /// `MalformedExpr` for no slots and for more than `MAX_OPS` slots.
    pub fn new(reg_limit: u8, size: usize) -> (r: Result<RegisterAllocator, Error>)
        ensures
            reg_limit < MIN_REGISTERS ==> r is Err && r->Err_0 == Error::BadRegisterLimit,
            reg_limit >= MIN_REGISTERS && (size == 0 || size > MAX_OPS) ==> r is Err && r->Err_0
                == Error::MalformedExpr,
            reg_limit >= MIN_REGISTERS && 0 < size <= MAX_OPS ==> r is Ok && r->Ok_0.wf()
                && r->Ok_0.stable() && r->Ok_0.sound_now() && r->Ok_0.limit() == reg_limit
                && r->Ok_0.size() == size && r->Ok_0.steps() == 0 && r->Ok_0.taken() == Seq::<
                SsaOp,
            >::empty() && r->Ok_0.emitted() == Seq::<RegOp>::empty() && r->Ok_0.slots()
                == reg_limit && r->Ok_0.ledger() == start(reg_limit, size as nat),
    {
        reveal(RegisterAllocator::wf);
        reveal(RegisterAllocator::stable);
        if reg_limit < MIN_REGISTERS {
            return Err(Error::BadRegisterLimit);
        }
        if size == 0 || size > MAX_OPS {
            return Err(Error::MalformedExpr);
        }
        let mut allocations: Vec<Binding> = Vec::new();
        let mut s: usize = 0;
        while s < size
            invariant
                s <= size,
                allocations.len() == s,
                forall|t: int|
                    0 <= t < s ==> #[trigger] allocations[t] == (if t == 0 {
                        Binding::Register(0)
                    } else {
                        Binding::Unassigned
                    }),
            decreases size - s,
        {
            allocations.push(
                if s == 0 {
                    Binding::Register(0)
                } else {
                    Binding::Unassigned
                },
            );
            s = s + 1;
        }
        let mut registers: Vec<Option<usize>> = Vec::new();
        let mut used: Vec<u64> = Vec::new();
        let mut r: u8 = 0;
        while r < reg_limit
            invariant
                r <= reg_limit,
                registers.len() == r,
                used.len() == r,
                forall|q: int| 0 <= q < r ==> #[trigger] used[q] == 0,
                forall|q: int|
                    0 <= q < r ==> #[trigger] registers[q] == (if q == 0 {
                        Some(0usize)
                    } else {
                        None
                    }),
            decreases reg_limit - r,
        {
            registers.push(
                if r == 0 {
                    Some(0)
                } else {
                    None
                },
            );
            used.push(0);
            r = r + 1;
        }
        let ghost expect = registers@;
        proof {
            sound_at_start(expect);
            reveal(spare_or_bound);
            reveal(loaded);
            reveal(filled);
            let first = start(reg_limit, size as nat);
            assert(allocations@ =~= first.allocations);
            assert(registers@ =~= first.registers);
            assert(used@ =~= first.used);
        }
        Ok(
            RegisterAllocator {
                reg_limit,
                allocations,
                registers,
                used,
                clock: 1,
                spare_memory: Vec::new(),
                total_slots: reg_limit as usize,
                out: Vec::new(),
                steps: 0,
                expect: Ghost(expect),
                seen: Ghost(Seq::empty()),
            },
        )
    }

    /// Notes that the register `r` was used just now: the time of its last
    /// use becomes the present time, and time moves on by one, unless it has
    /// reached the largest time there is.  The register that was used
    /// longest ago is the one with the smallest time of last use.
    fn touch(&mut self, r: u8)
        requires
            old(self).wf(),
            r < old(self).reg_limit,
        ensures
            final(self).ledger() == touched(old(self).ledger(), r),
            final(self).wf(),
            final(self).used@ == old(self).used@.update(r as int, old(self).clock),
            final(self).clock == (if old(self).clock < u64::MAX {
                (old(self).clock + 1) as u64
            } else {
                old(self).clock
            }),
            final(self).reg_limit == old(self).reg_limit,
            final(self).allocations == old(self).allocations,
            final(self).registers == old(self).registers,
            final(self).spare_memory == old(self).spare_memory,
            final(self).total_slots == old(self).total_slots,
            final(self).steps == old(self).steps,
            final(self).out == old(self).out,
            final(self).expect == old(self).expect,
            final(self).seen == old(self).seen,
    {
        reveal(RegisterAllocator::wf);
        self.used.set(r as usize, self.clock);
        if self.clock < u64::MAX {
            self.clock = self.clock + 1;
        }
    }

    /// Appends an operation that is not a load, after which `next` is
    /// expected and `more` are the operations taken.
    fn push(&mut self, op: RegOp, Ghost(next): Ghost<Seq<Option<usize>>>, Ghost(more): Ghost<Seq<SsaOp>>)
        requires
            old(self).wf(),
            reg_op_ok(op, old(self).reg_limit as int, old(self).total_slots as int),
            op.code != OpCode::Load,
            sound(old(self).out@.push(op), next, more),
            next.len() == old(self).expect@.len(),
            forall|i: int|
                0 <= i < old(self).spare_memory.len() ==> next[(
                #[trigger] old(self).spare_memory[i]) as int] is None,
        ensures
            final(self).ledger() == (Ledger { out: old(self).out@.push(op), ..old(self).ledger() }),
            final(self).wf(),
            final(self).sound_now(),
            final(self).reg_limit == old(self).reg_limit,
            final(self).allocations == old(self).allocations,
            final(self).registers == old(self).registers,
            final(self).spare_memory == old(self).spare_memory,
            final(self).total_slots == old(self).total_slots,
            final(self).steps == old(self).steps,
            final(self).out@ == old(self).out@.push(op),
            final(self).expect@ == next,
            final(self).seen@ == more,
            strip(final(self).out@) == (if spec_is_transfer(op.code) {
                strip(old(self).out@)
            } else {
                strip(old(self).out@).push(op)
            }),
    {
        reveal(RegisterAllocator::wf);
        let ghost before = self.out@;
        self.out.push(op);
        self.expect = Ghost(next);
        self.seen = Ghost(more);
        assert(self.out@.drop_last() =~= before);
        assert forall|i: int|
            0 <= i < self.out.len() && (#[trigger] self.out[i]).code == OpCode::Load
                && !stored_after(self.out@, i, self.out[i].slot as int) implies bound_memory(
            self.allocations@,
            self.out[i].slot as int,
        ) by {
            assert(before[i] == self.out[i]);
            if stored_after(before, i, before[i].slot as int) {
                let j = choose|j: int|
                    i < j < before.len() && (#[trigger] before[j]).code == OpCode::Store
                        && before[j].slot == before[i].slot;
                assert(self.out[j] == before[j]);
            }
        }
    }

    /// A register that holds no value, other than `pin`.  If every other
    /// register holds one, the register that was used longest ago is freed:
    /// its slot is bound to a memory slot instead, and a load is emitted that
    /// brings the value back for the operations that run later.
    fn get_register(&mut self, pin: Option<u8>) -> (r: u8)
        requires
            old(self).wf(),
            old(self).sound_now(),
            matches(old(self).expect@, old(self).allocations@, old(self).reg_limit as int),
            old(self).total_slots <= old(self).reg_limit + 2 * old(self).steps + 1,
            old(self).spills_ok(),
        ensures
            (final(self).ledger(), r) == evicted(old(self).ledger(), pin),
            final(self).wf(),
            final(self).sound_now(),
            matches(final(self).expect@, final(self).allocations@, final(self).reg_limit as int),
            final(self).spills_ok(),
            final(self).reg_limit == old(self).reg_limit,
            final(self).steps == old(self).steps,
            final(self).seen == old(self).seen,
            final(self).allocations.len() == old(self).allocations.len(),
            old(self).total_slots <= final(self).total_slots <= old(self).total_slots + 1,
            strip(final(self).out@) == strip(old(self).out@),
            final(self).out.len() >= old(self).out.len(),
            forall|i: int|
                0 <= i < old(self).out.len() ==> #[trigger] final(self).out[i] == old(self).out[i],
            r < final(self).reg_limit && Some(r) != pin && final(self).registers[r as int] is None,
            forall|s: int|
                0 <= s < old(self).allocations.len() && #[trigger] final(self).allocations[s]
                    != old(self).allocations[s] ==> old(self).allocations[s] == Binding::Register(
                    r,
                ) && final(self).allocations[s] is Memory,
            forall|q: int|
                0 <= q < old(self).registers.len() && #[trigger] final(self).registers[q] != old(self).registers[q] ==> r == q as u8,
    {
        reveal(RegisterAllocator::wf);
        let limit = self.reg_limit;
        let mut q: u8 = 0;
        while q < limit
            invariant
                q <= limit,
                limit == self.reg_limit,
                self.registers.len() == limit,
                first_free(self.registers@, pin, 0) == first_free(self.registers@, pin, q as int),
                self.wf(),
                self.sound_now(),
                matches(self.expect@, self.allocations@, self.reg_limit as int),
                self.spills_ok(),
                *self == *old(self),
            decreases limit - q,
        {
            if self.registers[q as usize].is_none() && pin != Some(q) {
                return q;
            }
            q = q + 1;
        }
        let mut victim: u8 = if pin == Some(0) {
            1
        } else {
            0
        };
        let ghost first: u8 = victim;
        let mut c: u8 = 0;
        while c < limit
            invariant
                c <= limit,
                limit == self.reg_limit,
                self.used.len() == limit,
                self.registers.len() == limit,
                first_free(self.registers@, pin, 0) is None,
                first == (if pin == Some(0u8) {
                    1u8
                } else {
                    0u8
                }),
                oldest(self.used@, pin, 0, first) == oldest(self.used@, pin, c as int, victim),
                self.wf(),
                self.sound_now(),
                matches(self.expect@, self.allocations@, self.reg_limit as int),
                self.spills_ok(),
                *self == *old(self),
                victim < limit,
                Some(victim) != pin,
            decreases limit - c,
        {
            if pin != Some(c) && self.used[c as usize] < self.used[victim as usize] {
                victim = c;
            }
            c = c + 1;
        }
        let holder = match self.registers[victim as usize] {
            Some(s) => s,
            None => {
                return victim;
            },
        };
        let ghost wide = self.expect@;
        let ghost spare0 = self.spare_memory@;
        let ghost total0 = self.total_slots as int;
        let mem: usize = if self.spare_memory.len() > 0 {
            let last = self.spare_memory.len() - 1;
            let m = self.spare_memory[last];
            let ghost spare = self.spare_memory@;
            self.spare_memory.pop();
            assert(forall|i: int| 0 <= i < self.spare_memory.len() ==> self.spare_memory[i] == spare[i]);
            assert(forall|i: int| 0 <= i < self.spare_memory.len() ==> self.spare_memory[i] != m);
            m
        } else {
            let m = self.total_slots;
            self.total_slots = self.total_slots + 1;
            proof {
                sound_with_room(self.out@, self.expect@, self.seen@);
            }
            self.expect = Ghost(self.expect@.push(None));
            m
        };
        let ghost room = self.expect@;
        assert(forall|loc: int| 0 <= loc < wide.len() ==> room[loc] == wide[loc]);
        assert(room[mem as int] is None);
        let ghost before = self.out@;
        let ghost bindings = self.allocations@;
        self.allocations.set(holder, Binding::Memory(mem));
        self.registers.set(victim as usize, None);
        let load = RegOp {
            code: OpCode::Load,
            out: victim,
            lhs: 0,
            rhs: 0,
            imm: 0,
            slot: mem,
            choice: 0,
        };
        proof {
            sound_after_load(self.out@, room, self.seen@, load);
        }
        self.out.push(load);
        self.expect = Ghost(room.update(victim as int, None).update(mem as int, room[victim as int]));
        assert(self.out@.drop_last() =~= before);
        assert(self.allocations@[holder as int] == Binding::Memory(mem));
        assert(bound_memory(self.allocations@, mem as int));
        assert(wide[victim as int] == Some(holder));
        assert forall|i: int|
            0 <= i < self.out.len() && (#[trigger] self.out[i]).code == OpCode::Load
                && !stored_after(self.out@, i, self.out[i].slot as int) implies bound_memory(
            self.allocations@,
            self.out[i].slot as int,
        ) by {
            if i < before.len() {
                assert(before[i] == self.out[i]);
                if stored_after(before, i, before[i].slot as int) {
                    let j = choose|j: int|
                        i < j < before.len() && (#[trigger] before[j]).code == OpCode::Store
                            && before[j].slot == before[i].slot;
                    assert(self.out[j] == before[j]);
                }
                assert(bound_memory(bindings, before[i].slot as int));
                let s = choose|s: int|
                    0 <= s < bindings.len() && #[trigger] bindings[s] == Binding::Memory(
                        before[i].slot,
                    );
                assert(self.allocations@[s] == bindings[s]);
            }
        }
        assert(regs_ok(self.out@, self.reg_limit as int, self.total_slots as int)) by {
            assert forall|i: int| 0 <= i < self.out.len() implies reg_op_ok(
                #[trigger] self.out[i],
                self.reg_limit as int,
                self.total_slots as int,
            ) by {
                if i < before.len() {
                    assert(before[i] == self.out[i]);
                }
            }
        }
        assert(matches(self.expect@, self.allocations@, self.reg_limit as int)) by {
            assert forall|s: int| 0 <= s < self.allocations@.len() implies match #[trigger] self.allocations@[s] {
                Binding::Register(r) => self.expect@[r as int] == Some(s as usize),
                Binding::Memory(m) => self.expect@[m as int] == Some(s as usize),
                Binding::Unassigned => true,
            } by {
                if s != holder {
                    assert(self.allocations@[s] == bindings[s]);
                }
            }
        }
        proof {
            let lim = self.reg_limit as int;
            let total = self.total_slots as int;
            assert(loaded(self.allocations@, self.out@)) by {
                reveal(loaded);
                assert forall|s: int|
                    0 <= s < self.allocations@.len() && (#[trigger] self.allocations@[s])
                        is Memory implies !settled(
                    self.out@,
                    self.allocations@[s]->Memory_0 as int,
                ) by {
                    if s == holder {
                        unsettled_by_load(before, load);
                    } else {
                        assert(self.allocations@[s] == bindings[s]);
                        unsettled_after_push(before, load, bindings[s]->Memory_0 as int);
                    }
                }
            }
            assert(spare_or_bound(self.allocations@, self.spare_memory@, lim, total)) by {
                reveal(spare_or_bound);
                assert forall|m: int| lim <= m < total implies self.spare_memory@.contains(
                    m as usize,
                ) || #[trigger] bound_memory(self.allocations@, m) by {
                    if m != mem {
                        assert(m < total0);
                        assert(spare0.contains(m as usize) || bound_memory(bindings, m));
                        if spare0.contains(m as usize) {
                            let i = choose|i: int| 0 <= i < spare0.len() && spare0[i] == m as usize;
                            assert(self.spare_memory@[i] == m as usize);
                        } else {
                            let t = choose|t: int|
                                0 <= t < bindings.len() && #[trigger] bindings[t]
                                    == Binding::Memory(m as usize);
                            assert(self.allocations@[t] == bindings[t]);
                        }
                    }
                }
            }
            if spare0.len() > 0 {
                filled_grows(before, self.out@, lim, total);
            } else {
                assert(filled(self.out@, lim, total)) by {
                    reveal(filled);
                    reveal(spare_or_bound);
                    reveal(loaded);
                    let k = self.out@.len() as int;
                    assert(self.out@.take(k) =~= self.out@);
                    assert forall|m: int| lim <= m < total implies !#[trigger] settled(
                        self.out@.take(k),
                        m,
                    ) by {
                        if m == mem {
                            unsettled_by_load(before, load);
                        } else {
                            assert(bound_memory(bindings, m));
                            let t = choose|t: int|
                                0 <= t < bindings.len() && #[trigger] bindings[t]
                                    == Binding::Memory(m as usize);
                            unsettled_after_push(before, load, m);
                        }
                    }
                    assert(full_from(self.out@, k, lim, total));
                }
            }
        }
        victim
    }

    /// Unbinds the slot `s`.  Its register, if it has one, holds no value
    /// afterwards; its memory slot, if it has one, can be used again.
    fn release(&mut self, s: usize)
        requires
            old(self).wf(),
            s < old(self).allocations.len(),
            old(self).allocations[s as int] is Memory ==> settled(
                old(self).out@,
                old(self).allocations[s as int]->Memory_0 as int,
            ) && old(self).expect@[old(self).allocations[s as int]->Memory_0 as int] is None
                && !old(self).spare_memory@.contains(old(self).allocations[s as int]->Memory_0),
        ensures
            final(self).ledger() == released(old(self).ledger(), s),
            final(self).wf(),
            final(self).reg_limit == old(self).reg_limit,
            final(self).allocations@ == old(self).allocations@.update(
                s as int,
                Binding::Unassigned,
            ),
            final(self).registers@ == (match old(self).allocations[s as int] {
                Binding::Register(r) => old(self).registers@.update(r as int, None),
                _ => old(self).registers@,
            }),
            final(self).spare_memory@ == (match old(self).allocations[s as int] {
                Binding::Memory(m) => old(self).spare_memory@.push(m),
                _ => old(self).spare_memory@,
            }),
            final(self).total_slots == old(self).total_slots,
            final(self).steps == old(self).steps,
            final(self).out == old(self).out,
            final(self).expect == old(self).expect,
            final(self).seen == old(self).seen,
    {
        reveal(RegisterAllocator::wf);
        let ghost bindings = self.allocations@;
        match self.allocations[s] {
            Binding::Register(r) => {
                self.registers.set(r as usize, None);
            },
            Binding::Memory(m) => {
                let ghost spare = self.spare_memory@;
                self.spare_memory.push(m);
                assert(forall|i: int| 0 <= i < spare.len() ==> self.spare_memory[i] == spare[i]);
                assert(forall|i: int| 0 <= i < spare.len() ==> spare[i] != m);
            },
            Binding::Unassigned => {},
        }
        self.allocations.set(s, Binding::Unassigned);
        assert forall|i: int|
            0 <= i < self.out.len() && (#[trigger] self.out[i]).code == OpCode::Load
                && !stored_after(self.out@, i, self.out[i].slot as int) implies bound_memory(
            self.allocations@,
            self.out[i].slot as int,
        ) by {
            let t = choose|t: int|
                0 <= t < bindings.len() && #[trigger] bindings[t] == Binding::Memory(
                    self.out[i].slot,
                );
            assert(self.allocations@[t] == bindings[t]);
        }
    }

    /// Binds the slot `s`, which has no register, to the register `r`, which
    /// holds no value.  The memory slot of `s`, if it has one, can be used
    /// again.
    fn bind(&mut self, s: usize, r: u8)
        requires
            old(self).wf(),
            s < old(self).allocations.len(),
            r < old(self).reg_limit,
            s >= old(self).steps,
            old(self).registers[r as int] is None,
            !(old(self).allocations[s as int] is Register),
            old(self).allocations[s as int] is Memory ==> settled(
                old(self).out@,
                old(self).allocations[s as int]->Memory_0 as int,
            ) && old(self).expect@[old(self).allocations[s as int]->Memory_0 as int] is None
                && !old(self).spare_memory@.contains(old(self).allocations[s as int]->Memory_0),
        ensures
            final(self).ledger() == bound_to(old(self).ledger(), s, r),
            final(self).wf(),
            final(self).reg_limit == old(self).reg_limit,
            final(self).allocations@ == old(self).allocations@.update(
                s as int,
                Binding::Register(r),
            ),
            final(self).registers@ == old(self).registers@.update(r as int, Some(s)),
            final(self).spare_memory@ == (match old(self).allocations[s as int] {
                Binding::Memory(m) => old(self).spare_memory@.push(m),
                _ => old(self).spare_memory@,
            }),
            final(self).total_slots == old(self).total_slots,
            final(self).steps == old(self).steps,
            final(self).out == old(self).out,
            final(self).expect == old(self).expect,
            final(self).seen == old(self).seen,
    {
        reveal(RegisterAllocator::wf);
        let ghost bindings = self.allocations@;
        match self.allocations[s] {
            Binding::Memory(m) => {
                let ghost spare = self.spare_memory@;
                self.spare_memory.push(m);
                assert(forall|i: int| 0 <= i < spare.len() ==> self.spare_memory[i] == spare[i]);
                assert(forall|i: int| 0 <= i < spare.len() ==> spare[i] != m);
            },
            _ => {},
        }
        self.allocations.set(s, Binding::Register(r));
        self.registers.set(r as usize, Some(s));
        assert forall|i: int|
            0 <= i < self.out.len() && (#[trigger] self.out[i]).code == OpCode::Load
                && !stored_after(self.out@, i, self.out[i].slot as int) implies bound_memory(
            self.allocations@,
            self.out[i].slot as int,
        ) by {
            let t = choose|t: int|
                0 <= t < bindings.len() && #[trigger] bindings[t] == Binding::Memory(
                    self.out[i].slot,
                );
            assert(self.allocations@[t] == bindings[t]);
        }
    }

    /// What the invariant says of the binding of one slot.
    proof fn binding_facts(&self, s: int)
        requires
            self.wf(),
            0 <= s < self.allocations.len(),
        ensures
            self.reg_limit >= MIN_REGISTERS,
            self.registers.len() == self.reg_limit,
            self.expect@.len() == self.total_slots,
            self.total_slots >= self.reg_limit,
            match self.allocations[s] {
                Binding::Register(r) => r < self.reg_limit && self.registers[r as int] == Some(
                    s as usize,
                ),
                Binding::Memory(m) => self.reg_limit <= m < self.total_slots,
                Binding::Unassigned => true,
            },
    {
        reveal(RegisterAllocator::wf);
    }

    /// What the invariant says of all bindings, and of the registers that
    /// hold no value.
    proof fn all_binding_facts(&self)
        requires
            self.wf(),
            matches(self.expect@, self.allocations@, self.reg_limit as int),
        ensures
            self.reg_limit >= MIN_REGISTERS,
            self.registers.len() == self.reg_limit,
            self.expect@.len() == self.total_slots,
            self.total_slots >= self.reg_limit,
            forall|r: int|
                0 <= r < self.reg_limit && (#[trigger] self.registers[r]) is None
                    ==> self.expect@[r] is None,
            forall|s: int|
                0 <= s < self.allocations.len() ==> match #[trigger] self.allocations[s] {
                    Binding::Register(r) => r < self.reg_limit,
                    Binding::Memory(m) => self.reg_limit <= m < self.expect@.len(),
                    Binding::Unassigned => true,
                },
    {
        reveal(RegisterAllocator::wf);
        assert forall|r: int|
            0 <= r < self.reg_limit && (#[trigger] self.registers[r]) is None implies self.expect@[r]
            is None by {
            self.free_is_unexpected(r);
        }
    }

    /// A memory slot to which a slot is bound is not free for reuse, as long
    /// as what is expected is what the bindings say.
    proof fn bound_is_not_spare(&self, s: int)
        requires
            self.wf(),
            matches(self.expect@, self.allocations@, self.reg_limit as int),
            0 <= s < self.allocations.len(),
            self.allocations[s] is Memory,
        ensures
            !self.spare_memory@.contains(self.allocations[s]->Memory_0),
            self.expect@[self.allocations[s]->Memory_0 as int] == Some(s as usize),
    {
        reveal(RegisterAllocator::wf);
        let m = self.allocations[s]->Memory_0;
        if self.spare_memory@.contains(m) {
            let i = choose|i: int| 0 <= i < self.spare_memory@.len() && self.spare_memory@[i] == m;
            assert(self.expect@[self.spare_memory[i] as int] is None);
        }
    }

    /// Nothing is expected in a register that holds no value.
    proof fn free_is_unexpected(&self, r: int)
        requires
            self.wf(),
            matches(self.expect@, self.allocations@, self.reg_limit as int),
            0 <= r < self.reg_limit,
            self.registers[r] is None,
        ensures
            self.expect@[r] is None,
    {
        reveal(RegisterAllocator::wf);
        if self.expect@[r] is Some {
            let s = self.expect@[r]->Some_0 as int;
            assert(self.allocations[s] == Binding::Register(r as u8));
        }
    }

    /// Emits a store of the register `r` to the memory slot of `s`, if `s`
    /// is bound to one.
    fn store_if_in_memory(&mut self, s: usize, r: u8)
        requires
            old(self).wf(),
            old(self).sound_now(),
            s < old(self).allocations.len(),
            r < old(self).reg_limit,
            old(self).allocations[s as int] is Memory ==> old(self).expect@[old(self).allocations[s as int]->Memory_0 as int] == Some(s) && (old(self).expect@[r as int]
                is None || old(self).expect@[r as int] == Some(s)),
        ensures
            final(self).ledger() == with_store(old(self).ledger(), s, r),
            final(self).wf(),
            final(self).sound_now(),
            final(self).reg_limit == old(self).reg_limit,
            final(self).allocations == old(self).allocations,
            final(self).registers == old(self).registers,
            final(self).spare_memory == old(self).spare_memory,
            final(self).total_slots == old(self).total_slots,
            final(self).steps == old(self).steps,
            final(self).seen == old(self).seen,
            final(self).expect@ == (match old(self).allocations[s as int] {
                Binding::Memory(m) => old(self).expect@.update(m as int, None).update(
                    r as int,
                    Some(s),
                ),
                _ => old(self).expect@,
            }),
            strip(final(self).out@) == strip(old(self).out@),
            forall|m: int| settled(old(self).out@, m) ==> settled(final(self).out@, m),
            old(self).allocations[s as int] is Memory ==> settled(
                final(self).out@,
                old(self).allocations[s as int]->Memory_0 as int,
            ),
            final(self).out.len() >= old(self).out.len(),
            forall|i: int|
                0 <= i < old(self).out.len() ==> #[trigger] final(self).out[i] == old(self).out[i],
            forall|m: int|
                !(#[trigger] settled(old(self).out@, m)) && old(self).allocations[s as int]
                    != Binding::Memory(m as usize) ==> !settled(final(self).out@, m),
    {
        proof {
            self.binding_facts(s as int);
        }
        match self.allocations[s] {
            Binding::Memory(m) => {
                let store = RegOp {
                    code: OpCode::Store,
                    out: 0,
                    lhs: r,
                    rhs: 0,
                    imm: 0,
                    slot: m,
                    choice: 0,
                };
                let ghost before = self.out@;
                let ghost next = self.expect@.update(m as int, None).update(r as int, Some(s));
                proof {
                    sound_after_store(self.out@, self.expect@, self.seen@, store);
                    reveal(RegisterAllocator::wf);
                }
                self.push(store, Ghost(next), Ghost(self.seen@));
                proof {
                    settled_by_store(before, store);
                    assert forall|k: int| settled(before, k) implies settled(self.out@, k) by {
                        settled_after_push(before, store, k);
                    }
                    assert forall|k: int|
                        !(#[trigger] settled(before, k)) && Binding::Memory(m) != Binding::Memory(
                            k as usize,
                        ) implies !settled(self.out@, k) by {
                        unsettled_after_push(before, store, k);
                    }
                }
            },
            _ => {},
        }
    }

    /// Picks the registers of an operation: that of its result, and those of
    /// its operands.  An operand that has no register yet takes the register
    /// of the result, or a free one if the other operand has taken that; the
    /// flags say which operands are to be bound afterwards.
    fn pick_registers(&mut self, o: SsaOp) -> (r: Picks)
        requires
            old(self).wf(),
            old(self).sound_now(),
            old(self).stable(),
            o.out < old(self).allocations.len(),
            spec_arity(o.code) >= 1 ==> o.lhs < old(self).allocations.len() && o.lhs != o.out,
            spec_arity(o.code) >= 2 ==> o.rhs < old(self).allocations.len() && o.rhs != o.out,
        ensures
            (final(self).ledger(), r) == with_picks(old(self).ledger(), o),
            final(self).wf(),
            final(self).sound_now(),
            matches(final(self).expect@, final(self).allocations@, final(self).reg_limit as int),
            final(self).spills_ok(),
            final(self).reg_limit == old(self).reg_limit,
            final(self).steps == old(self).steps,
            final(self).seen == old(self).seen,
            final(self).allocations.len() == old(self).allocations.len(),
            final(self).total_slots >= old(self).total_slots,
            final(self).total_slots <= final(self).reg_limit + 2 * final(self).steps + 2,
            strip(final(self).out@) == strip(old(self).out@),
            picked(final(self).allocations@, final(self).registers@, final(self).reg_limit as int, o, r),
    {
        proof {
            reveal(RegisterAllocator::stable);
        }
        let n = arity(o.code);
        if n >= 1 {
            proof {
                self.binding_facts(o.lhs as int);
            }
            match self.allocations[o.lhs] {
                Binding::Register(q) => {
                    self.touch(q);
                },
                _ => {},
            }
        }
        if n >= 2 {
            proof {
                self.binding_facts(o.rhs as int);
            }
            match self.allocations[o.rhs] {
                Binding::Register(q) => {
                    self.touch(q);
                },
                _ => {},
            }
        }
        proof {
            self.binding_facts(o.out as int);
        }
        let r_out: u8 = match self.allocations[o.out] {
            Binding::Register(q) => q,
            _ => self.get_register(None),
        };
        proof {
            self.binding_facts(o.out as int);
        }
        let mut reused = false;
        let mut r_lhs: u8 = r_out;
        let mut lhs_fresh = false;
        if n >= 1 {
            proof {
                self.binding_facts(o.lhs as int);
            }
            match self.allocations[o.lhs] {
                Binding::Register(q) => {
                    r_lhs = q;
                },
                _ => {
                    reused = true;
                    lhs_fresh = true;
                },
            }
        }
        let mut r_rhs: u8 = r_out;
        let mut rhs_fresh = false;
        if n >= 2 {
            if o.rhs == o.lhs {
                r_rhs = r_lhs;
            } else {
                proof {
                    self.binding_facts(o.rhs as int);
                }
                match self.allocations[o.rhs] {
                    Binding::Register(q) => {
                        r_rhs = q;
                    },
                    _ => {
                        rhs_fresh = true;
                        if reused {
                            let ghost bindings = self.allocations@;
                            let ghost regs = self.registers@;
                            r_rhs = self.get_register(Some(r_out));
                            assert(self.allocations[o.rhs as int] == bindings[o.rhs as int]);
                            assert(self.allocations[o.lhs as int] == bindings[o.lhs as int]);
                            assert(self.allocations[o.out as int] == bindings[o.out as int]);
                            assert(self.registers[r_out as int] == regs[r_out as int]);
                        }
                    },
                }
            }
        }
        Picks { r_out, r_lhs, r_rhs, lhs_fresh, rhs_fresh }
    }

    /// Counts one operation as taken, once its result is unbound.
    fn advance(&mut self)
        requires
            old(self).wf(),
            old(self).steps < old(self).allocations.len(),
            old(self).allocations[old(self).steps as int] == Binding::Unassigned,
        ensures
            final(self).ledger() == (Ledger { steps: (old(self).steps + 1) as usize, ..old(self).ledger() }),
            final(self).wf(),
            final(self).total_slots <= final(self).reg_limit + 2 * final(self).steps,
            final(self).reg_limit == old(self).reg_limit,
            final(self).allocations == old(self).allocations,
            final(self).registers == old(self).registers,
            final(self).spare_memory == old(self).spare_memory,
            final(self).total_slots == old(self).total_slots,
            final(self).out == old(self).out,
            final(self).expect == old(self).expect,
            final(self).seen == old(self).seen,
            final(self).steps == old(self).steps + 1,
    {
        reveal(RegisterAllocator::wf);
        self.steps = self.steps + 1;
    }

    /// Emits an operation on the registers picked for it, with the stores
    /// that it needs: that of its result, if later operations expect the
    /// result in memory, after it; those of its operands, if later
    /// operations expect them in memory, before it.
    fn emit(&mut self, o: SsaOp, p: Picks)
        requires
            old(self).wf(),
            old(self).sound_now(),
            matches(old(self).expect@, old(self).allocations@, old(self).reg_limit as int),
            old(self).seen@.len() == old(self).steps,
            o.out == old(self).steps,
            !spec_is_transfer(o.code),
            o.out < old(self).allocations.len(),
            spec_arity(o.code) >= 1 ==> o.lhs < old(self).allocations.len() && o.lhs != o.out,
            spec_arity(o.code) >= 2 ==> o.rhs < old(self).allocations.len() && o.rhs != o.out,
            picked(old(self).allocations@, old(self).registers@, old(self).reg_limit as int, o, p),
        ensures
            final(self).ledger() == with_op(old(self).ledger(), o, p),
            final(self).wf(),
            final(self).sound_now(),
            final(self).reg_limit == old(self).reg_limit,
            final(self).allocations == old(self).allocations,
            final(self).registers == old(self).registers,
            final(self).spare_memory == old(self).spare_memory,
            final(self).total_slots == old(self).total_slots,
            final(self).steps == old(self).steps,
            final(self).seen@ == old(self).seen@.push(o),
            final(self).expect@ == expect_after(old(self).expect@, old(self).allocations@, o, p),
            strip(final(self).out@).len() == strip(old(self).out@).len() + 1,
            strip(final(self).out@).drop_last() == strip(old(self).out@),
            lowers(o, strip(final(self).out@).last()),
            old(self).allocations[o.out as int] is Memory ==> settled(
                final(self).out@,
                old(self).allocations[o.out as int]->Memory_0 as int,
            ),
            p.lhs_fresh && old(self).allocations[o.lhs as int] is Memory ==> settled(
                final(self).out@,
                old(self).allocations[o.lhs as int]->Memory_0 as int,
            ),
            p.rhs_fresh && old(self).allocations[o.rhs as int] is Memory ==> settled(
                final(self).out@,
                old(self).allocations[o.rhs as int]->Memory_0 as int,
            ),
            final(self).out.len() >= old(self).out.len(),
            forall|i: int|
                0 <= i < old(self).out.len() ==> #[trigger] final(self).out[i] == old(self).out[i],
            forall|m: int|
                !(#[trigger] settled(old(self).out@, m)) && old(self).allocations[o.out as int]
                    != Binding::Memory(m as usize) && !(p.lhs_fresh
                    && old(self).allocations[o.lhs as int] == Binding::Memory(m as usize)) && !(
                p.rhs_fresh && old(self).allocations[o.rhs as int] == Binding::Memory(m as usize))
                    ==> !settled(final(self).out@, m),
    {
        let ghost plain = strip(self.out@);
        let ghost out0 = self.out@;
        let ghost w0 = self.expect@;
        let ghost b0 = self.allocations@;
        let ghost limit = self.reg_limit as int;
        proof {
            self.binding_facts(o.out as int);
            if b0[o.out as int] is Memory {
                self.bound_is_not_spare(o.out as int);
            } else if !(b0[o.out as int] is Register) {
                self.free_is_unexpected(p.r_out as int);
            }
            if b0[o.out as int] is Memory {
                self.free_is_unexpected(p.r_out as int);
            }
            if spec_arity(o.code) >= 1 {
                self.binding_facts(o.lhs as int);
                if b0[o.lhs as int] is Memory {
                    self.bound_is_not_spare(o.lhs as int);
                }
            }
            if spec_arity(o.code) >= 2 {
                self.binding_facts(o.rhs as int);
                if b0[o.rhs as int] is Memory {
                    self.bound_is_not_spare(o.rhs as int);
                }
                if p.rhs_fresh && p.r_rhs != p.r_out {
                    self.free_is_unexpected(p.r_rhs as int);
                }
            }
        }
        self.store_if_in_memory(o.out, p.r_out);
        let x = RegOp {
            code: o.code,
            out: p.r_out,
            lhs: p.r_lhs,
            rhs: p.r_rhs,
            imm: o.imm,
            slot: 0,
            choice: o.choice,
        };
        let ghost before = self.out@;
        let ghost w1 = self.expect@;
        let ghost next = expect_before(w1, o, x);
        proof {
            self.binding_facts(o.out as int);
            assert(w1 == stored(w0, b0, o.out, p.r_out));
            sound_after_op(self.out@, w1, self.seen@, o, x);
            reveal(RegisterAllocator::wf);
        }
        self.push(x, Ghost(next), Ghost(self.seen@.push(o)));
        let ghost out2 = self.out@;
        proof {
            assert forall|k: int| settled(before, k) implies settled(self.out@, k) by {
                settled_after_push(before, x, k);
            }
            assert forall|k: int| !(#[trigger] settled(before, k)) implies !settled(out2, k) by {
                unsettled_after_push(before, x, k);
            }
        }
        if p.lhs_fresh {
            self.store_if_in_memory(o.lhs, p.r_lhs);
        }
        let ghost out3 = self.out@;
        if p.rhs_fresh {
            self.store_if_in_memory(o.rhs, p.r_rhs);
        }
        assert(strip(self.out@) == plain.push(x));
        assert(strip(self.out@).drop_last() =~= plain);
        assert forall|m: int|
            !(#[trigger] settled(out0, m)) && b0[o.out as int] != Binding::Memory(m as usize) && !(
            p.lhs_fresh && b0[o.lhs as int] == Binding::Memory(m as usize)) && !(p.rhs_fresh
                && b0[o.rhs as int] == Binding::Memory(m as usize)) implies !settled(
            self.out@,
            m,
        ) by {
            assert(!settled(before, m));
            assert(!settled(out2, m));
            assert(!settled(out3, m));
        }
    }

    /// Takes the next operation of the tape, root first, and emits it on
    /// registers, with the stores and loads that it needs.  The register of
    /// its result is free afterwards; its operands are bound to registers.
    /// Fails with `MalformedExpr`, and changes nothing, unless the operation
    /// defines the next slot and reads only slots after that one.
    pub fn op(&mut self, o: SsaOp) -> (r: Result<(), Error>)
        requires
            old(self).wf(),
            old(self).stable(),
            old(self).sound_now(),
        ensures
            r is Ok ==> final(self).ledger() == taken_op(old(self).ledger(), o),
            r is Err ==> final(self).ledger() == old(self).ledger(),
            final(self).wf(),
            final(self).stable(),
            final(self).sound_now(),
            final(self).limit() == old(self).limit(),
            final(self).size() == old(self).size(),
            final(self).slots() >= old(self).slots(),
            r is Ok <==> ssa_op_ok(o, old(self).steps(), old(self).size()) && old(self).steps()
                < old(self).size(),
            r is Err ==> r->Err_0 == Error::MalformedExpr && final(self).steps() == old(self).steps() && final(self).emitted() == old(self).emitted() && final(self).taken()
                == old(self).taken(),
            r is Ok ==> final(self).steps() == old(self).steps() + 1 && final(self).taken()
                == old(self).taken().push(o),
            r is Ok ==> strip(final(self).emitted()).len() == strip(old(self).emitted()).len() + 1
                && strip(final(self).emitted()).drop_last() == strip(old(self).emitted())
                && lowers(o, strip(final(self).emitted()).last()),
    {
        let size = self.allocations.len();
        let n = arity(o.code);
        if is_transfer(o.code) || o.out != self.steps || o.out >= size {
            return Err(Error::MalformedExpr);
        }
        if n >= 1 && (o.lhs >= size || o.lhs <= o.out) {
            return Err(Error::MalformedExpr);
        }
        if n >= 2 && (o.rhs >= size || o.rhs <= o.out) {
            return Err(Error::MalformedExpr);
        }
        proof {
            reveal(RegisterAllocator::stable);
        }
        let p = self.pick_registers(o);
        let ghost w0 = self.expect@;
        let ghost b0 = self.allocations@;
        let ghost regs = self.registers@;
        let ghost limit = self.reg_limit as int;
        proof {
            self.binding_facts(o.out as int);
            if b0[o.out as int] is Memory {
                self.bound_is_not_spare(o.out as int);
            }
            if n >= 1 {
                self.binding_facts(o.lhs as int);
                if b0[o.lhs as int] is Memory {
                    self.bound_is_not_spare(o.lhs as int);
                }
            }
            if n >= 2 {
                self.binding_facts(o.rhs as int);
                if b0[o.rhs as int] is Memory {
                    self.bound_is_not_spare(o.rhs as int);
                }
            }
            self.all_binding_facts();
            matches_after(w0, b0, regs, limit, o, p);
        }
        let ghost out0 = self.out@;
        let ghost spare0 = self.spare_memory@;
        let ghost total = self.total_slots as int;
        self.emit(o, p);
        proof {
            self.binding_facts(o.out as int);
            filled_grows(out0, self.out@, limit, total);
            loaded_after(w0, b0, out0, self.out@, limit, o, p);
            unbound_is_spare(b0, spare0, limit, total, o.out as int, Binding::Unassigned);
        }
        self.release(o.out);
        let ghost b1 = self.allocations@;
        let ghost spare1 = self.spare_memory@;
        if p.lhs_fresh {
            proof {
                unbound_is_spare(b1, spare1, limit, total, o.lhs as int, Binding::Register(p.r_lhs));
            }
            self.bind(o.lhs, p.r_lhs);
        }
        let ghost b2 = self.allocations@;
        let ghost spare2 = self.spare_memory@;
        if p.rhs_fresh {
            proof {
                unbound_is_spare(b2, spare2, limit, total, o.rhs as int, Binding::Register(p.r_rhs));
            }
            self.bind(o.rhs, p.r_rhs);
        }
        self.touch(p.r_out);
        self.advance();
        assert(self.allocations@ =~= bound_after(b0, o, p));
        Ok(())
    }

    /// Ends the allocation: the operations in the order in which they run,
    /// and the number of slots that they use.  That is the number of the
    /// registers plus the largest number of values that the operations have
    /// in memory at once: a memory slot that is free again is used before a
    /// new one is made.  Fails with `MalformedExpr` if a slot is still bound,
    /// which is not so once every operation of the tape was taken.
    pub fn finalize(self) -> (r: Result<(Vec<RegOp>, usize), Error>)
        requires
            self.wf(),
            self.stable(),
            self.sound_now(),
        ensures
            r is Ok ==> r->Ok_0.0@ == self.ledger().out.reverse() && r->Ok_0.1 == self.ledger().total,
            r is Err <==> !self.idle(),
            self.steps() == self.size() ==> r is Ok,
            r is Err ==> r->Err_0 == Error::MalformedExpr,
            r is Ok ==> r->Ok_0.0@ == self.emitted().reverse() && r->Ok_0.1 == self.slots()
                && regs_ok(r->Ok_0.0@, self.limit(), self.slots()) && loads_follow_stores(
                r->Ok_0.0@,
            ),
            r is Ok ==> computes_all(r->Ok_0.0@, self.taken(), self.slots()),
            r is Ok ==> packed(r->Ok_0.0@, self.limit(), self.slots()) && slots_are_needed(
                r->Ok_0.0@,
                self.limit(),
                self.slots(),
            ),
    {
        reveal(RegisterAllocator::wf);
        let mut s: usize = 0;
        while s < self.allocations.len()
            invariant
                s <= self.allocations.len(),
                self.wf(),
                forall|t: int| 0 <= t < s ==> #[trigger] self.allocations[t] == Binding::Unassigned,
            decreases self.allocations.len() - s,
        {
            match self.allocations[s] {
                Binding::Unassigned => {},
                _ => {
                    proof {
                        reveal(RegisterAllocator::wf);
                    }
                    return Err(Error::MalformedExpr);
                },
            }
            s = s + 1;
        }
        let len = self.out.len();
        let mut ops: Vec<RegOp> = Vec::new();
        let mut k: usize = 0;
        while k < len
            invariant
                k <= len,
                len == self.out.len(),
                ops.len() == k,
                forall|t: int| 0 <= t < k ==> #[trigger] ops[t] == self.out[len - 1 - t],
            decreases len - k,
        {
            ops.push(self.out[len - 1 - k]);
            k = k + 1;
        }
        assert(ops@ =~= self.out@.reverse());
        assert forall|i: int|
            0 <= i < ops.len() && (#[trigger] ops[i]).code == OpCode::Load implies stored_before(
            ops@,
            i,
            ops[i].slot as int,
        ) by {
            let back = len - 1 - i;
            assert(self.out[back] == ops[i]);
            if !stored_after(self.out@, back, self.out[back].slot as int) {
                let t = choose|t: int|
                    0 <= t < self.allocations.len() && #[trigger] self.allocations[t]
                        == Binding::Memory(self.out[back].slot);
                assert(self.allocations[t] == Binding::Unassigned);
            }
            let j = choose|j: int|
                back < j < self.out.len() && (#[trigger] self.out[j]).code == OpCode::Store
                    && self.out[j].slot == self.out[back].slot;
            assert(ops[len - 1 - j] == self.out[j]);
        }
        assert forall|i: int| 0 <= i < ops.len() implies reg_op_ok(
            #[trigger] ops[i],
            self.reg_limit as int,
            self.total_slots as int,
        ) by {
            assert(ops[i] == self.out[len - 1 - i]);
        }
        proof {
            reveal(RegisterAllocator::stable);
            assert forall|loc: int| 0 <= loc < self.expect@.len() implies (
            #[trigger] self.expect@[loc]) is None by {
                if self.expect@[loc] is Some {
                    let t = self.expect@[loc]->Some_0 as int;
                    assert(self.allocations[t] == Binding::Unassigned);
                }
            }
            sound_at_end(self.out@, self.expect@, self.seen@);
            filled_is_packed(self.out@, self.reg_limit as int, self.total_slots as int);
            packed_slots_are_needed(ops@, self.reg_limit as int, self.total_slots as int);
        }
        Ok((ops, self.total_slots))
    }
}

/// The registers picked for an operation, and which of its operands are to
/// be bound to them.
#[derive(Clone, Copy)]
pub struct Picks {
    pub r_out: u8,
    pub r_lhs: u8,
    pub r_rhs: u8,
    pub lhs_fresh: bool,
    pub rhs_fresh: bool,
}

/// What holds of the registers picked for the operation `o`.
pub open spec fn picked(
    allocations: Seq<Binding>,
    registers: Seq<Option<usize>>,
    limit: int,
    o: SsaOp,
    p: Picks,
) -> bool {
    &&& p.r_out < limit
    &&& p.r_lhs < limit
    &&& p.r_rhs < limit
    &&& allocations[o.out as int] == Binding::Register(p.r_out) || (!(allocations[o.out as int]
        is Register) && registers[p.r_out as int] is None)
    &&& spec_arity(o.code) >= 1 && !p.lhs_fresh ==> allocations[o.lhs as int] == Binding::Register(
        p.r_lhs,
    )
    &&& p.lhs_fresh ==> spec_arity(o.code) >= 1 && !(allocations[o.lhs as int] is Register)
        && p.r_lhs == p.r_out
    &&& spec_arity(o.code) >= 2 && !p.rhs_fresh ==> (if o.rhs == o.lhs {
        p.r_rhs == p.r_lhs
    } else {
        allocations[o.rhs as int] == Binding::Register(p.r_rhs)
    })
    &&& p.rhs_fresh ==> spec_arity(o.code) >= 2 && !(allocations[o.rhs as int] is Register)
        && o.rhs != o.lhs
    &&& p.rhs_fresh && p.r_rhs != p.r_out ==> registers[p.r_rhs as int] is None
    &&& p.rhs_fresh && p.r_rhs == p.r_out ==> !p.lhs_fresh
}

/// What is expected once a store of the register `r` to the memory slot of
/// `s` is emitted, if `s` is bound to one.
pub open spec fn stored(
    expect: Seq<Option<usize>>,
    allocations: Seq<Binding>,
    s: usize,
    r: u8,
) -> Seq<Option<usize>> {
    match allocations[s as int] {
        Binding::Memory(m) => expect.update(m as int, None).update(r as int, Some(s)),
        _ => expect,
    }
}

/// The operation `o` on the registers picked for it.
pub open spec fn on_registers(o: SsaOp, p: Picks) -> RegOp {
    RegOp {
        code: o.code,
        out: p.r_out,
        lhs: p.r_lhs,
        rhs: p.r_rhs,
        imm: o.imm,
        slot: 0,
        choice: o.choice,
    }
}

/// What is expected once the operation `o` is emitted with its stores.
pub open spec fn expect_after(
    expect: Seq<Option<usize>>,
    allocations: Seq<Binding>,
    o: SsaOp,
    p: Picks,
) -> Seq<Option<usize>> {
    let w1 = stored(expect, allocations, o.out, p.r_out);
    let w2 = expect_before(w1, o, on_registers(o, p));
    let w3 = if p.lhs_fresh {
        stored(w2, allocations, o.lhs, p.r_lhs)
    } else {
        w2
    };
    if p.rhs_fresh {
        stored(w3, allocations, o.rhs, p.r_rhs)
    } else {
        w3
    }
}

/// The bindings once the operation `o` is taken: its result is unbound, and
/// its operands are bound to the registers picked for them.
pub open spec fn bound_after(allocations: Seq<Binding>, o: SsaOp, p: Picks) -> Seq<Binding> {
    let b1 = allocations.update(o.out as int, Binding::Unassigned);
    let b2 = if p.lhs_fresh {
        b1.update(o.lhs as int, Binding::Register(p.r_lhs))
    } else {
        b1
    };
    if p.rhs_fresh {
        b2.update(o.rhs as int, Binding::Register(p.r_rhs))
    } else {
        b2
    }
}

/// Once an operation is taken, what is expected is again what the bindings
/// say.
pub proof fn matches_after(
    expect: Seq<Option<usize>>,
    allocations: Seq<Binding>,
    registers: Seq<Option<usize>>,
    limit: int,
    o: SsaOp,
    p: Picks,
)
    requires
        matches(expect, allocations, limit),
        0 < limit <= 255,
        limit <= expect.len() <= usize::MAX,
        allocations.len() <= usize::MAX,
        registers.len() == limit,
        forall|r: int|
            0 <= r < limit && (#[trigger] registers[r]) is None ==> expect[r] is None,
        forall|s: int|
            0 <= s < allocations.len() ==> match #[trigger] allocations[s] {
                Binding::Register(r) => r < limit,
                Binding::Memory(m) => limit <= m < expect.len(),
                Binding::Unassigned => true,
            },
        o.out < allocations.len(),
        spec_arity(o.code) >= 1 ==> o.lhs < allocations.len() && o.lhs != o.out,
        spec_arity(o.code) >= 2 ==> o.rhs < allocations.len() && o.rhs != o.out,
        picked(allocations, registers, limit, o, p),
    ensures
        matches(expect_after(expect, allocations, o, p), bound_after(allocations, o, p), limit),
{
    let after = expect_after(expect, allocations, o, p);
    let bound = bound_after(allocations, o, p);
    assert forall|s: int| 0 <= s < bound.len() implies match #[trigger] bound[s] {
        Binding::Register(r) => after[r as int] == Some(s as usize),
        Binding::Memory(m) => after[m as int] == Some(s as usize),
        Binding::Unassigned => true,
    } by {
        assert(match allocations[s] {
            Binding::Register(r) => expect[r as int] == Some(s as usize),
            Binding::Memory(m) => expect[m as int] == Some(s as usize),
            Binding::Unassigned => true,
        });
        assert(match allocations[o.out as int] {
            Binding::Register(r) => expect[r as int] == Some(o.out),
            Binding::Memory(m) => expect[m as int] == Some(o.out),
            Binding::Unassigned => true,
        });
        if spec_arity(o.code) >= 1 {
            assert(match allocations[o.lhs as int] {
                Binding::Register(r) => expect[r as int] == Some(o.lhs),
                Binding::Memory(m) => expect[m as int] == Some(o.lhs),
                Binding::Unassigned => true,
            });
        }
        if spec_arity(o.code) >= 2 {
            assert(match allocations[o.rhs as int] {
                Binding::Register(r) => expect[r as int] == Some(o.rhs),
                Binding::Memory(m) => expect[m as int] == Some(o.rhs),
                Binding::Unassigned => true,
            });
        }
    }
    assert forall|loc: int| 0 <= loc < after.len() && (#[trigger] after[loc]) is Some implies after[loc]->Some_0
        < bound.len() && (if loc < limit {
        bound[after[loc]->Some_0 as int] == Binding::Register(loc as u8)
    } else {
        bound[after[loc]->Some_0 as int] == Binding::Memory(loc as usize)
    }) by {
        assert(expect[loc] is Some ==> expect[loc]->Some_0 < allocations.len() && (if loc
            < limit {
            allocations[expect[loc]->Some_0 as int] == Binding::Register(loc as u8)
        } else {
            allocations[expect[loc]->Some_0 as int] == Binding::Memory(loc as usize)
        }));
    }
}

} // verus!
