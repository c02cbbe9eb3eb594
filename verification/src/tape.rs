//! The runnable tape of an expression, and its compilation.

use crate::allocator::{lowers, strip, RegisterAllocator, MAX_OPS, MIN_REGISTERS};
use crate::context::{Context, Node, Op};
use crate::error::Error;
use crate::op::{
    is_choice, loads_follow_stores, regs_ok, slots_are_needed, spec_is_choice, ssa_ok, RegOp,
    SsaOp,
};
use crate::plan::{schedule, schedule_of, unschedulable, Schedule, INLINE_WEIGHT};
use crate::policy::{allocated_ops, allocated_slots, taken_all};
use crate::schedule::{choice_index, choices_from, live_choice};
use crate::ssa::{build, encodes, flat, node_term, tape_of, SsaTape};
use crate::simplify::coherent;
use crate::term::slot_term;
use crate::term::faithful;
use vstd::prelude::*;

verus! {

/// The number of registers of a tape unless the caller says otherwise.
pub const REG_LIMIT: u8 = 24;

/// Whether every minimum and maximum of `ops` has a choice index below
/// `count`.
pub open spec fn ssa_choices_ok(ops: Seq<SsaOp>, count: int) -> bool {
    forall|i: int|
        0 <= i < ops.len() && spec_is_choice((#[trigger] ops[i]).code) ==> ops[i].choice < count
}

/// Whether every minimum and maximum of `ops` has a choice index below
/// `count`.
pub open spec fn reg_choices_ok(ops: Seq<RegOp>, count: int) -> bool {
    forall|i: int|
        0 <= i < ops.len() && spec_is_choice((#[trigger] ops[i]).code) ==> ops[i].choice < count
}

/// Whether the register tape `ops` is the tape `ssa` on registers: without
/// its loads and stores, and read from its end, it has the operations of
/// `ssa`, each with the same code, immediate operand and choice.
pub open spec fn lowered(ssa: Seq<SsaOp>, ops: Seq<RegOp>) -> bool {
    let plain = strip(ops.reverse());
    plain.len() == ssa.len() && forall|k: int|
        0 <= k < ssa.len() ==> lowers(#[trigger] ssa[k], plain[k])
}

/// A runnable tape.  Its view is the sequence of its operations on
/// registers, in the order in which they run; the value of the expression
/// is in register 0 at the end.
pub struct Tape {
    ssa: Vec<SsaOp>,
    ops: Vec<RegOp>,
    slot_count: usize,
    choice_count: usize,
    reg_limit: u8,
}

impl View for Tape {
    type V = Seq<RegOp>;

    closed spec fn view(&self) -> Seq<RegOp> {
        self.ops@
    }
}

impl Tape {
    #[verifier::type_invariant]
    spec fn inv(self) -> bool {
        &&& self.reg_limit >= MIN_REGISTERS
        &&& self.slot_count >= self.reg_limit
        &&& 0 < self.ssa.len() <= MAX_OPS
        &&& ssa_ok(self.ssa@)
        &&& ssa_choices_ok(self.ssa@, self.choice_count as int)
        &&& regs_ok(self.ops@, self.reg_limit as int, self.slot_count as int)
        &&& loads_follow_stores(self.ops@)
        &&& slots_are_needed(self.ops@, self.reg_limit as int, self.slot_count as int)
        &&& self.ops@ == allocated_ops(self.ssa@, self.reg_limit)
        &&& self.slot_count == allocated_slots(self.ssa@, self.reg_limit)
        &&& reg_choices_ok(self.ops@, self.choice_count as int)
        &&& lowered(self.ssa@, self.ops@)
        &&& faithful(self.ssa@, self.ops@, self.slot_count as int)
        &&& coherent(self.ssa@)
    }

    /// The operations on symbolic slots, root first.
    pub closed spec fn ssa_view(&self) -> Seq<SsaOp> {
        self.ssa@
    }

    /// The number of slots, registers included.
    pub closed spec fn slots(&self) -> int {
        self.slot_count as int
    }

    /// The number of choices.
    pub closed spec fn choices(&self) -> int {
        self.choice_count as int
    }

    /// The number of registers.
    pub closed spec fn limit(&self) -> int {
        self.reg_limit as int
    }

    /// What holds of every tape: it has at least four registers; every
    /// register that an operation names is below the register limit, and
    /// every memory slot is from the limit up and below the slot count;
    /// every load reads a memory slot that an earlier store wrote; the slot
    /// count is the register limit plus the largest number of values in
    /// memory at once; every choice index is below the choice count; the
    /// operations on registers are those on symbolic slots; they compute
    /// the term of the root and log its choices, whatever the slots hold at
    /// first; and operations that share a choice have the same term.  The
    /// operations on registers, and the slot count, are those that the
    /// allocator's rules give for the operations on symbolic slots.  Calling
    /// this brings those facts into a proof; it does nothing at run time.
    pub fn well_formed(&self)
        ensures
            self.limit() >= MIN_REGISTERS,
            self.slots() >= self.limit(),
            0 < self.ssa_view().len() <= MAX_OPS,
            ssa_ok(self.ssa_view()),
            ssa_choices_ok(self.ssa_view(), self.choices()),
            regs_ok(self@, self.limit(), self.slots()),
            loads_follow_stores(self@),
            slots_are_needed(self@, self.limit(), self.slots()),
            self.limit() <= u8::MAX,
            self@ == allocated_ops(self.ssa_view(), self.limit() as u8),
            self.slots() == allocated_slots(self.ssa_view(), self.limit() as u8),
            reg_choices_ok(self@, self.choices()),
            lowered(self.ssa_view(), self@),
            faithful(self.ssa_view(), self@, self.slots()),
            coherent(self.ssa_view()),
    {
        proof {
            use_type_invariant(self);
        }
    }

    /// The operations on registers, in the order in which they run.
    pub fn ops(&self) -> (r: &Vec<RegOp>)
        ensures
            r@ == self@,
    {
        &self.ops
    }

    /// The operations on symbolic slots, root first.
    pub fn ssa(&self) -> (r: &Vec<SsaOp>)
        ensures
            r@ == self.ssa_view(),
    {
        &self.ssa
    }

    /// The number of operations on registers.
    pub fn len(&self) -> (r: usize)
        ensures
            r == self@.len(),
    {
        self.ops.len()
    }

    /// The number of slots that the tape uses, registers included.
    pub fn slot_count(&self) -> (r: usize)
        ensures
            r == self.slots(),
    {
        self.slot_count
    }

    /// The number of choices of the tape: the length of its choice buffer.
    pub fn choice_count(&self) -> (r: usize)
        ensures
            r == self.choices(),
    {
        self.choice_count
    }

    /// The number of registers of the tape.
    pub fn reg_limit(&self) -> (r: u8)
        ensures
            r == self.limit(),
    {
        self.reg_limit
    }

    /// Allocates registers for a tape on symbolic slots: the result is the
    /// tape that `allocated_ops` gives, so that the same operations and the
    /// same number of registers give the same tape.  The tape uses as
    /// many slots as it has registers, and one more for each of the values
    /// that are in memory at once where that number is largest.  Fails with
    /// `BadRegisterLimit` for fewer than four registers, else with
    /// `MalformedExpr` for more than `MAX_OPS` operations and where a choice
    /// index is not below `choice_count`.
    pub fn allocate(ssa: Vec<SsaOp>, choice_count: usize, reg_limit: u8) -> (r: Result<
        Tape,
        Error,
    >)
        requires
            ssa.len() > 0,
            ssa_ok(ssa@),
            coherent(ssa@),
        ensures
            reg_limit < MIN_REGISTERS ==> r is Err && r->Err_0 == Error::BadRegisterLimit,
            reg_limit >= MIN_REGISTERS ==> (r is Err <==> ssa.len() > MAX_OPS || !ssa_choices_ok(
                ssa@,
                choice_count as int,
            )),
            reg_limit >= MIN_REGISTERS && r is Err ==> r->Err_0 == Error::MalformedExpr,
            r is Ok ==> r->Ok_0.ssa_view() == ssa@ && r->Ok_0.choices() == choice_count
                && r->Ok_0.limit() == reg_limit,
            r is Ok ==> regs_ok(r->Ok_0@, r->Ok_0.limit(), r->Ok_0.slots()) && loads_follow_stores(
                r->Ok_0@,
            ) && lowered(ssa@, r->Ok_0@) && faithful(ssa@, r->Ok_0@, r->Ok_0.slots()),
            r is Ok ==> slots_are_needed(r->Ok_0@, r->Ok_0.limit(), r->Ok_0.slots()),
            r is Ok ==> r->Ok_0@ == allocated_ops(ssa@, reg_limit) && r->Ok_0.slots()
                == allocated_slots(ssa@, reg_limit),
    {
        let mut alloc = match RegisterAllocator::new(reg_limit, ssa.len()) {
            Ok(a) => a,
            Err(e) => {
                return Err(e);
            },
        };
        let mut j: usize = 0;
        while j < ssa.len()
            invariant
                j <= ssa.len(),
                reg_limit >= MIN_REGISTERS,
                ssa.len() <= MAX_OPS,
                forall|i: int|
                    0 <= i < j && spec_is_choice((#[trigger] ssa[i]).code) ==> ssa[i].choice
                        < choice_count,
            decreases ssa.len() - j,
        {
            if is_choice(ssa[j].code) && ssa[j].choice >= choice_count {
                return Err(Error::MalformedExpr);
            }
            j = j + 1;
        }
        let mut i: usize = 0;
        while i < ssa.len()
            invariant
                i <= ssa.len(),
                ssa_ok(ssa@),
                reg_limit >= MIN_REGISTERS,
                alloc.wf(),
                alloc.stable(),
                alloc.sound_now(),
                alloc.limit() == reg_limit,
                alloc.size() == ssa.len(),
                alloc.steps() == i,
                alloc.taken() == ssa@.take(i as int),
                alloc.ledger() == taken_all(reg_limit, ssa@, i as int),
                alloc.slots() >= reg_limit,
                strip(alloc.emitted()).len() == i,
                forall|k: int| 0 <= k < i ==> lowers(#[trigger] ssa[k], strip(alloc.emitted())[k]),
            decreases ssa.len() - i,
        {
            let ghost plain = strip(alloc.emitted());
            let o = ssa[i];
            assert(crate::op::ssa_op_ok(ssa@[i as int], i as int, ssa.len() as int));
            match alloc.op(o) {
                Ok(()) => {},
                Err(_) => {
                    assert(false);
                },
            }
            assert forall|k: int| 0 <= k < i + 1 implies lowers(
                #[trigger] ssa[k],
                strip(alloc.emitted())[k],
            ) by {
                if k < i {
                    assert(strip(alloc.emitted()).drop_last()[k] == plain[k]);
                }
            }
            assert(ssa@.take(i + 1) =~= ssa@.take(i as int).push(o));
            i = i + 1;
        }
        assert(ssa@.take(ssa.len() as int) =~= ssa@);
        let ghost emitted = alloc.emitted();
        let (ops, slot_count) = match alloc.finalize() {
            Ok(done) => done,
            Err(_) => {
                assert(false);
                return Err(Error::MalformedExpr);
            },
        };
        assert(ops@.reverse() =~= emitted);
        assert forall|k: int|
            0 <= k < ops.len() && spec_is_choice((#[trigger] ops[k]).code) implies ops[k].choice
            < choice_count by {
            let back = ops.len() - 1 - k;
            assert(emitted[back] == ops[k]);
            let w = in_strip(emitted, back);
            assert(lowers(ssa@[w], strip(emitted)[w]));
        }
        proof {
            crate::sound::computes_is_faithful(ssa@, ops@, slot_count as int);
        }
        let tape = Tape { ssa, ops, slot_count, choice_count, reg_limit };
        tape.well_formed();
        Ok(tape)
    }
}

/// Whether some operation reads a variable at an index of `count` or more.
pub open spec fn ssa_lacks_var(ops: Seq<SsaOp>, count: int) -> bool {
    exists|i: int|
        0 <= i < ops.len() && (#[trigger] ops[i]).code == crate::op::OpCode::Var && ops[i].imm
            >= count
}

/// Every operation that `strip` keeps is one of the operations.
pub proof fn from_strip(out: Seq<RegOp>, k: int) -> (i: int)
    requires
        0 <= k < strip(out).len(),
    ensures
        0 <= i < out.len(),
        out[i] == strip(out)[k],
    decreases out.len(),
{
    if crate::op::spec_is_transfer(out.last().code) {
        from_strip(out.drop_last(), k)
    } else if k == strip(out).len() - 1 {
        out.len() - 1
    } else {
        from_strip(out.drop_last(), k)
    }
}

/// A tape on registers reads the variables that the tape on symbolic slots
/// reads.
pub proof fn lowered_reads_same_vars(ssa: Seq<SsaOp>, ops: Seq<RegOp>, count: int)
    requires
        lowered(ssa, ops),
    ensures
        crate::point::lacks_var(ops, count) <==> ssa_lacks_var(ssa, count),
{
    let back = ops.reverse();
    if crate::point::lacks_var(ops, count) {
        let i = choose|i: int|
            0 <= i < ops.len() && (#[trigger] ops[i]).code == crate::op::OpCode::Var && ops[i].imm
                >= count;
        assert(back[ops.len() - 1 - i] == ops[i]);
        let k = in_strip(back, ops.len() - 1 - i);
        assert(lowers(ssa[k], strip(back)[k]));
    }
    if ssa_lacks_var(ssa, count) {
        let k = choose|k: int|
            0 <= k < ssa.len() && (#[trigger] ssa[k]).code == crate::op::OpCode::Var && ssa[k].imm
                >= count;
        assert(lowers(ssa[k], strip(back)[k]));
        let i = from_strip(back, k);
        assert(ops[ops.len() - 1 - i] == back[i]);
    }
}

/// Every operation that is not a transfer is one of those that `strip`
/// keeps.
pub proof fn in_strip(out: Seq<RegOp>, i: int) -> (k: int)
    requires
        0 <= i < out.len(),
        !crate::op::spec_is_transfer(out[i].code),
    ensures
        0 <= k < strip(out).len(),
        strip(out)[k] == out[i],
    decreases out.len(),
{
    if i == out.len() - 1 {
        strip(out).len() - 1
    } else {
        let k = in_strip(out.drop_last(), i);
        k
    }
}

/// Whether `t` is a tape of the expression below `root`: the tape, on
/// symbolic slots, of a schedule of that expression, with one choice for
/// every minimum and maximum that the root reaches.
pub open spec fn compiled(ops: Seq<Op>, root: int, max_weight: int, t: Tape) -> bool {
    &&& t.choices() == choices_from(ops, root, 0)
    &&& exists|s: Schedule, u: SsaTape|
        schedule_of(ops, root, max_weight, s) && #[trigger] tape_of(ops, root, s, u)
            && t.ssa_view() == u.ops@
}

/// The number of entries of `ids` that hold an index.
fn count_choices(ids: &Vec<Option<usize>>, Ghost(ops): Ghost<Seq<Op>>, Ghost(root): Ghost<int>) -> (r:
    usize)
    requires
        ids.len() == ops.len(),
        0 <= root < ops.len(),
        forall|n: int| 0 <= n < ops.len() ==> #[trigger] ids[n] == choice_index(ops, root, n),
    ensures
        r == choices_from(ops, root, 0),
{
    let mut count: usize = 0;
    let mut i: usize = ids.len();
    assert(forall|n: int| n > root ==> choices_from(ops, root, n) == 0);
    while i > 0
        invariant
            i <= ids.len(),
            ids.len() == ops.len(),
            0 <= root < ops.len(),
            forall|n: int| 0 <= n < ops.len() ==> #[trigger] ids[n] == choice_index(ops, root, n),
            count == choices_from(ops, root, i as int),
            count <= ids.len() - i,
        decreases i,
    {
        i = i - 1;
        assert(ids[i as int] == choice_index(ops, root, i as int));
        proof {
            if i as int > root {
                assert(!live_choice(ops, root, i as int)) by {
                    reveal_with_fuel(crate::schedule::reachable, 2);
                }
            }
        }
        if ids[i].is_some() {
            count = count + 1;
        }
    }
    count
}

/// Whether the tape of the expression below `root` has more than `MAX_OPS`
/// operations.
pub open spec fn oversized(ops: Seq<Op>, root: int, max_weight: int) -> bool {
    exists|s: Schedule| #[trigger]
        schedule_of(ops, root, max_weight, s) && flat(
            ops,
            root,
            s.members@,
            s.order@,
            s.order.len() as int,
        ).len() > MAX_OPS
}

/// The operation of a node is a minimum or maximum only if the node is one,
/// and then its choice is below the number of the choices.
proof fn choice_in_range(ops: Seq<Op>, root: int, nodes: Seq<Node>, i: int, o: SsaOp)
    requires
        0 <= root < ops.len() <= usize::MAX,
        0 <= i < nodes.len(),
        nodes[i].0 < ops.len(),
        encodes(ops, crate::plan::choice_table(ops, root), nodes, i, o),
        spec_is_choice(o.code),
    ensures
        o.choice < choices_from(ops, root, 0),
{
    let p = nodes[i].0 as int;
    assert(crate::context::is_choice(ops[p]));
    assert(choice_index(ops, root, p) == Some(o.choice));
    crate::schedule::choices_from_bounded(ops, root, p + 1);
    crate::schedule::choices_from_falls(ops, root, 0, p);
}

/// The tape of a scheduled expression has an operation for the root.
proof fn tape_is_not_empty(ops: Seq<Op>, root: int, max_weight: int, s: Schedule)
    requires
        crate::context::is_dag(ops),
        0 <= root < ops.len() <= usize::MAX,
        schedule_of(ops, root, max_weight, s),
    ensures
        flat(ops, root, s.members@, s.order@, s.order.len() as int).len() > 0,
{
    let inline = crate::plan::inline_table(ops, root, max_weight);
    assert(crate::groups::visited(ops, inline, root, root));
    crate::ssa::visited_has_home(ops, root, max_weight, s, root);
    let h = s.raw.home@[root]->Some_0 as int;
    crate::ssa::schedule_lists(ops, root, max_weight, s, h);
    crate::ssa::schedule_orders(ops, root, max_weight, s);
    assert(crate::members::member(ops, inline, s.raw.groups@[h].nodes@, root));
    assert(s.members@[h]@.contains(Node(root as usize)));
    let ih = choose|ih: int| 0 <= ih < s.members@[h]@.len() && s.members@[h]@[ih] == Node(root as usize);
    assert(s.order@.contains(h as usize));
    let jh = choose|jh: int| 0 <= jh < s.order@.len() && s.order@[jh] == h as usize;
    let list = crate::ssa::list_of(s.members@, s.order@, jh);
    assert(list.take(list.len() as int) =~= list);
    crate::ssa::emitted_at(ops, root, list, ih, list.len() as int);
    crate::ssa::flat_at(
        ops,
        root,
        s.members@,
        s.order@,
        s.order.len() as int,
        jh,
        crate::ssa::emitted_before(ops, root, list, ih),
    );
}

/// Compiles the expression below `root` to a tape with `reg_limit`
/// registers.  Fails with `InvalidNode` for a root that is not of this
/// context, else with `BadRegisterLimit` for fewer than four registers, else
/// with `MalformedExpr` where the groups of the expression use each other's
/// values in a cycle, and where the tape would have more than `MAX_OPS`
/// operations; it fails in no other case.  An expression without a minimum
/// or maximum has no such cycle and no more operations than nodes: with at
/// most `MAX_OPS` nodes in the context it compiles.  The result is
/// determined by the expression and the number of registers: the operations
/// on symbolic slots are those of the schedule of the expression, and the
/// operations on registers are those that the allocator's rules give for
/// them.  The tape uses as many slots as it has registers, and one more for
/// each of the values that are in memory at once where that number is
/// largest.
pub fn compile(ctx: &Context, root: Node, reg_limit: u8) -> (r: Result<Tape, Error>)
    ensures
        root.0 >= ctx@.len() ==> r is Err && r->Err_0 == Error::InvalidNode,
        root.0 < ctx@.len() && reg_limit < MIN_REGISTERS ==> r is Err && r->Err_0
            == Error::BadRegisterLimit,
        root.0 < ctx@.len() && reg_limit >= MIN_REGISTERS ==> (r is Err <==> unschedulable(
            ctx@,
            root.0 as int,
            INLINE_WEIGHT as int,
        ) || oversized(ctx@, root.0 as int, INLINE_WEIGHT as int)),
        root.0 < ctx@.len() && reg_limit >= MIN_REGISTERS && r is Err ==> r->Err_0
            == Error::MalformedExpr,
        root.0 < ctx@.len() && reg_limit >= MIN_REGISTERS && crate::straight::choice_free(ctx@)
            && ctx@.len() <= MAX_OPS ==> r is Ok,
        r is Ok ==> r->Ok_0.limit() == reg_limit && compiled(
            ctx@,
            root.0 as int,
            INLINE_WEIGHT as int,
            r->Ok_0,
        ),
        r is Ok ==> regs_ok(r->Ok_0@, reg_limit as int, r->Ok_0.slots()) && loads_follow_stores(
            r->Ok_0@,
        ) && slots_are_needed(r->Ok_0@, reg_limit as int, r->Ok_0.slots()),
        r is Ok ==> r->Ok_0@ == allocated_ops(r->Ok_0.ssa_view(), reg_limit) && r->Ok_0.slots()
            == allocated_slots(r->Ok_0.ssa_view(), reg_limit),
        r is Ok ==> slot_term(r->Ok_0.ssa_view(), 0) == node_term(ctx@, root.0 as int, root.0 as int),
        r is Ok ==> coherent(r->Ok_0.ssa_view()),
{
    if root.0 >= ctx.len() {
        return Err(Error::InvalidNode);
    }
    if reg_limit < MIN_REGISTERS {
        return Err(Error::BadRegisterLimit);
    }
    ctx.well_formed();
    let ghost cx = ctx@;
    let ghost top = root.0 as int;
    proof {
        if crate::straight::choice_free(cx) {
            crate::straight::straight_is_schedulable(cx, top, INLINE_WEIGHT as int);
            if cx.len() <= MAX_OPS {
                crate::straight::straight_fits(cx, top, INLINE_WEIGHT as int);
            }
        }
    }
    let s = match schedule(ctx, root, INLINE_WEIGHT) {
        Ok(s) => s,
        Err(e) => {
            return Err(e);
        },
    };
    proof {
        crate::ssa::schedule_tables(cx, top, INLINE_WEIGHT as int, s);
        crate::unique::scheduled_is_schedulable(cx, top, INLINE_WEIGHT as int, s);
        crate::unique::scheduled_fits(cx, top, INLINE_WEIGHT as int, s);
    }
    let u = match build(ctx, root, &s) {
        Ok(u) => u,
        Err(e) => {
            assert(false);
            return Err(e);
        },
    };
    let count = count_choices(&s.choice_id, Ghost(ctx@), Ghost(root.0 as int));
    proof {
        tape_is_not_empty(cx, top, INLINE_WEIGHT as int, s);
        assert forall|i: int|
            0 <= i < u.ops@.len() && spec_is_choice((#[trigger] u.ops@[i]).code) implies u.ops@[i].choice
            < count by {
            assert(u.nodes@[i].0 < cx.len());
            choice_in_range(cx, top, u.nodes@, i, u.ops@[i]);
        }
    }
    let ghost whole = u;
    proof {
        crate::laws::compiled_is_coherent(cx, top, s, whole);
    }
    let SsaTape { ops, nodes } = u;
    match Tape::allocate(ops, count, reg_limit) {
        Ok(t) => {
            assert(tape_of(ctx@, root.0 as int, s, whole));
            proof {
                crate::ssa::first_is_root(cx, top, INLINE_WEIGHT as int, s);
                crate::ssa::slot_is_node(cx, top, s, whole, 0);
            }
            Ok(t)
        },
        Err(e) => {
            assert(schedule_of(cx, top, INLINE_WEIGHT as int, s));
            Err(e)
        },
    }
}

/// Compiles the expression below `root` with the usual number of registers.
pub fn buildy(ctx: &Context, root: Node) -> (r: Result<Tape, Error>)
    ensures
        root.0 >= ctx@.len() ==> r is Err && r->Err_0 == Error::InvalidNode,
        root.0 < ctx@.len() ==> (r is Err <==> unschedulable(
            ctx@,
            root.0 as int,
            INLINE_WEIGHT as int,
        ) || oversized(ctx@, root.0 as int, INLINE_WEIGHT as int)),
        root.0 < ctx@.len() && r is Err ==> r->Err_0 == Error::MalformedExpr,
        root.0 < ctx@.len() && crate::straight::choice_free(ctx@) && ctx@.len() <= MAX_OPS ==> r
            is Ok,
        r is Ok ==> r->Ok_0.limit() == REG_LIMIT && compiled(
            ctx@,
            root.0 as int,
            INLINE_WEIGHT as int,
            r->Ok_0,
        ),
        r is Ok ==> regs_ok(r->Ok_0@, REG_LIMIT as int, r->Ok_0.slots()) && loads_follow_stores(
            r->Ok_0@,
        ) && slots_are_needed(r->Ok_0@, REG_LIMIT as int, r->Ok_0.slots()),
        r is Ok ==> r->Ok_0@ == allocated_ops(r->Ok_0.ssa_view(), REG_LIMIT) && r->Ok_0.slots()
            == allocated_slots(r->Ok_0.ssa_view(), REG_LIMIT),
        r is Ok ==> slot_term(r->Ok_0.ssa_view(), 0) == node_term(ctx@, root.0 as int, root.0 as int),
        r is Ok ==> coherent(r->Ok_0.ssa_view()),
{
    compile(ctx, root, REG_LIMIT)
}

} // verus!
