//! The tape on symbolic slots: one operation for every node of every group,
//! constants excepted, which become immediate operands of their users.
//!
//! The tape lists the root first.  Operation `i` defines slot `i`; the slots
//! that it reads are defined by later operations, which run earlier.  An
//! inline node has one operation in every group that uses it.

use crate::closure::{
    child_is_lighter, child_is_member, child_is_reachable, child_is_visited, heavy_member_is_base,
    visited_is_reachable,
};
use crate::context::{
    has_child, is_dag, op_below, Axis, BinaryOpcode, Context, Node, Op, UnaryOpcode,
};
use crate::error::Error;
use crate::groups::{id_of, index_at, marked, visited};
use crate::members::member;
use crate::order::{is_order, placed_before};
use crate::schedule::reachable;
use crate::op::{spec_arity, ssa_ok, ssa_op_ok, OpCode, SsaOp};
use crate::term::{made, slot_term, Term};
use crate::plan::{
    depends, home_of, inline_table, lists_members, points_into, schedule_of, Schedule,
};
use vstd::prelude::*;

verus! {

/// A tape on symbolic slots.  `nodes[i]` is the node whose value operation
/// `i` computes.
pub struct SsaTape {
    pub ops: Vec<SsaOp>,
    pub nodes: Vec<Node>,
}

/// The number that an `Input` operation carries for a coordinate.
pub open spec fn axis_code(axis: Axis) -> u32 {
    match axis {
        Axis::X => 0,
        Axis::Y => 1,
        Axis::Z => 2,
    }
}

/// The code of a unary operation on a slot.
pub open spec fn unary_code(opcode: UnaryOpcode) -> OpCode {
    match opcode {
        UnaryOpcode::Neg => OpCode::NegReg,
        UnaryOpcode::Abs => OpCode::AbsReg,
        UnaryOpcode::Recip => OpCode::RecipReg,
        UnaryOpcode::Sqrt => OpCode::SqrtReg,
        UnaryOpcode::Square => OpCode::SquareReg,
    }
}

/// The code of a binary operation on two slots.
pub open spec fn reg_reg_code(opcode: BinaryOpcode) -> OpCode {
    match opcode {
        BinaryOpcode::Add => OpCode::AddRegReg,
        BinaryOpcode::Sub => OpCode::SubRegReg,
        BinaryOpcode::Mul => OpCode::MulRegReg,
        BinaryOpcode::Div => OpCode::DivRegReg,
        BinaryOpcode::Min => OpCode::MinRegReg,
        BinaryOpcode::Max => OpCode::MaxRegReg,
    }
}

/// The code of a binary operation whose right operand is a constant.
pub open spec fn reg_imm_code(opcode: BinaryOpcode) -> OpCode {
    match opcode {
        BinaryOpcode::Add => OpCode::AddRegImm,
        BinaryOpcode::Sub => OpCode::SubRegImm,
        BinaryOpcode::Mul => OpCode::MulRegImm,
        BinaryOpcode::Div => OpCode::DivRegImm,
        BinaryOpcode::Min => OpCode::MinRegImm,
        BinaryOpcode::Max => OpCode::MaxRegImm,
    }
}

/// The code of a binary operation whose left operand is a constant.  Where
/// the operation commutes, the slot takes the place of the left operand.
pub open spec fn imm_reg_code(opcode: BinaryOpcode) -> OpCode {
    match opcode {
        BinaryOpcode::Add => OpCode::AddRegImm,
        BinaryOpcode::Sub => OpCode::SubImmReg,
        BinaryOpcode::Mul => OpCode::MulRegImm,
        BinaryOpcode::Div => OpCode::DivImmReg,
        BinaryOpcode::Min => OpCode::MinRegImm,
        BinaryOpcode::Max => OpCode::MaxRegImm,
    }
}

/// Whether the node `p` gets an operation: every node but a constant does,
/// and the root does in any case.
pub open spec fn emits(ops: Seq<Op>, root: int, p: Node) -> bool {
    p.0 < ops.len() && (p.0 == root || !(ops[p.0 as int] is Const))
}

/// The nodes of `list` that get an operation, in the same order.
pub open spec fn emitting(ops: Seq<Op>, root: int, list: Seq<Node>) -> Seq<Node>
    decreases list.len(),
{
    if list.len() == 0 {
        Seq::<Node>::empty()
    } else if emits(ops, root, list.last()) {
        emitting(ops, root, list.drop_last()).push(list.last())
    } else {
        emitting(ops, root, list.drop_last())
    }
}

/// The nodes that get an operation, for the first `count` groups of `order`.
pub open spec fn flat(
    ops: Seq<Op>,
    root: int,
    members: Seq<Vec<Node>>,
    order: Seq<usize>,
    count: int,
) -> Seq<Node>
    decreases count,
{
    if count <= 0 {
        Seq::<Node>::empty()
    } else {
        flat(ops, root, members, order, count - 1) + emitting(
            ops,
            root,
            members[order[count - 1] as int]@,
        )
    }
}

/// Whether the slot `s` holds the value of the node `n`.
pub open spec fn names(nodes: Seq<Node>, s: usize, n: Node) -> bool {
    s < nodes.len() && nodes[s as int] == n
}

/// The operation at the slot `at` of the node `p`, with the slots of its
/// operands as `read` gives them.  What an operation does not use is zero.
pub open spec fn made_op(
    ops: Seq<Op>,
    ids: Seq<Option<usize>>,
    read: spec_fn(int) -> usize,
    at: int,
    p: int,
) -> SsaOp {
    let blank = SsaOp { code: OpCode::CopyImm, out: at as usize, lhs: 0, rhs: 0, imm: 0, choice: 0 };
    match ops[p] {
        Op::Input(axis) => SsaOp { code: OpCode::Input, imm: axis_code(axis), ..blank },
        Op::Var(v) => SsaOp { code: OpCode::Var, imm: v, ..blank },
        Op::Const(c) => SsaOp { code: OpCode::CopyImm, imm: c, ..blank },
        Op::Unary(opcode, a) => SsaOp { code: unary_code(opcode), lhs: read(a.0 as int), ..blank },
        Op::Binary(opcode, a, b) => {
            let choice = if crate::context::is_choice(ops[p]) {
                id_of(ids, p)->Some_0
            } else {
                0
            };
            match (ops[a.0 as int], ops[b.0 as int]) {
                (_, Op::Const(c)) => SsaOp {
                    code: reg_imm_code(opcode),
                    lhs: read(a.0 as int),
                    imm: c,
                    choice,
                    ..blank
                },
                (Op::Const(c), _) => SsaOp {
                    code: imm_reg_code(opcode),
                    lhs: read(b.0 as int),
                    imm: c,
                    choice,
                    ..blank
                },
                _ => SsaOp {
                    code: reg_reg_code(opcode),
                    lhs: read(a.0 as int),
                    rhs: read(b.0 as int),
                    choice,
                    ..blank
                },
            }
        },
    }
}

/// Two ways to read the slots of the operands that agree on the operands
/// of a node that are no constants make the same operation of the node.
pub proof fn made_op_agrees(
    ops: Seq<Op>,
    ids: Seq<Option<usize>>,
    r1: spec_fn(int) -> usize,
    r2: spec_fn(int) -> usize,
    at: int,
    p: int,
)
    requires
        0 <= p < ops.len(),
        crate::context::op_folded(ops[p], ops),
        forall|c: int|
            0 <= c < ops.len() && #[trigger] has_child(ops[p], c) && !(ops[c] is Const) ==> r1(c)
                == r2(c),
        op_below(ops[p], p),
    ensures
        made_op(ops, ids, r1, at, p) == made_op(ops, ids, r2, at, p),
{
    match ops[p] {
        Op::Unary(_, a) => {
            assert(has_child(ops[p], a.0 as int));
        },
        Op::Binary(_, a, b) => {
            assert(has_child(ops[p], a.0 as int));
            assert(has_child(ops[p], b.0 as int));
        },
        _ => {},
    }
}

/// Whether `c` is the index of a node of `list`.
pub open spec fn listed_in(list: Seq<Node>, c: int) -> bool {
    exists|i: int| 0 <= i < list.len() && (#[trigger] list[i]).0 == c
}

/// A place of the node with the index `c` in `list`.
pub open spec fn place_in(list: Seq<Node>, c: int) -> int {
    choose|i: int| 0 <= i < list.len() && (#[trigger] list[i]).0 == c
}

/// A position of the group `h` in `order`.
pub open spec fn position_of(order: Seq<usize>, h: usize) -> int {
    choose|j: int| 0 <= j < order.len() && order[j] == h
}

/// The slot that a member of the group at position `j` reads for its
/// operand `c`: the slot of `c` in that group if it is a member of it, else
/// the slot of `c` in the group in which it stands.
pub open spec fn read_slot(
    ops: Seq<Op>,
    root: int,
    members: Seq<Vec<Node>>,
    order: Seq<usize>,
    home: Seq<Option<usize>>,
    j: int,
    c: int,
) -> usize {
    let jc = if listed_in(list_of(members, order, j), c) {
        j
    } else {
        position_of(order, crate::plan::home_of(home, c)->Some_0)
    };
    if 0 <= jc < order.len() {
        slot_of(ops, root, members, order, jc, place_in(list_of(members, order, jc), c)) as usize
    } else {
        0
    }
}

/// How a member of the group at position `j` reads the slots of its
/// operands.
pub open spec fn reader(
    ops: Seq<Op>,
    root: int,
    members: Seq<Vec<Node>>,
    order: Seq<usize>,
    home: Seq<Option<usize>>,
    j: int,
) -> spec_fn(int) -> usize {
    |c: int| read_slot(ops, root, members, order, home, j, c)
}

/// Whether `o` is the operation at slot `i` of a tape with the nodes
/// `nodes`: slot `i` belongs to a group of the schedule, and `o` is the
/// operation of the node of the slot that reads its operands as members of
/// that group do.
#[verifier::opaque]
pub open spec fn exact_at(
    ops: Seq<Op>,
    root: int,
    ids: Seq<Option<usize>>,
    members: Seq<Vec<Node>>,
    order: Seq<usize>,
    home: Seq<Option<usize>>,
    nodes: Seq<Node>,
    i: int,
    o: SsaOp,
) -> bool {
    exists|j: int|
        0 <= j < order.len() && #[trigger] start_of(ops, root, members, order, j) <= i < start_of(
            ops,
            root,
            members,
            order,
            j + 1,
        ) && o == made_op(ops, ids, reader(ops, root, members, order, home, j), i, nodes[i].0 as int)
}

/// Whether `o` is the operation of the node `nodes[i]`: it has the code of
/// the node's record, its immediate operand is the node's constant operand,
/// the slots that it reads hold the values of the node's other operands, and
/// for a minimum or maximum its choice is the node's choice index.
pub open spec fn encodes(
    ops: Seq<Op>,
    ids: Seq<Option<usize>>,
    nodes: Seq<Node>,
    i: int,
    o: SsaOp,
) -> bool {
    let p = nodes[i].0 as int;
    &&& o.out == i
    &&& match ops[p] {
        Op::Input(axis) => o.code == OpCode::Input && o.imm == axis_code(axis),
        Op::Var(v) => o.code == OpCode::Var && o.imm == v,
        Op::Const(c) => o.code == OpCode::CopyImm && o.imm == c,
        Op::Unary(opcode, a) => o.code == unary_code(opcode) && o.imm == 0 && names(
            nodes,
            o.lhs,
            a,
        ),
        Op::Binary(opcode, a, b) => {
            &&& match (ops[a.0 as int], ops[b.0 as int]) {
                (_, Op::Const(c)) => o.code == reg_imm_code(opcode) && o.imm == c && names(
                    nodes,
                    o.lhs,
                    a,
                ),
                (Op::Const(c), _) => o.code == imm_reg_code(opcode) && o.imm == c && names(
                    nodes,
                    o.lhs,
                    b,
                ),
                _ => o.code == reg_reg_code(opcode) && o.imm == 0 && names(nodes, o.lhs, a)
                    && names(nodes, o.rhs, b),
            }
            &&& crate::context::is_choice(ops[p]) ==> id_of(ids, p) == Some(o.choice)
        },
    }
}

/// Whether `t` is a tape of the scheduled expression: its operations are in
/// single-assignment form, one for every node of every group that gets one,
/// in the order of the schedule, and each is the operation of its node;
/// where the schedule is that of the expression, it reads its operands as
/// members of its group do.
pub open spec fn tape_of(ops: Seq<Op>, root: int, s: Schedule, t: SsaTape) -> bool {
    &&& ssa_ok(t.ops@)
    &&& t.nodes.len() == t.ops.len()
    &&& t.nodes@ == flat(ops, root, s.members@, s.order@, s.order.len() as int)
    &&& forall|i: int|
        0 <= i < t.ops.len() ==> (#[trigger] t.nodes[i]).0 < ops.len() && encodes(
            ops,
            s.choice_id@,
            t.nodes@,
            i,
            t.ops[i],
        )
    &&& schedule_of(ops, root, s.max_weight as int, s) ==> forall|i: int|
        0 <= i < t.ops.len() ==> exact_at(
            ops,
            root,
            s.choice_id@,
            s.members@,
            s.order@,
            s.raw.home@,
            t.nodes@,
            i,
            #[trigger] t.ops[i],
        )
}

/// The code of a unary operation on a slot.
pub fn code_of_unary(opcode: UnaryOpcode) -> (r: OpCode)
    ensures
        r == unary_code(opcode),
        spec_arity(r) == 1,
{
    match opcode {
        UnaryOpcode::Neg => OpCode::NegReg,
        UnaryOpcode::Abs => OpCode::AbsReg,
        UnaryOpcode::Recip => OpCode::RecipReg,
        UnaryOpcode::Sqrt => OpCode::SqrtReg,
        UnaryOpcode::Square => OpCode::SquareReg,
    }
}

/// The code of a binary operation, by which of its operands are constants.
pub fn code_of_binary(opcode: BinaryOpcode, left_imm: bool, right_imm: bool) -> (r: OpCode)
    ensures
        r == (if right_imm {
            reg_imm_code(opcode)
        } else if left_imm {
            imm_reg_code(opcode)
        } else {
            reg_reg_code(opcode)
        }),
        spec_arity(r) == (if right_imm || left_imm {
            1u8
        } else {
            2u8
        }),
{
    if right_imm {
        match opcode {
            BinaryOpcode::Add => OpCode::AddRegImm,
            BinaryOpcode::Sub => OpCode::SubRegImm,
            BinaryOpcode::Mul => OpCode::MulRegImm,
            BinaryOpcode::Div => OpCode::DivRegImm,
            BinaryOpcode::Min => OpCode::MinRegImm,
            BinaryOpcode::Max => OpCode::MaxRegImm,
        }
    } else if left_imm {
        match opcode {
            BinaryOpcode::Add => OpCode::AddRegImm,
            BinaryOpcode::Sub => OpCode::SubImmReg,
            BinaryOpcode::Mul => OpCode::MulRegImm,
            BinaryOpcode::Div => OpCode::DivImmReg,
            BinaryOpcode::Min => OpCode::MinRegImm,
            BinaryOpcode::Max => OpCode::MaxRegImm,
        }
    } else {
        match opcode {
            BinaryOpcode::Add => OpCode::AddRegReg,
            BinaryOpcode::Sub => OpCode::SubRegReg,
            BinaryOpcode::Mul => OpCode::MulRegReg,
            BinaryOpcode::Div => OpCode::DivRegReg,
            BinaryOpcode::Min => OpCode::MinRegReg,
            BinaryOpcode::Max => OpCode::MaxRegReg,
        }
    }
}

/// The number of the first `i` nodes of `list` that get an operation.
pub open spec fn emitted_before(ops: Seq<Op>, root: int, list: Seq<Node>, i: int) -> int {
    emitting(ops, root, list.take(i)).len() as int
}

/// The slot of the first operation of the group at position `j`.
pub open spec fn start_of(
    ops: Seq<Op>,
    root: int,
    members: Seq<Vec<Node>>,
    order: Seq<usize>,
    j: int,
) -> int {
    flat(ops, root, members, order, j).len() as int
}

/// The count of the nodes that get an operation grows along a list, and by
/// one at a node that gets one.
pub proof fn emitted_before_grows(ops: Seq<Op>, root: int, list: Seq<Node>, a: int, b: int)
    requires
        0 <= a <= b <= list.len(),
    ensures
        emitted_before(ops, root, list, a) <= emitted_before(ops, root, list, b),
        a < b && emits(ops, root, list[a]) ==> emitted_before(ops, root, list, a)
            < emitted_before(ops, root, list, b),
    decreases b - a,
{
    if a < b {
        emitted_before_grows(ops, root, list, a, b - 1);
        assert(list.take(b).drop_last() =~= list.take(b - 1));
        assert(list.take(b).last() == list[b - 1]);
    }
}

/// The node at position `i` of a list, if it gets an operation, is found in
/// the list of those that do at the count of such nodes before it.
pub proof fn emitted_at(ops: Seq<Op>, root: int, list: Seq<Node>, i: int, upto: int)
    requires
        0 <= i < upto <= list.len(),
        emits(ops, root, list[i]),
    ensures
        emitted_before(ops, root, list, i) < emitted_before(ops, root, list, upto),
        emitting(ops, root, list.take(upto))[emitted_before(ops, root, list, i)] == list[i],
    decreases upto - i,
{
    assert(list.take(upto).drop_last() =~= list.take(upto - 1));
    assert(list.take(upto).last() == list[upto - 1]);
    if i + 1 < upto {
        emitted_at(ops, root, list, i, upto - 1);
    }
}

/// The slots of the groups follow each other in the order of emission.
pub proof fn start_of_grows(
    ops: Seq<Op>,
    root: int,
    members: Seq<Vec<Node>>,
    order: Seq<usize>,
    a: int,
    b: int,
)
    requires
        0 <= a <= b,
    ensures
        start_of(ops, root, members, order, a) <= start_of(ops, root, members, order, b),
    decreases b - a,
{
    if a < b {
        start_of_grows(ops, root, members, order, a, b - 1);
    }
}

/// The operation `k` of the group at position `j` stands at the slot `k`
/// after the first slot of the group.
pub proof fn flat_at(
    ops: Seq<Op>,
    root: int,
    members: Seq<Vec<Node>>,
    order: Seq<usize>,
    count: int,
    j: int,
    k: int,
)
    requires
        0 <= j < count,
        0 <= k < emitting(ops, root, members[order[j] as int]@).len(),
    ensures
        start_of(ops, root, members, order, j) + k < start_of(ops, root, members, order, count),
        flat(ops, root, members, order, count)[start_of(ops, root, members, order, j) + k]
            == emitting(ops, root, members[order[j] as int]@)[k],
    decreases count - j,
{
    if j + 1 < count {
        flat_at(ops, root, members, order, count - 1, j, k);
    }
}

/// The members of the group at position `j`.
pub open spec fn list_of(members: Seq<Vec<Node>>, order: Seq<usize>, j: int) -> Seq<Node> {
    members[order[j] as int]@
}

/// The entry of a table of slots for the member `i` of the group at position
/// `j`.
pub open spec fn entry(
    table: Seq<Option<usize>>,
    members: Seq<Vec<Node>>,
    order: Seq<usize>,
    j: int,
    i: int,
) -> Option<usize> {
    table[list_of(members, order, j)[i].0 as int]
}

/// The slot of the operation of the member `i` of the group at position
/// `j`.
pub open spec fn slot_of(
    ops: Seq<Op>,
    root: int,
    members: Seq<Vec<Node>>,
    order: Seq<usize>,
    j: int,
    i: int,
) -> int {
    start_of(ops, root, members, order, j) + emitted_before(
        ops,
        root,
        list_of(members, order, j),
        i,
    )
}

/// Whether the table `global` holds, for every node of the first `count`
/// groups, and of the first `upto` members of the group after them, that
/// stands in its own group and gets an operation, the slot of that
/// operation.
pub open spec fn declared(
    ops: Seq<Op>,
    root: int,
    members: Seq<Vec<Node>>,
    order: Seq<usize>,
    home: Seq<Option<usize>>,
    global: Seq<Option<usize>>,
    count: int,
    upto: int,
) -> bool {
    forall|j: int, i: int|
        ((0 <= j < count && 0 <= i < list_of(members, order, j).len()) || (j == count && 0 <= i
            < upto)) && emits(ops, root, list_of(members, order, j)[i]) && home_of(
            home,
            list_of(members, order, j)[i].0 as int,
        ) == Some(order[j]) ==> #[trigger] entry(global, members, order, j, i) == Some(
            slot_of(ops, root, members, order, j, i) as usize,
        )
}

/// What the builder needs of a schedule: the order names each group once,
/// and every group lists distinct nodes of the context, by descending index.
pub open spec fn orderly(ops: Seq<Op>, members: Seq<Vec<Node>>, order: Seq<usize>) -> bool {
    &&& order.len() == members.len()
    &&& forall|j: int| 0 <= j < order.len() ==> (#[trigger] order[j]) < members.len()
    &&& forall|a: int, b: int| 0 <= a < b < order.len() ==> order[a] != order[b]
    &&& forall|g: int, k: int|
        0 <= g < members.len() && 0 <= k < members[g].len() ==> (#[trigger] members[g][k]).0
            < ops.len()
    &&& forall|g: int, k: int, l: int|
        0 <= g < members.len() && 0 <= k < l < members[g].len() ==> (#[trigger] members[g][k]).0
            > (#[trigger] members[g][l]).0
}

/// Whether a node gets an operation.
fn gets_op(ctx: &Context, root: Node, p: Node) -> (r: bool)
    ensures
        r == emits(ctx@, root.0 as int, p),
{
    match ctx.get_op(p) {
        Ok(Op::Const(_)) => p.0 == root.0,
        Ok(_) => true,
        Err(_) => false,
    }
}

/// The nodes that get an operation, in the order of the schedule, and for
/// each node that stands in its own group the slot of its operation.
fn declare(ctx: &Context, root: Node, s: &Schedule) -> (r: Option<(Vec<Node>, Vec<Option<usize>>)>)
    requires
        root.0 < ctx@.len(),
    ensures
        orderly(ctx@, s.members@, s.order@) ==> r is Some,
        r is Some ==> r->Some_0.0@ == flat(
            ctx@,
            root.0 as int,
            s.members@,
            s.order@,
            s.order.len() as int,
        ),
        r is Some ==> r->Some_0.1.len() == ctx@.len(),
        r is Some ==> forall|k: int|
            0 <= k < r->Some_0.0.len() ==> (#[trigger] r->Some_0.0[k]).0 < ctx@.len(),
        r is Some && orderly(ctx@, s.members@, s.order@) ==> declared(
            ctx@,
            root.0 as int,
            s.members@,
            s.order@,
            s.raw.home@,
            r->Some_0.1@,
            s.order.len() as int,
            0,
        ),
{
    let len = ctx.len();
    let ghost ops = ctx@;
    let ghost top = root.0 as int;
    let ghost good = orderly(ops, s.members@, s.order@);
    let mut nodes: Vec<Node> = Vec::new();
    let mut slots: Vec<Option<usize>> = Vec::new();
    let mut k: usize = 0;
    while k < len
        invariant
            k <= len,
            slots.len() == k,
        decreases len - k,
    {
        slots.push(None);
        k = k + 1;
    }
    let mut j: usize = 0;
    while j < s.order.len()
        invariant
            ops == ctx@,
            top == root.0,
            len == ops.len(),
            good == orderly(ops, s.members@, s.order@),
            j <= s.order.len(),
            slots.len() == len,
            nodes@ == flat(ops, top, s.members@, s.order@, j as int),
            forall|k: int| 0 <= k < nodes.len() ==> (#[trigger] nodes[k]).0 < len,
            good ==> declared(ops, top, s.members@, s.order@, s.raw.home@, slots@, j as int, 0),
        decreases s.order.len() - j,
    {
        let g = s.order[j];
        if g >= s.members.len() {
            return None;
        }
        let list = &s.members[g];
        let ghost start = nodes@;
        assert(list@ == list_of(s.members@, s.order@, j as int));
        assert(list@.take(0) =~= Seq::<Node>::empty());
        let mut i: usize = 0;
        while i < list.len()
            invariant
                ops == ctx@,
                top == root.0,
                len == ops.len(),
                good == orderly(ops, s.members@, s.order@),
                j < s.order.len(),
                g == s.order[j as int],
                g < s.members.len(),
                list@ == list_of(s.members@, s.order@, j as int),
                start == flat(ops, top, s.members@, s.order@, j as int),
                i <= list.len(),
                slots.len() == len,
                nodes@ == start + emitting(ops, top, list@.take(i as int)),
                forall|k: int| 0 <= k < nodes.len() ==> (#[trigger] nodes[k]).0 < len,
                good ==> declared(
                    ops,
                    top,
                    s.members@,
                    s.order@,
                    s.raw.home@,
                    slots@,
                    j as int,
                    i as int,
                ),
            decreases list.len() - i,
        {
            let p = list[i];
            assert(list@.take(i + 1).drop_last() =~= list@.take(i as int));
            let emit = gets_op(ctx, root, p);
            let ghost before = slots@;
            if emit {
                let at = nodes.len();
                if p.0 < s.raw.home.len() {
                    match s.raw.home[p.0] {
                        Some(h) => {
                            if h == g {
                                slots.set(p.0, Some(at));
                            }
                        },
                        None => {},
                    }
                }
                nodes.push(p);
                assert(nodes@ =~= start + emitting(ops, top, list@.take(i + 1)));
            }
            proof {
                if good {
                    assert forall|j2: int, i2: int|
                        ((0 <= j2 < j && 0 <= i2 < list_of(s.members@, s.order@, j2).len()) || (j2
                            == j && 0 <= i2 < i + 1)) && emits(
                            ops,
                            top,
                            list_of(s.members@, s.order@, j2)[i2],
                        ) && home_of(
                            s.raw.home@,
                            list_of(s.members@, s.order@, j2)[i2].0 as int,
                        ) == Some(s.order@[j2]) implies #[trigger] entry(
                        slots@,
                        s.members@,
                        s.order@,
                        j2,
                        i2,
                    ) == Some(slot_of(ops, top, s.members@, s.order@, j2, i2) as usize) by {
                        let n2 = list_of(s.members@, s.order@, j2)[i2];
                        assert(s.members@[s.order@[j2] as int][i2] == n2);
                        if j2 == j && i2 == i {
                            assert(n2 == p);
                        } else {
                            assert(entry(before, s.members@, s.order@, j2, i2) == Some(
                                slot_of(ops, top, s.members@, s.order@, j2, i2) as usize,
                            ));
                            if n2.0 == p.0 {
                                if j2 != j {
                                    assert(s.order@[j2] != s.order@[j as int]);
                                } else {
                                    assert(s.members@[g as int][i2] == n2);
                                    assert(s.members@[g as int][i as int] == p);
                                }
                            }
                        }
                    }
                }
            }
            i = i + 1;
        }
        assert(list@.take(list.len() as int) =~= list@);
        j = j + 1;
    }
    Some((nodes, slots))
}

/// The slot that the builder reads for the node `c`: that of its own group
/// if it has one there, else that of the group in which it stands.
pub open spec fn picked(local: Seq<Option<usize>>, global: Seq<Option<usize>>, c: int) -> Option<
    usize,
> {
    if 0 <= c < local.len() && local[c] is Some {
        local[c]
    } else if 0 <= c < global.len() {
        global[c]
    } else {
        None
    }
}

/// How the builder reads the slots of the operands from its tables.
pub open spec fn picker(local: Seq<Option<usize>>, global: Seq<Option<usize>>) -> spec_fn(
    int,
) -> usize {
    |c: int| picked(local, global, c)->Some_0
}

/// Whether the slot read for the node `c` is defined after the position
/// `at` and holds the value of `c`.
pub open spec fn found(
    nodes: Seq<Node>,
    local: Seq<Option<usize>>,
    global: Seq<Option<usize>>,
    c: int,
    at: int,
) -> bool {
    let f = picked(local, global, c);
    f is Some && at < f->Some_0 < nodes.len() && nodes[f->Some_0 as int].0 == c
}

/// Whether every operand of the node at position `at` that is no constant
/// has a slot that is defined later and holds its value.
pub open spec fn resolvable(
    ops: Seq<Op>,
    nodes: Seq<Node>,
    local: Seq<Option<usize>>,
    global: Seq<Option<usize>>,
    at: int,
) -> bool {
    forall|c: int|
        0 <= c < ops.len() && #[trigger] has_child(ops[nodes[at].0 as int], c) && !(ops[c]
            is Const) ==> found(nodes, local, global, c, at)
}

/// Whether the table `local` holds the slots of the first `upto` members of
/// a group that starts at the slot `start`, and nothing else.
pub open spec fn filled(
    ops: Seq<Op>,
    root: int,
    list: Seq<Node>,
    local: Seq<Option<usize>>,
    start: int,
    upto: int,
) -> bool {
    &&& forall|i: int|
        0 <= i < upto && emits(ops, root, #[trigger] list[i]) ==> local[list[i].0 as int] == Some(
            (start + emitted_before(ops, root, list, i)) as usize,
        )
    &&& forall|n: int|
        0 <= n < local.len() && (#[trigger] local[n]) is Some ==> exists|i: int|
            0 <= i < upto && (#[trigger] list[i]).0 == n
}

/// A schedule lists in each group the members of that group.
pub proof fn schedule_lists(ops: Seq<Op>, root: int, max_weight: int, s: Schedule, g: int)
    requires
        schedule_of(ops, root, max_weight, s),
        0 <= g < s.members@.len(),
    ensures
        s.members@.len() == s.raw.groups@.len(),
        s.members@.len() == s.order@.len(),
        s.raw.home@.len() == ops.len(),
        lists_members(
            ops,
            inline_table(ops, root, max_weight),
            s.raw.groups@[g].nodes@,
            s.members@[g]@,
        ),
{
    reveal(schedule_of);
}

/// A schedule orders its groups.
pub proof fn schedule_orders(ops: Seq<Op>, root: int, max_weight: int, s: Schedule)
    requires
        schedule_of(ops, root, max_weight, s),
    ensures
        is_order(s.parents@, s.order@),
        s.members@.len() == s.order@.len(),
        s.parents@.len() == s.order@.len(),
{
    reveal(schedule_of);
}

/// A node from which a group grew stands in that group, and the walk
/// entered it.
pub proof fn base_is_home(ops: Seq<Op>, root: int, max_weight: int, s: Schedule, g: int, k: int)
    requires
        schedule_of(ops, root, max_weight, s),
        0 <= g < s.raw.groups@.len(),
        0 <= k < s.raw.groups@[g].nodes@.len(),
    ensures
        s.raw.groups@[g].nodes@[k].0 < ops.len(),
        s.raw.home@[s.raw.groups@[g].nodes@[k].0 as int] == Some(g as usize),
        visited(ops, inline_table(ops, root, max_weight), root, s.raw.groups@[g].nodes@[k].0 as int),
{
    reveal(schedule_of);
    assert(s.raw.groups[g].nodes[k].0 < ops.len());
    let n = s.raw.groups[g].nodes[k].0 as int;
    assert(s.raw.home[n] is Some);
}

/// A node that the walk entered stands in a group, which grew from it.
pub proof fn visited_has_home(ops: Seq<Op>, root: int, max_weight: int, s: Schedule, c: int)
    requires
        schedule_of(ops, root, max_weight, s),
        0 <= c < ops.len() <= usize::MAX,
        visited(ops, inline_table(ops, root, max_weight), root, c),
    ensures
        s.raw.home@.len() == ops.len(),
        s.members@.len() == s.raw.groups@.len(),
        s.raw.home@[c] is Some,
        s.raw.home@[c]->Some_0 < s.raw.groups@.len(),
        s.raw.groups@[s.raw.home@[c]->Some_0 as int].nodes@.contains(Node(c as usize)),
{
    reveal(schedule_of);
    assert(s.raw.home[c] is Some);
}

/// A group one of whose members has an operand that stands in another group
/// is listed with the groups that use that group.
pub proof fn use_is_listed(
    ops: Seq<Op>,
    root: int,
    max_weight: int,
    s: Schedule,
    g: int,
    h: int,
    i: int,
)
    requires
        schedule_of(ops, root, max_weight, s),
        0 <= g < s.members@.len() <= usize::MAX,
        0 <= h < s.members@.len(),
        g != h,
        0 <= i < s.members@[g]@.len(),
        s.members@[g]@[i].0 < ops.len(),
        points_into(ops[s.members@[g]@[i].0 as int], s.raw.home@, h),
    ensures
        s.parents@[h]@.contains(g as usize),
{
    reveal(schedule_of);
    assert(depends(ops, s.raw.home@, s.members@[g as int]@, h));
    assert(s.parents@[h]@.contains(g as usize) <==> (g as usize) < s.members@.len() && (
    g as usize) != h && depends(ops, s.raw.home@, s.members@[(g as usize) as int]@, h));
}

/// A schedule names each group once and lists in each group distinct nodes
/// of the context, by descending index.
pub proof fn schedule_is_orderly(ops: Seq<Op>, root: int, max_weight: int, s: Schedule)
    requires
        schedule_of(ops, root, max_weight, s),
    ensures
        orderly(ops, s.members@, s.order@),
{
    reveal(schedule_of);
    let inline = inline_table(ops, root, max_weight);
    assert forall|g: int, k: int|
        0 <= g < s.members@.len() && 0 <= k < s.members@[g].len() implies (
    #[trigger] s.members@[g][k]).0 < ops.len() by {
        assert(lists_members(ops, inline, s.raw.groups[g].nodes@, s.members@[g]@));
        assert(member(ops, inline, s.raw.groups[g].nodes@, s.members@[g]@[k].0 as int));
    }
    assert forall|g: int, k: int, l: int|
        0 <= g < s.members@.len() && 0 <= k < l < s.members@[g].len() implies (
    #[trigger] s.members@[g][k]).0 > (#[trigger] s.members@[g][l]).0 by {
        assert(lists_members(ops, inline, s.raw.groups[g].nodes@, s.members@[g]@));
        assert(s.members@[g]@[k].0 > s.members@[g]@[l].0);
    }
}

/// An operand of a member that is no member is not inline, and its user is
/// one of the nodes from which the group grew.
pub proof fn outside_operand(
    ops: Seq<Op>,
    root: int,
    max_weight: int,
    base: Seq<Node>,
    p: int,
    c: int,
)
    requires
        is_dag(ops),
        0 <= root < ops.len(),
        0 <= p < ops.len(),
        member(ops, inline_table(ops, root, max_weight), base, p),
        has_child(ops[p], c),
        !member(ops, inline_table(ops, root, max_weight), base, c),
    ensures
        0 <= c < p,
        !marked(inline_table(ops, root, max_weight), c),
        !marked(inline_table(ops, root, max_weight), p),
        base.contains(Node(p as usize)),
{
    let inline = inline_table(ops, root, max_weight);
    assert(op_below(ops[p], p));
    if marked(inline, c) {
        child_is_member(ops, inline, base, p, c);
    }
    if marked(inline, p) {
        child_is_reachable(ops, root, p, c);
        child_is_lighter(ops, p, c);
    }
    heavy_member_is_base(ops, inline, base, p);
}

/// In a list by descending index, a node with a smaller index stands later.
proof fn later_in_list(list: Seq<Node>, i: int, k: int)
    requires
        forall|a: int, b: int| 0 <= a < b < list.len() ==> (#[trigger] list[a]).0 > (
        #[trigger] list[b]).0,
        0 <= i < list.len(),
        0 <= k < list.len(),
        list[k].0 < list[i].0,
    ensures
        i < k,
{
    if k < i {
        assert(list[k].0 > list[i].0);
    }
}

/// An operand that is a member of the group of its user has its slot in the
/// table of the group, after the slot of the user.
proof fn found_local(
    ops: Seq<Op>,
    root: int,
    max_weight: int,
    s: Schedule,
    nodes: Seq<Node>,
    local: Seq<Option<usize>>,
    global: Seq<Option<usize>>,
    j: int,
    i: int,
    c: int,
)
    requires
        schedule_of(ops, root, max_weight, s),
        nodes == flat(ops, root, s.members@, s.order@, s.order.len() as int),
        nodes.len() <= usize::MAX,
        local.len() == ops.len(),
        0 <= j < s.order.len(),
        0 <= i < list_of(s.members@, s.order@, j).len(),
        emits(ops, root, list_of(s.members@, s.order@, j)[i]),
        filled(
            ops,
            root,
            list_of(s.members@, s.order@, j),
            local,
            start_of(ops, root, s.members@, s.order@, j),
            list_of(s.members@, s.order@, j).len() as int,
        ),
        0 <= c < list_of(s.members@, s.order@, j)[i].0,
        !(ops[c] is Const),
        member(
            ops,
            inline_table(ops, root, max_weight),
            s.raw.groups[s.order[j] as int].nodes@,
            c,
        ),
    ensures
        found(nodes, local, global, c, slot_of(ops, root, s.members@, s.order@, j, i)),
        picked(local, global, c) == Some(
            read_slot(ops, root, s.members@, s.order@, s.raw.home@, j, c),
        ),
{
    schedule_is_orderly(ops, root, max_weight, s);
    let list = list_of(s.members@, s.order@, j);
    let g = s.order[j] as int;
    schedule_lists(ops, root, max_weight, s, g);
    assert(list.contains(Node(c as usize)));
    let k = choose|k: int| 0 <= k < list.len() && list[k] == Node(c as usize);
    assert forall|a: int, b: int| 0 <= a < b < list.len() implies (#[trigger] list[a]).0 > (
    #[trigger] list[b]).0 by {
        assert(s.members@[g][a].0 > s.members@[g][b].0);
    }
    later_in_list(list, i, k);
    assert(emits(ops, root, list[k]));
    emitted_before_grows(ops, root, list, i, k);
    assert(list.take(list.len() as int) =~= list);
    emitted_at(ops, root, list, k, list.len() as int);
    flat_at(
        ops,
        root,
        s.members@,
        s.order@,
        s.order.len() as int,
        j,
        emitted_before(ops, root, list, k),
    );
    assert(list[k].0 == c);
    assert(listed_in(list, c));
    let q = place_in(list, c);
    assert(0 <= q < list.len() && list[q].0 == c);
    if q < k {
        assert(list[q].0 > list[k].0);
    }
    if k < q {
        assert(list[k].0 > list[q].0);
    }
    assert(q == k);
    assert(local[c] == Some(
        (start_of(ops, root, s.members@, s.order@, j) + emitted_before(ops, root, list, k)) as usize,
    ));
    assert(read_slot(ops, root, s.members@, s.order@, s.raw.home@, j, c) == slot_of(
        ops,
        root,
        s.members@,
        s.order@,
        j,
        k,
    ) as usize);
}

/// A group that uses a value of another group is emitted before it.
proof fn user_is_first(parents: Seq<Vec<usize>>, order: Seq<usize>, j: int, jh: int)
    requires
        is_order(parents, order),
        0 <= j < order.len(),
        0 <= jh < order.len(),
        parents[order[jh] as int]@.contains(order[j]),
    ensures
        j < jh,
{
    let k = choose|k: int|
        0 <= k < parents[order[jh] as int]@.len() && parents[order[jh] as int]@[k] == order[j];
    assert(placed_before(order, jh, parents[order[jh] as int][k] as int));
    let i = choose|i: int| 0 <= i < jh && #[trigger] order[i] == parents[order[jh] as int][k];
    if i != j {
        if i < j {
            assert(order[i] != order[j]);
        } else {
            assert(order[j] != order[i]);
        }
    }
}

/// Where the member `ih` of the group at position `jh` gets an operation
/// and the group at position `j` comes before that group, the slot of the
/// member is after every slot of the group at `j`, and the tape holds the
/// member there.
proof fn later_slot(
    ops: Seq<Op>,
    root: int,
    members: Seq<Vec<Node>>,
    order: Seq<usize>,
    j: int,
    i: int,
    jh: int,
    ih: int,
)
    requires
        0 <= j < jh < order.len(),
        0 <= i < list_of(members, order, j).len(),
        emits(ops, root, list_of(members, order, j)[i]),
        0 <= ih < list_of(members, order, jh).len(),
        emits(ops, root, list_of(members, order, jh)[ih]),
    ensures
        slot_of(ops, root, members, order, j, i) < slot_of(ops, root, members, order, jh, ih)
            < flat(ops, root, members, order, order.len() as int).len(),
        flat(ops, root, members, order, order.len() as int)[slot_of(
            ops,
            root,
            members,
            order,
            jh,
            ih,
        )] == list_of(members, order, jh)[ih],
{
    let list = list_of(members, order, j);
    let hlist = list_of(members, order, jh);
    assert(hlist.take(hlist.len() as int) =~= hlist);
    emitted_at(ops, root, hlist, ih, hlist.len() as int);
    flat_at(ops, root, members, order, order.len() as int, jh, emitted_before(ops, root, hlist, ih));
    start_of_grows(ops, root, members, order, j + 1, jh);
    assert(list.take(list.len() as int) =~= list);
    emitted_at(ops, root, list, i, list.len() as int);
}

/// An operand that is no member of the group of its user stands in a group
/// that is emitted later, and the table of the slots holds its slot there.
proof fn found_global(
    ops: Seq<Op>,
    root: int,
    max_weight: int,
    s: Schedule,
    nodes: Seq<Node>,
    local: Seq<Option<usize>>,
    global: Seq<Option<usize>>,
    j: int,
    i: int,
    c: int,
)
    requires
        is_dag(ops),
        0 <= root < ops.len() <= usize::MAX,
        schedule_of(ops, root, max_weight, s),
        nodes == flat(ops, root, s.members@, s.order@, s.order.len() as int),
        nodes.len() <= usize::MAX,
        local.len() == ops.len(),
        global.len() == ops.len(),
        declared(
            ops,
            root,
            s.members@,
            s.order@,
            s.raw.home@,
            global,
            s.order.len() as int,
            0,
        ),
        0 <= j < s.order.len(),
        0 <= i < list_of(s.members@, s.order@, j).len(),
        emits(ops, root, list_of(s.members@, s.order@, j)[i]),
        filled(
            ops,
            root,
            list_of(s.members@, s.order@, j),
            local,
            start_of(ops, root, s.members@, s.order@, j),
            list_of(s.members@, s.order@, j).len() as int,
        ),
        has_child(ops[list_of(s.members@, s.order@, j)[i].0 as int], c),
        !(ops[c] is Const),
        !member(
            ops,
            inline_table(ops, root, max_weight),
            s.raw.groups[s.order[j] as int].nodes@,
            c,
        ),
    ensures
        found(nodes, local, global, c, slot_of(ops, root, s.members@, s.order@, j, i)),
        picked(local, global, c) == Some(
            read_slot(ops, root, s.members@, s.order@, s.raw.home@, j, c),
        ),
{
    schedule_is_orderly(ops, root, max_weight, s);
    schedule_orders(ops, root, max_weight, s);
    let list = list_of(s.members@, s.order@, j);
    let g = s.order[j] as int;
    let inline = inline_table(ops, root, max_weight);
    let base = s.raw.groups[g].nodes@;
    let p = list[i].0 as int;
    let home = s.raw.home@;
    schedule_lists(ops, root, max_weight, s, g);
    assert(s.members@[g]@[i] == list[i]);
    assert(member(ops, inline, base, p));
    outside_operand(ops, root, max_weight, base, p, c);
    let kp = choose|kp: int| 0 <= kp < base.len() && base[kp] == Node(p as usize);
    base_is_home(ops, root, max_weight, s, g, kp);
    child_is_visited(ops, inline, root, p, c);
    visited_has_home(ops, root, max_weight, s, c);
    let h = home[c]->Some_0 as int;
    let hbase = s.raw.groups[h].nodes@;
    assert(member(ops, inline, hbase, c));
    schedule_lists(ops, root, max_weight, s, h);
    assert(s.members@[h]@.contains(Node(c as usize)));
    let ih = choose|ih: int| 0 <= ih < s.members@[h]@.len() && s.members@[h]@[ih] == Node(c as usize);
    assert(h != g);
    assert(points_into(ops[p], home, h));
    use_is_listed(ops, root, max_weight, s, g, h, i);
    assert(s.order@.contains(h as usize));
    let jh = choose|jh: int| 0 <= jh < s.order@.len() && s.order@[jh] == h as usize;
    user_is_first(s.parents@, s.order@, j, jh);
    let hlist = list_of(s.members@, s.order@, jh);
    assert(hlist[ih] == Node(c as usize));
    assert(emits(ops, root, hlist[ih]));
    assert(entry(global, s.members@, s.order@, jh, ih) == Some(
        slot_of(ops, root, s.members@, s.order@, jh, ih) as usize,
    ));
    later_slot(ops, root, s.members@, s.order@, j, i, jh, ih);
    if local[c] is Some {
        let i2 = choose|i2: int| 0 <= i2 < list.len() && (#[trigger] list[i2]).0 == c;
        assert(s.members@[g]@[i2] == list[i2]);
        assert(member(ops, inline, base, list[i2].0 as int));
    }
}

/// A schedule holds the tables of the inline nodes and of the choices.
pub proof fn schedule_tables(ops: Seq<Op>, root: int, max_weight: int, s: Schedule)
    requires
        schedule_of(ops, root, max_weight, s),
    ensures
        s.max_weight == max_weight,
        s.inline@ == inline_table(ops, root, max_weight),
        s.choice_id@ == crate::plan::choice_table(ops, root),
{
    reveal(schedule_of);
}

/// A member of a group is reachable from the root.
pub proof fn member_is_reachable(
    ops: Seq<Op>,
    root: int,
    max_weight: int,
    s: Schedule,
    g: int,
    p: int,
)
    requires
        schedule_of(ops, root, max_weight, s),
        ops.len() <= usize::MAX,
        0 <= g < s.members@.len(),
        member(ops, inline_table(ops, root, max_weight), s.raw.groups@[g].nodes@, p),
    ensures
        reachable(ops, root, p),
{
    let inline = inline_table(ops, root, max_weight);
    let base = s.raw.groups@[g].nodes@;
    schedule_lists(ops, root, max_weight, s, g);
    if !marked(inline, p) {
        heavy_member_is_base(ops, inline, base, p);
        let k = choose|k: int| 0 <= k < base.len() && base[k] == Node(p as usize);
        base_is_home(ops, root, max_weight, s, g, k);
        visited_is_reachable(ops, inline, root, p);
    }
}

/// The slot that holds the value of the node `c` for the operation at
/// position `at`: the one of its own group if that has one, else the one of
/// the group in which `c` stands.  `None` unless that slot is defined later
/// in the tape and holds the value of `c`.
fn resolve(
    nodes: &Vec<Node>,
    local: &Vec<Option<usize>>,
    global: &Vec<Option<usize>>,
    c: Node,
    at: usize,
) -> (r: Option<usize>)
    ensures
        r is Some ==> at < r->Some_0 && names(nodes@, r->Some_0, c),
        r is Some ==> picked(local@, global@, c.0 as int) == Some(r->Some_0),
        r is Some <==> found(nodes@, local@, global@, c.0 as int, at as int),
{
    let taken = if c.0 < local.len() && local[c.0].is_some() {
        local[c.0]
    } else if c.0 < global.len() {
        global[c.0]
    } else {
        None
    };
    match taken {
        Some(slot) => {
            if slot > at && slot < nodes.len() && nodes[slot].0 == c.0 {
                Some(slot)
            } else {
                None
            }
        },
        None => None,
    }
}

/// The operation of the node at position `at`.
fn lower(
    ctx: &Context,
    ids: &Vec<Option<usize>>,
    nodes: &Vec<Node>,
    local: &Vec<Option<usize>>,
    global: &Vec<Option<usize>>,
    at: usize,
) -> (r: Option<SsaOp>)
    requires
        at < nodes.len(),
        nodes[at as int].0 < ctx@.len(),
    ensures
        r is Some ==> encodes(ctx@, ids@, nodes@, at as int, r->Some_0) && ssa_op_ok(
            r->Some_0,
            at as int,
            nodes.len() as int,
        ),
        r is Some ==> r->Some_0 == made_op(
            ctx@,
            ids@,
            picker(local@, global@),
            at as int,
            nodes[at as int].0 as int,
        ),
        resolvable(ctx@, nodes@, local@, global@, at as int) && (crate::context::is_choice(
            ctx@[nodes[at as int].0 as int],
        ) ==> id_of(ids@, nodes[at as int].0 as int) is Some) ==> r is Some,
{
    ctx.well_formed();
    let p = nodes[at];
    let blank = SsaOp { code: OpCode::CopyImm, out: at, lhs: 0, rhs: 0, imm: 0, choice: 0 };
    assert(op_below(ctx@[p.0 as int], p.0 as int));
    assert(crate::context::op_folded(ctx@[p.0 as int], ctx@));
    match ctx.get_op(p) {
        Ok(Op::Input(axis)) => {
            let imm: u32 = match axis {
                Axis::X => 0,
                Axis::Y => 1,
                Axis::Z => 2,
            };
            Some(SsaOp { code: OpCode::Input, imm, ..blank })
        },
        Ok(Op::Var(v)) => Some(SsaOp { code: OpCode::Var, imm: v, ..blank }),
        Ok(Op::Const(c)) => Some(SsaOp { code: OpCode::CopyImm, imm: c, ..blank }),
        Ok(Op::Unary(opcode, a)) => {
            assert(has_child(ctx@[p.0 as int], a.0 as int));
            match resolve(nodes, local, global, a, at) {
                Some(lhs) => Some(SsaOp { code: code_of_unary(opcode), lhs, ..blank }),
                None => None,
            }
        },
        Ok(Op::Binary(opcode, a, b)) => {
            assert(has_child(ctx@[p.0 as int], a.0 as int));
            assert(has_child(ctx@[p.0 as int], b.0 as int));
            let choice: usize = match opcode {
                BinaryOpcode::Min | BinaryOpcode::Max => match index_at(ids, p.0) {
                    Some(id) => id,
                    None => {
                        return None;
                    },
                },
                _ => 0,
            };
            let left = match ctx.get_op(a) {
                Ok(Op::Const(c)) => Some(c),
                _ => None,
            };
            let right = match ctx.get_op(b) {
                Ok(Op::Const(c)) => Some(c),
                _ => None,
            };
            match (left, right) {
                (_, Some(c)) => match resolve(nodes, local, global, a, at) {
                    Some(lhs) => Some(
                        SsaOp {
                            code: code_of_binary(opcode, false, true),
                            lhs,
                            imm: c,
                            choice,
                            ..blank
                        },
                    ),
                    None => None,
                },
                (Some(c), None) => match resolve(nodes, local, global, b, at) {
                    Some(lhs) => Some(
                        SsaOp {
                            code: code_of_binary(opcode, true, false),
                            lhs,
                            imm: c,
                            choice,
                            ..blank
                        },
                    ),
                    None => None,
                },
                (None, None) => match resolve(nodes, local, global, a, at) {
                    Some(lhs) => match resolve(nodes, local, global, b, at) {
                        Some(rhs) => Some(
                            SsaOp {
                                code: code_of_binary(opcode, false, false),
                                lhs,
                                rhs,
                                choice,
                                ..blank
                            },
                        ),
                        None => None,
                    },
                    None => None,
                },
            }
        },
        Err(_) => None,
    }
}

/// The operation that the builder makes for a member of a group is the
/// operation of the schedule for the slot of that member.
proof fn lowered_is_exact(
    ops: Seq<Op>,
    root: int,
    ids: Seq<Option<usize>>,
    members: Seq<Vec<Node>>,
    order: Seq<usize>,
    home: Seq<Option<usize>>,
    nodes: Seq<Node>,
    local: Seq<Option<usize>>,
    global: Seq<Option<usize>>,
    j: int,
    i: int,
    o: SsaOp,
)
    requires
        is_dag(ops),
        0 <= j < order.len(),
        0 <= i < list_of(members, order, j).len(),
        emits(ops, root, list_of(members, order, j)[i]),
        slot_of(ops, root, members, order, j, i) < nodes.len(),
        nodes[slot_of(ops, root, members, order, j, i)] == list_of(members, order, j)[i],
        crate::context::op_folded(ops[list_of(members, order, j)[i].0 as int], ops),
        o == made_op(
            ops,
            ids,
            picker(local, global),
            slot_of(ops, root, members, order, j, i),
            list_of(members, order, j)[i].0 as int,
        ),
        forall|c: int|
            0 <= c < ops.len() && #[trigger] has_child(
                ops[list_of(members, order, j)[i].0 as int],
                c,
            ) && !(ops[c] is Const) ==> picker(local, global)(c) == reader(
                ops,
                root,
                members,
                order,
                home,
                j,
            )(c),
    ensures
        exact_at(
            ops,
            root,
            ids,
            members,
            order,
            home,
            nodes,
            slot_of(ops, root, members, order, j, i),
            o,
        ),
{
    reveal(exact_at);
    let list = list_of(members, order, j);
    let p = list[i].0 as int;
    let here = slot_of(ops, root, members, order, j, i);
    assert(op_below(ops[p], p));
    made_op_agrees(ops, ids, picker(local, global), reader(ops, root, members, order, home, j), here, p);
    emitted_before_grows(ops, root, list, i, i + 1);
    emitted_before_grows(ops, root, list, i + 1, list.len() as int);
    assert(list.take(list.len() as int) =~= list);
    assert(start_of(ops, root, members, order, j + 1) == start_of(ops, root, members, order, j)
        + emitted_before(ops, root, list, list.len() as int));
}

/// Builds the tape of a scheduled expression.  Fails with `InvalidNode` for a
/// root that is not of this context.  For what `schedule` returned for the
/// same context and root it succeeds; for another schedule it fails with
/// `MalformedExpr` if that does not define the value of every operand after
/// its use.
pub fn build(ctx: &Context, root: Node, s: &Schedule) -> (r: Result<SsaTape, Error>)
    ensures
        root.0 >= ctx@.len() ==> r is Err && r->Err_0 == Error::InvalidNode,
        root.0 < ctx@.len() && r is Err ==> r->Err_0 == Error::MalformedExpr,
        root.0 < ctx@.len() && schedule_of(ctx@, root.0 as int, s.max_weight as int, *s)
            ==> r is Ok,
        r is Ok ==> tape_of(ctx@, root.0 as int, *s, r->Ok_0),
{
    let len = ctx.len();
    if root.0 >= len {
        return Err(Error::InvalidNode);
    }
    ctx.well_formed();
    let ghost cx = ctx@;
    let ghost top = root.0 as int;
    let ghost w = s.max_weight as int;
    let ghost good = schedule_of(cx, top, w, *s);
    proof {
        if good {
            schedule_is_orderly(cx, top, w, *s);
            schedule_tables(cx, top, w, *s);
        }
    }
    let (nodes, global) = match declare(ctx, root, s) {
        Some(tables) => tables,
        None => {
            return Err(Error::MalformedExpr);
        },
    };
    let total = nodes.len();
    let mut local: Vec<Option<usize>> = Vec::new();
    let mut k: usize = 0;
    while k < len
        invariant
            k <= len,
            local.len() == k,
            forall|n: int| 0 <= n < k ==> (#[trigger] local[n]) is None,
        decreases len - k,
    {
        local.push(None);
        k = k + 1;
    }
    let mut ops: Vec<SsaOp> = Vec::new();
    let mut j: usize = 0;
    while j < s.order.len()
        invariant
            cx == ctx@,
            is_dag(cx),
            crate::context::is_folded(cx),
            top == root.0,
            w == s.max_weight,
            good == schedule_of(cx, top, w, *s),
            good ==> orderly(cx, s.members@, s.order@),
            good ==> s.choice_id@ == crate::plan::choice_table(cx, top),
            len == cx.len(),
            root.0 < len,
            j <= s.order.len(),
            total == nodes.len(),
            nodes@ == flat(cx, top, s.members@, s.order@, s.order.len() as int),
            global.len() == len,
            local.len() == len,
            ops.len() <= total,
            good ==> declared(
                cx,
                top,
                s.members@,
                s.order@,
                s.raw.home@,
                global@,
                s.order.len() as int,
                0,
            ),
            good ==> ops.len() == start_of(cx, top, s.members@, s.order@, j as int),
            good ==> forall|n: int| 0 <= n < len ==> (#[trigger] local[n]) is None,
            forall|k: int| 0 <= k < nodes.len() ==> (#[trigger] nodes[k]).0 < len,
            forall|i: int|
                0 <= i < ops.len() ==> encodes(cx, s.choice_id@, nodes@, i, #[trigger] ops[i])
                    && ssa_op_ok(ops[i], i, total as int),
            good ==> forall|i: int|
                0 <= i < ops.len() ==> exact_at(
                    cx,
                    top,
                    s.choice_id@,
                    s.members@,
                    s.order@,
                    s.raw.home@,
                    nodes@,
                    i,
                    #[trigger] ops[i],
                ),
        decreases s.order.len() - j,
    {
        let g = s.order[j];
        if g >= s.members.len() {
            return Err(Error::MalformedExpr);
        }
        let list = &s.members[g];
        let first = ops.len();
        let ghost lst = list_of(s.members@, s.order@, j as int);
        assert(list@ == lst);
        proof {
            if good {
                assert forall|a: int, b: int| 0 <= a < b < lst.len() implies (#[trigger] lst[a]).0
                    > (#[trigger] lst[b]).0 by {
                    assert(s.members@[g as int][a].0 > s.members@[g as int][b].0);
                }
                assert forall|a: int| 0 <= a < lst.len() implies (#[trigger] lst[a]).0 < len by {
                    assert(s.members@[g as int][a].0 < len);
                }
                assert(lst.take(0) =~= Seq::<Node>::empty());
                assert(lst.take(lst.len() as int) =~= lst);
                start_of_grows(cx, top, s.members@, s.order@, j + 1, s.order.len() as int);
            }
        }
        let mut at: usize = first;
        let mut i: usize = 0;
        while i < list.len()
            invariant
                cx == ctx@,
                top == root.0,
                len == cx.len(),
                root.0 < len,
                total == nodes.len(),
                good == schedule_of(cx, top, s.max_weight as int, *s),
                list@ == lst,
                local.len() == len,
                i <= list.len(),
                first <= at,
                good ==> forall|a: int, b: int|
                    0 <= a < b < lst.len() ==> (#[trigger] lst[a]).0 > (#[trigger] lst[b]).0,
                good ==> forall|a: int| 0 <= a < lst.len() ==> (#[trigger] lst[a]).0 < len,
                good ==> first + emitted_before(cx, top, lst, lst.len() as int) <= total,
                good ==> at == first + emitted_before(cx, top, lst, i as int),
                good ==> filled(cx, top, lst, local@, first as int, i as int),
            decreases list.len() - i,
        {
            let p = list[i];
            proof {
                if good {
                    emitted_before_grows(cx, top, lst, i as int, i + 1);
                    emitted_before_grows(cx, top, lst, i + 1, lst.len() as int);
                    assert(lst.take(i + 1).drop_last() =~= lst.take(i as int));
                }
            }
            let ghost before = local@;
            if gets_op(ctx, root, p) {
                if at == usize::MAX {
                    return Err(Error::MalformedExpr);
                }
                if p.0 < len {
                    local.set(p.0, Some(at));
                }
                at = at + 1;
            }
            proof {
                if good {
                    assert forall|i2: int|
                        0 <= i2 < i + 1 && emits(cx, top, #[trigger] lst[i2]) implies local@[lst[i2].0 as int]
                        == Some((first + emitted_before(cx, top, lst, i2)) as usize) by {
                        if i2 < i {
                            assert(lst[i2].0 > lst[i as int].0);
                            assert(before[lst[i2].0 as int] == Some(
                                (first + emitted_before(cx, top, lst, i2)) as usize,
                            ));
                        }
                    }
                    assert forall|n: int|
                        0 <= n < local@.len() && (#[trigger] local@[n]) is Some implies exists|
                        i2: int,
                    |
                        0 <= i2 < i + 1 && (#[trigger] lst[i2]).0 == n by {
                        if n == p.0 {
                            assert(lst[i as int].0 == n);
                        } else {
                            assert(before[n] is Some);
                            let i2 = choose|i2: int| 0 <= i2 < i && (#[trigger] lst[i2]).0 == n;
                            assert(0 <= i2 < i + 1 && lst[i2].0 == n);
                        }
                    }
                }
            }
            i = i + 1;
        }
        let mut i: usize = 0;
        while i < list.len()
            invariant
                cx == ctx@,
                is_dag(cx),
                crate::context::is_folded(cx),
                top == root.0,
                w == s.max_weight,
                good == schedule_of(cx, top, w, *s),
                good ==> s.choice_id@ == crate::plan::choice_table(cx, top),
                len == cx.len(),
                root.0 < len,
                j < s.order.len(),
                g == s.order[j as int],
                g < s.members.len(),
                list@ == lst,
                lst == list_of(s.members@, s.order@, j as int),
                total == nodes.len(),
                nodes@ == flat(cx, top, s.members@, s.order@, s.order.len() as int),
                global.len() == len,
                local.len() == len,
                i <= list.len(),
                ops.len() <= total,
                good ==> declared(
                    cx,
                    top,
                    s.members@,
                    s.order@,
                    s.raw.home@,
                    global@,
                    s.order.len() as int,
                    0,
                ),
                good ==> first == start_of(cx, top, s.members@, s.order@, j as int),
                good ==> first + emitted_before(cx, top, lst, lst.len() as int) <= total,
                good ==> ops.len() == first + emitted_before(cx, top, lst, i as int),
                good ==> filled(cx, top, lst, local@, first as int, lst.len() as int),
                forall|k: int| 0 <= k < nodes.len() ==> (#[trigger] nodes[k]).0 < len,
                forall|i: int|
                    0 <= i < ops.len() ==> encodes(cx, s.choice_id@, nodes@, i, #[trigger] ops[i])
                        && ssa_op_ok(ops[i], i, total as int),
                good ==> forall|i: int|
                    0 <= i < ops.len() ==> exact_at(
                        cx,
                        top,
                        s.choice_id@,
                        s.members@,
                        s.order@,
                        s.raw.home@,
                        nodes@,
                        i,
                        #[trigger] ops[i],
                    ),
            decreases list.len() - i,
        {
            let p = list[i];
            proof {
                if good {
                    emitted_before_grows(cx, top, lst, i as int, i + 1);
                    emitted_before_grows(cx, top, lst, i + 1, lst.len() as int);
                    assert(lst.take(i + 1).drop_last() =~= lst.take(i as int));
                }
            }
            if gets_op(ctx, root, p) {
                let here = ops.len();
                proof {
                    if good {
                        assert(lst.take(lst.len() as int) =~= lst);
                        emitted_at(cx, top, lst, i as int, lst.len() as int);
                        flat_at(
                            cx,
                            top,
                            s.members@,
                            s.order@,
                            s.order.len() as int,
                            j as int,
                            emitted_before(cx, top, lst, i as int),
                        );
                    }
                }
                if here >= total || nodes[here].0 != p.0 {
                    return Err(Error::MalformedExpr);
                }
                proof {
                    if good {
                        let inline = inline_table(cx, top, w);
                        let base = s.raw.groups@[g as int].nodes@;
                        schedule_lists(cx, top, w, *s, g as int);
                        assert(s.members@[g as int]@[i as int] == lst[i as int]);
                        assert(member(cx, inline, base, p.0 as int));
                        member_is_reachable(cx, top, w, *s, g as int, p.0 as int);
                        assert(op_below(cx[p.0 as int], p.0 as int));
                        assert forall|c: int|
                            0 <= c < cx.len() && #[trigger] has_child(cx[nodes@[here as int].0 as int], c)
                                && !(cx[c] is Const) implies found(
                            nodes@,
                            local@,
                            global@,
                            c,
                            here as int,
                        ) && picker(local@, global@)(c) == reader(
                            cx,
                            top,
                            s.members@,
                            s.order@,
                            s.raw.home@,
                            j as int,
                        )(c) by {
                            if member(cx, inline, base, c) {
                                found_local(
                                    cx,
                                    top,
                                    w,
                                    *s,
                                    nodes@,
                                    local@,
                                    global@,
                                    j as int,
                                    i as int,
                                    c,
                                );
                            } else {
                                found_global(
                                    cx,
                                    top,
                                    w,
                                    *s,
                                    nodes@,
                                    local@,
                                    global@,
                                    j as int,
                                    i as int,
                                    c,
                                );
                            }
                        }
                    }
                }
                match lower(ctx, &s.choice_id, &nodes, &local, &global, here) {
                    Some(o) => {
                        let ghost done = ops@;
                        ops.push(o);
                        proof {
                            if good {
                                lowered_is_exact(
                                    cx,
                                    top,
                                    s.choice_id@,
                                    s.members@,
                                    s.order@,
                                    s.raw.home@,
                                    nodes@,
                                    local@,
                                    global@,
                                    j as int,
                                    i as int,
                                    o,
                                );
                                assert forall|i: int| 0 <= i < ops.len() implies exact_at(
                                    cx,
                                    top,
                                    s.choice_id@,
                                    s.members@,
                                    s.order@,
                                    s.raw.home@,
                                    nodes@,
                                    i,
                                    #[trigger] ops[i],
                                ) by {
                                    if i < here {
                                        assert(ops[i] == done[i]);
                                    }
                                }
                            }
                        }
                    },
                    None => {
                        return Err(Error::MalformedExpr);
                    },
                }
            }
            i = i + 1;
        }
        let mut i: usize = 0;
        while i < list.len()
            invariant
                len == cx.len(),
                list@ == lst,
                local.len() == len,
                i <= list.len(),
                good ==> forall|n: int|
                    0 <= n < len && (#[trigger] local[n]) is Some ==> exists|i2: int|
                        i <= i2 < lst.len() && (#[trigger] lst[i2]).0 == n,
            decreases list.len() - i,
        {
            let p = list[i];
            let ghost before = local@;
            if p.0 < len {
                local.set(p.0, None);
            }
            proof {
                if good {
                    assert forall|n: int|
                        0 <= n < len && (#[trigger] local[n]) is Some implies exists|i2: int|
                        i + 1 <= i2 < lst.len() && (#[trigger] lst[i2]).0 == n by {
                        assert(before[n] is Some);
                        let i2 = choose|i2: int| i <= i2 < lst.len() && (#[trigger] lst[i2]).0 == n;
                        assert(i2 != i);
                    }
                }
            }
            i = i + 1;
        }
        j = j + 1;
    }
    if ops.len() != total {
        return Err(Error::MalformedExpr);
    }
    Ok(SsaTape { ops, nodes })
}

/// The choice of a node: its choice index if it is a minimum or maximum
/// that the root reaches, else zero.
pub open spec fn node_choice(ops: Seq<Op>, root: int, n: int) -> usize {
    match crate::schedule::choice_index(ops, root, n) {
        Some(k) => k,
        None => 0,
    }
}

/// The term of a node of the expression below `root`: how its value is made
/// from the coordinates, the variables and the constants.  A constant
/// operand is part of the operation; where the operation commutes, the
/// other operand takes the place of the left one.
pub open spec fn node_term(ops: Seq<Op>, root: int, n: int) -> Term
    decreases n,
{
    if 0 <= n < ops.len() {
        match ops[n] {
            Op::Input(axis) => made(OpCode::Input, axis_code(axis), 0, Term::Blank, Term::Blank),
            Op::Var(v) => made(OpCode::Var, v, 0, Term::Blank, Term::Blank),
            Op::Const(c) => made(OpCode::CopyImm, c, 0, Term::Blank, Term::Blank),
            Op::Unary(opcode, a) => made(
                unary_code(opcode),
                0,
                0,
                if a.0 < n {
                    node_term(ops, root, a.0 as int)
                } else {
                    Term::Blank
                },
                Term::Blank,
            ),
            Op::Binary(opcode, a, b) => if a.0 < n && b.0 < n {
                match (ops[a.0 as int], ops[b.0 as int]) {
                    (_, Op::Const(c)) => made(
                        reg_imm_code(opcode),
                        c,
                        node_choice(ops, root, n),
                        node_term(ops, root, a.0 as int),
                        Term::Blank,
                    ),
                    (Op::Const(c), _) => made(
                        imm_reg_code(opcode),
                        c,
                        node_choice(ops, root, n),
                        node_term(ops, root, b.0 as int),
                        Term::Blank,
                    ),
                    _ => made(
                        reg_reg_code(opcode),
                        0,
                        node_choice(ops, root, n),
                        node_term(ops, root, a.0 as int),
                        node_term(ops, root, b.0 as int),
                    ),
                }
            } else {
                Term::Blank
            },
        }
    } else {
        Term::Blank
    }
}

/// The term of a slot of the tape of an expression is the term of the node
/// of the slot.
pub proof fn slot_is_node(ops: Seq<Op>, root: int, s: Schedule, t: SsaTape, i: int)
    requires
        is_dag(ops),
        tape_of(ops, root, s, t),
        s.choice_id@ == crate::plan::choice_table(ops, root),
        0 <= i < t.ops.len(),
    ensures
        slot_term(t.ops@, i) == node_term(ops, root, t.nodes[i].0 as int),
    decreases t.ops.len() - i,
{
    let o = t.ops[i];
    let p = t.nodes[i].0 as int;
    assert(ssa_op_ok(o, i, t.ops.len() as int));
    assert(encodes(ops, s.choice_id@, t.nodes@, i, o));
    assert(op_below(ops[p], p));
    if spec_arity(o.code) >= 1 {
        slot_is_node(ops, root, s, t, o.lhs as int);
    }
    if spec_arity(o.code) >= 2 {
        slot_is_node(ops, root, s, t, o.rhs as int);
    }
}

/// A node that the walk enters, other than the root, is an operand of a
/// node that the walk enters.
pub proof fn visited_parent(ops: Seq<Op>, inline: Seq<bool>, root: int, n: int, lo: int) -> (p: int)
    requires
        crate::groups::visited_from(ops, inline, root, n, lo),
    ensures
        lo <= p <= root,
        visited(ops, inline, root, p),
        has_child(ops[p], n),
    decreases
        (if lo <= root {
            root - lo + 1
        } else {
            0
        }),
{
    if visited(ops, inline, root, lo) && has_child(ops[lo], n) {
        lo
    } else {
        visited_parent(ops, inline, root, n, lo + 1)
    }
}

/// The group of the root is emitted first.
pub proof fn root_group_is_first(ops: Seq<Op>, root: int, max_weight: int, s: Schedule)
    requires
        is_dag(ops),
        0 <= root < ops.len() <= usize::MAX,
        schedule_of(ops, root, max_weight, s),
    ensures
        s.order@.len() > 0,
        s.raw.home@[root] == Some(s.order@[0]),
{
    let inline = inline_table(ops, root, max_weight);
    assert(visited(ops, inline, root, root));
    visited_has_home(ops, root, max_weight, s, root);
    schedule_orders(ops, root, max_weight, s);
    schedule_is_orderly(ops, root, max_weight, s);
    let h = s.raw.home@[root]->Some_0 as int;
    let g0 = s.order@[0] as int;
    if g0 != h {
        first_base_is_root(ops, root, max_weight, s, g0);
    }
}

/// The group that is emitted first grew from the root.
proof fn first_base_is_root(ops: Seq<Op>, root: int, max_weight: int, s: Schedule, g0: int)
    requires
        is_dag(ops),
        0 <= root < ops.len() <= usize::MAX,
        schedule_of(ops, root, max_weight, s),
        s.order@.len() > 0,
        g0 == s.order@[0],
        g0 < s.members@.len(),
    ensures
        s.raw.home@[root] == Some(g0 as usize),
{
    let inline = inline_table(ops, root, max_weight);
    schedule_orders(ops, root, max_weight, s);
    schedule_lists(ops, root, max_weight, s, g0);
    let n = group_head(ops, root, max_weight, s, g0);
    base_is_home(ops, root, max_weight, s, g0, 0);
    if n != root {
        let p = visited_parent(ops, inline, root, n, n + 1);
        visited_has_home(ops, root, max_weight, s, p);
        let gp = s.raw.home@[p]->Some_0 as int;
        let k = choose|k: int|
            0 <= k < s.raw.groups@[gp].nodes@.len() && s.raw.groups@[gp].nodes@[k] == Node(p as usize);
        if gp == g0 {
            head_is_largest(ops, root, max_weight, s, g0, k);
        } else {
            schedule_lists(ops, root, max_weight, s, gp);
            assert(member(ops, inline, s.raw.groups@[gp].nodes@, p));
            assert(s.members@[gp]@.contains(Node(p as usize)));
            let i = choose|i: int|
                0 <= i < s.members@[gp]@.len() && s.members@[gp]@[i] == Node(p as usize);
            assert(points_into(ops[p], s.raw.home@, g0));
            assert(s.members@.len() == s.members.len());
            use_is_listed(ops, root, max_weight, s, gp, g0, i);
            let w = choose|w: int|
                0 <= w < s.parents@[g0]@.len() && s.parents@[g0]@[w] == gp as usize;
            assert(placed_before(s.order@, 0, s.parents@[s.order@[0] as int][w] as int));
        }
    }
}

/// The first node from which a group grew.
proof fn group_head(ops: Seq<Op>, root: int, max_weight: int, s: Schedule, g: int) -> (n: int)
    requires
        schedule_of(ops, root, max_weight, s),
        0 <= g < s.raw.groups@.len(),
    ensures
        s.raw.groups@[g].nodes@.len() > 0,
        n == s.raw.groups@[g].nodes@[0].0,
{
    reveal(schedule_of);
    assert(s.raw.groups[g].nodes.len() > 0);
    s.raw.groups@[g].nodes@[0].0 as int
}

/// The first node from which a group grew has the largest index of them.
proof fn head_is_largest(ops: Seq<Op>, root: int, max_weight: int, s: Schedule, g: int, k: int)
    requires
        schedule_of(ops, root, max_weight, s),
        0 <= g < s.raw.groups@.len(),
        0 <= k < s.raw.groups@[g].nodes@.len(),
    ensures
        s.raw.groups@[g].nodes@[0].0 >= s.raw.groups@[g].nodes@[k].0,
{
    reveal(schedule_of);
    if k > 0 {
        assert(s.raw.groups[g].nodes[0].0 > s.raw.groups[g].nodes[k].0);
    }
}

/// The first operation of the tape of an expression is that of the root.
pub proof fn first_is_root(ops: Seq<Op>, root: int, max_weight: int, s: Schedule)
    requires
        is_dag(ops),
        0 <= root < ops.len() <= usize::MAX,
        schedule_of(ops, root, max_weight, s),
    ensures
        flat(ops, root, s.members@, s.order@, s.order.len() as int).len() > 0,
        flat(ops, root, s.members@, s.order@, s.order.len() as int)[0] == Node(root as usize),
{
    let inline = inline_table(ops, root, max_weight);
    root_group_is_first(ops, root, max_weight, s);
    schedule_orders(ops, root, max_weight, s);
    schedule_is_orderly(ops, root, max_weight, s);
    visited_has_home(ops, root, max_weight, s, root);
    let h = s.order@[0] as int;
    schedule_lists(ops, root, max_weight, s, h);
    let list = list_of(s.members@, s.order@, 0);
    assert(member(ops, inline, s.raw.groups@[h].nodes@, root));
    assert(list.contains(Node(root as usize)));
    let k = choose|k: int| 0 <= k < list.len() && list[k] == Node(root as usize);
    assert(s.members@[h]@[0] == list[0]);
    assert(member(ops, inline, s.raw.groups@[h].nodes@, list[0].0 as int));
    member_is_reachable(ops, root, max_weight, s, h, list[0].0 as int);
    if k > 0 {
        assert(s.members@[h][0].0 > s.members@[h][k].0);
    }
    assert(list[0] == Node(root as usize));
    assert(list.take(list.len() as int) =~= list);
    assert(list.take(0) =~= Seq::<Node>::empty());
    emitted_at(ops, root, list, 0, list.len() as int);
    flat_at(ops, root, s.members@, s.order@, s.order.len() as int, 0, 0);
}

} // verus!
