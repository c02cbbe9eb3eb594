//! The expression graph: nodes interned by structure, constants folded as
//! they are inserted.

use crate::error::Error;
use crate::root::{sqrt, square_root};
use crate::scalar::{
    abs, difference, ieee_add, ieee_div, ieee_mul, ieee_sub, is_zero, magnitude, max, maximum,
    min, minimum, neg, negated, product, quotient, sum, zero, ONE, ZERO,
};
use vstd::prelude::*;

verus! {

/// Handle of a node: its index in the context that made it.
#[derive(Clone, Copy, PartialEq, Eq, Structural, Debug)]
pub struct Node(pub usize);

/// One of the three coordinates.
#[derive(Clone, Copy, PartialEq, Eq, Structural, Debug)]
pub enum Axis {
    X,
    Y,
    Z,
}

/// Operations of one operand.
#[derive(Clone, Copy, PartialEq, Eq, Structural, Debug)]
pub enum UnaryOpcode {
    Neg,
    Abs,
    Recip,
    Sqrt,
    Square,
}

/// Operations of two operands.
#[derive(Clone, Copy, PartialEq, Eq, Structural, Debug)]
pub enum BinaryOpcode {
    Add,
    Sub,
    Mul,
    Div,
    Min,
    Max,
}

/// The record of a node.  A constant holds the bits of its binary32 value, a
/// variable the index at which its value is supplied.
#[derive(Clone, Copy, PartialEq, Eq, Structural, Debug)]
pub enum Op {
    Input(Axis),
    Var(u32),
    Const(u32),
    Unary(UnaryOpcode, Node),
    Binary(BinaryOpcode, Node, Node),
}

/// What an insertion resolves to: a node that is already there, or a record
/// to intern.
pub enum Form {
    Same(Node),
    Make(Op),
}

/// Whether every operand of `op` is a handle below `bound`.
pub open spec fn op_below(op: Op, bound: int) -> bool {
    match op {
        Op::Unary(_, a) => a.0 < bound,
        Op::Binary(_, a, b) => a.0 < bound && b.0 < bound,
        _ => true,
    }
}

/// Whether `c` is an operand of `op`.
pub open spec fn has_child(op: Op, c: int) -> bool {
    match op {
        Op::Unary(_, a) => a.0 == c,
        Op::Binary(_, a, b) => a.0 == c || b.0 == c,
        _ => false,
    }
}

/// Whether `op` is a minimum or a maximum.
pub open spec fn is_choice(op: Op) -> bool {
    match op {
        Op::Binary(BinaryOpcode::Min, _, _) => true,
        Op::Binary(BinaryOpcode::Max, _, _) => true,
        _ => false,
    }
}

/// Every node's operands were inserted before the node itself.
pub open spec fn is_dag(ops: Seq<Op>) -> bool {
    forall|i: int| 0 <= i < ops.len() ==> op_below(#[trigger] ops[i], i)
}

/// No record occurs twice.
pub open spec fn is_interned(ops: Seq<Op>) -> bool {
    forall|i: int, j: int| 0 <= i < j < ops.len() ==> ops[i] != ops[j]
}

/// Whether `op` is not an operation on constants alone, given the records
/// `ops` of its operands.
pub open spec fn op_folded(op: Op, ops: Seq<Op>) -> bool {
    match op {
        Op::Unary(_, a) => !(ops[a.0 as int] is Const),
        Op::Binary(_, a, b) => !(ops[a.0 as int] is Const && ops[b.0 as int] is Const),
        _ => true,
    }
}

/// No operation has constants for all its operands: such an operation is
/// replaced by its value when it is inserted.
pub open spec fn is_folded(ops: Seq<Op>) -> bool {
    forall|i: int| 0 <= i < ops.len() ==> op_folded(#[trigger] ops[i], ops)
}

/// The value of a unary operation on a constant.
pub open spec fn fold_unary(opcode: UnaryOpcode, c: u32) -> u32 {
    match opcode {
        UnaryOpcode::Neg => negated(c),
        UnaryOpcode::Abs => magnitude(c),
        UnaryOpcode::Recip => ieee_div(ONE, c),
        UnaryOpcode::Sqrt => square_root(c),
        UnaryOpcode::Square => ieee_mul(c, c),
    }
}

/// The value of a binary operation on two constants.
pub open spec fn fold_binary(opcode: BinaryOpcode, x: u32, y: u32) -> u32 {
    match opcode {
        BinaryOpcode::Add => ieee_add(x, y),
        BinaryOpcode::Sub => ieee_sub(x, y),
        BinaryOpcode::Mul => ieee_mul(x, y),
        BinaryOpcode::Div => ieee_div(x, y),
        BinaryOpcode::Min => minimum(x, y),
        BinaryOpcode::Max => maximum(x, y),
    }
}

/// What `unary` interns: the folded constant when the operand is a constant,
/// else the operation itself.
pub open spec fn unary_form(ops: Seq<Op>, opcode: UnaryOpcode, a: Node) -> Op {
    match ops[a.0 as int] {
        Op::Const(c) => Op::Const(fold_unary(opcode, c)),
        _ => Op::Unary(opcode, a),
    }
}

/// What `binary` resolves to.  Two constants fold.  Otherwise `x + 0`,
/// `x - 0` and `x * 1` are `x`, `x * 0` is the constant zero, and the minimum
/// or maximum of a node with itself is that node.
pub open spec fn binary_form(ops: Seq<Op>, opcode: BinaryOpcode, a: Node, b: Node) -> Form {
    match (ops[a.0 as int], ops[b.0 as int]) {
        (Op::Const(x), Op::Const(y)) => Form::Make(Op::Const(fold_binary(opcode, x, y))),
        (_, Op::Const(y)) => match opcode {
            BinaryOpcode::Add => if is_zero(y) {
                Form::Same(a)
            } else {
                Form::Make(Op::Binary(opcode, a, b))
            },
            BinaryOpcode::Sub => if is_zero(y) {
                Form::Same(a)
            } else {
                Form::Make(Op::Binary(opcode, a, b))
            },
            BinaryOpcode::Mul => if y == ONE {
                Form::Same(a)
            } else if is_zero(y) {
                Form::Make(Op::Const(ZERO))
            } else {
                Form::Make(Op::Binary(opcode, a, b))
            },
            _ => Form::Make(Op::Binary(opcode, a, b)),
        },
        _ => match opcode {
            BinaryOpcode::Min => if a == b {
                Form::Same(a)
            } else {
                Form::Make(Op::Binary(opcode, a, b))
            },
            BinaryOpcode::Max => if a == b {
                Form::Same(a)
            } else {
                Form::Make(Op::Binary(opcode, a, b))
            },
            _ => Form::Make(Op::Binary(opcode, a, b)),
        },
    }
}

/// Whether interning `op` in `before` gives `after` and the handle `n`: the
/// record is found or appended, and `n` is where it stands.
pub open spec fn interns(before: Seq<Op>, op: Op, after: Seq<Op>, n: Node) -> bool {
    &&& n.0 < after.len()
    &&& after[n.0 as int] == op
    &&& before.contains(op) ==> after == before
    &&& !before.contains(op) ==> after == before.push(op)
}

/// Whether resolving `form` in `before` gives `after` and the handle `n`.
pub open spec fn resolves(before: Seq<Op>, form: Form, after: Seq<Op>, n: Node) -> bool {
    match form {
        Form::Same(m) => n == m && after == before,
        Form::Make(op) => interns(before, op, after, n),
    }
}

/// An expression graph.  Its view is the sequence of its records; a handle is
/// an index into it.
pub struct Context {
    ops: Vec<Op>,
}

impl View for Context {
    type V = Seq<Op>;

    closed spec fn view(&self) -> Seq<Op> {
        self.ops@
    }
}

impl Context {
    #[verifier::type_invariant]
    spec fn inv(self) -> bool {
        is_dag(self.ops@) && is_interned(self.ops@) && is_folded(self.ops@)
    }

    /// Every context is acyclic, with operands before their users, holds no
    /// record twice and no operation on constants alone.  Calling this
    /// brings those facts into a proof; it does nothing at run time.
    pub fn well_formed(&self)
        ensures
            is_dag(self@),
            is_interned(self@),
            is_folded(self@),
    {
        proof {
            use_type_invariant(self);
        }
    }

    /// An empty context.
    pub fn new() -> (c: Context)
        ensures
            c@ == Seq::<Op>::empty(),
    {
        Context { ops: Vec::new() }
    }

    /// The number of nodes.
    pub fn len(&self) -> (n: usize)
        ensures
            n == self@.len(),
    {
        self.ops.len()
    }

    /// The record of a node; `InvalidNode` for a handle that is not of this
    /// context.
    pub fn get_op(&self, n: Node) -> (r: Result<Op, Error>)
        ensures
            n.0 < self@.len() ==> r == Ok::<Op, Error>(self@[n.0 as int]),
            n.0 >= self@.len() ==> r == Err::<Op, Error>(Error::InvalidNode),
    {
        if n.0 < self.ops.len() {
            Ok(self.ops[n.0])
        } else {
            Err(Error::InvalidNode)
        }
    }

    /// The bits of a constant node, `None` for any other node.
    pub fn const_value(&self, n: Node) -> (r: Result<Option<u32>, Error>)
        ensures
            n.0 >= self@.len() ==> r == Err::<Option<u32>, Error>(Error::InvalidNode),
            n.0 < self@.len() ==> r == Ok::<Option<u32>, Error>(
                match self@[n.0 as int] {
                    Op::Const(c) => Some(c),
                    _ => None,
                },
            ),
    {
        match self.get_op(n) {
            Ok(Op::Const(c)) => Ok(Some(c)),
            Ok(_) => Ok(None),
            Err(e) => Err(e),
        }
    }

    /// The operands of a node, left to right.
    pub fn iter_children(&self, n: Node) -> (r: Result<Vec<Node>, Error>)
        ensures
            n.0 >= self@.len() ==> r == Err::<Vec<Node>, Error>(Error::InvalidNode),
            n.0 < self@.len() ==> r is Ok && r->Ok_0@ == children(self@[n.0 as int]),
    {
        match self.get_op(n) {
            Ok(Op::Unary(_, a)) => {
                let mut v: Vec<Node> = Vec::new();
                v.push(a);
                assert(v@ =~= seq![a]);
                Ok(v)
            },
            Ok(Op::Binary(_, a, b)) => {
                let mut v: Vec<Node> = Vec::new();
                v.push(a);
                v.push(b);
                assert(v@ =~= seq![a, b]);
                Ok(v)
            },
            Ok(_) => {
                let v: Vec<Node> = Vec::new();
                assert(v@ =~= Seq::<Node>::empty());
                Ok(v)
            },
            Err(e) => Err(e),
        }
    }

    fn intern(&mut self, op: Op) -> (n: Node)
        requires
            op_below(op, old(self)@.len() as int),
            op_folded(op, old(self)@),
        ensures
            interns(old(self)@, op, final(self)@, n),
    {
        proof {
            use_type_invariant(&*self);
        }
        let mut i: usize = 0;
        while i < self.ops.len()
            invariant
                i <= self.ops.len(),
                self.ops@ == old(self).ops@,
                forall|j: int| 0 <= j < i ==> self.ops@[j] != op,
            decreases self.ops.len() - i,
        {
            if self.ops[i] == op {
                return Node(i);
            }
            i = i + 1;
        }
        let mut ops: Vec<Op> = Vec::new();
        core::mem::swap(&mut ops, &mut self.ops);
        let ghost before = ops@;
        ops.push(op);
        assert forall|k: int| 0 <= k < ops.len() implies op_folded(#[trigger] ops[k], ops@) by {
            if k < before.len() {
                assert(op_below(before[k], k));
                assert(op_folded(before[k], before));
            }
        }
        self.ops = ops;
        Node(i)
    }

    /// The node of the coordinate `axis`.
    pub fn input(&mut self, axis: Axis) -> (n: Node)
        ensures
            interns(old(self)@, Op::Input(axis), final(self)@, n),
    {
        self.intern(Op::Input(axis))
    }

    /// The node of the X coordinate.
    pub fn x(&mut self) -> (n: Node)
        ensures
            interns(old(self)@, Op::Input(Axis::X), final(self)@, n),
    {
        self.intern(Op::Input(Axis::X))
    }

    /// The node of the Y coordinate.
    pub fn y(&mut self) -> (n: Node)
        ensures
            interns(old(self)@, Op::Input(Axis::Y), final(self)@, n),
    {
        self.intern(Op::Input(Axis::Y))
    }

    /// The node of the Z coordinate.
    pub fn z(&mut self) -> (n: Node)
        ensures
            interns(old(self)@, Op::Input(Axis::Z), final(self)@, n),
    {
        self.intern(Op::Input(Axis::Z))
    }

    /// The node of the variable supplied at `index`.
    pub fn var(&mut self, index: u32) -> (n: Node)
        ensures
            interns(old(self)@, Op::Var(index), final(self)@, n),
    {
        self.intern(Op::Var(index))
    }

    /// The node of the constant with the given bits.
    pub fn constant(&mut self, bits: u32) -> (n: Node)
        ensures
            interns(old(self)@, Op::Const(bits), final(self)@, n),
    {
        self.intern(Op::Const(bits))
    }

    /// Inserts a unary operation on `a`.
    pub fn unary(&mut self, opcode: UnaryOpcode, a: Node) -> (r: Result<Node, Error>)
        ensures
            unary_outcome(old(self)@, opcode, a, final(self)@, r),
    {
        if a.0 >= self.ops.len() {
            return Err(Error::InvalidNode);
        }
        let op = match self.ops[a.0] {
            Op::Const(c) => Op::Const(
                match opcode {
                    UnaryOpcode::Neg => neg(c),
                    UnaryOpcode::Abs => abs(c),
                    UnaryOpcode::Recip => quotient(ONE, c),
                    UnaryOpcode::Sqrt => sqrt(c),
                    UnaryOpcode::Square => product(c, c),
                },
            ),
            _ => Op::Unary(opcode, a),
        };
        Ok(self.intern(op))
    }

    /// Inserts a binary operation on `a` and `b`.
    pub fn binary(&mut self, opcode: BinaryOpcode, a: Node, b: Node) -> (r: Result<Node, Error>)
        ensures
            binary_outcome(old(self)@, opcode, a, b, final(self)@, r),
    {
        if a.0 >= self.ops.len() || b.0 >= self.ops.len() {
            return Err(Error::InvalidNode);
        }
        let plain = Op::Binary(opcode, a, b);
        match (self.ops[a.0], self.ops[b.0]) {
            (Op::Const(x), Op::Const(y)) => {
                let c: u32 = match opcode {
                    BinaryOpcode::Add => sum(x, y),
                    BinaryOpcode::Sub => difference(x, y),
                    BinaryOpcode::Mul => product(x, y),
                    BinaryOpcode::Div => quotient(x, y),
                    BinaryOpcode::Min => min(x, y),
                    BinaryOpcode::Max => max(x, y),
                };
                Ok(self.intern(Op::Const(c)))
            },
            (_, Op::Const(y)) => match opcode {
                BinaryOpcode::Add | BinaryOpcode::Sub => if zero(y) {
                    Ok(a)
                } else {
                    Ok(self.intern(plain))
                },
                BinaryOpcode::Mul => if y == ONE {
                    Ok(a)
                } else if zero(y) {
                    Ok(self.intern(Op::Const(ZERO)))
                } else {
                    Ok(self.intern(plain))
                },
                _ => Ok(self.intern(plain)),
            },
            _ => match opcode {
                BinaryOpcode::Min | BinaryOpcode::Max => if a.0 == b.0 {
                    Ok(a)
                } else {
                    Ok(self.intern(plain))
                },
                _ => Ok(self.intern(plain)),
            },
        }
    }
}

impl Context {
    /// `a + b`.
    pub fn add(&mut self, a: Node, b: Node) -> (r: Result<Node, Error>)
        ensures
            binary_outcome(old(self)@, BinaryOpcode::Add, a, b, final(self)@, r),
    {
        self.binary(BinaryOpcode::Add, a, b)
    }

    /// `a - b`.
    pub fn sub(&mut self, a: Node, b: Node) -> (r: Result<Node, Error>)
        ensures
            binary_outcome(old(self)@, BinaryOpcode::Sub, a, b, final(self)@, r),
    {
        self.binary(BinaryOpcode::Sub, a, b)
    }

    /// `a * b`.
    pub fn mul(&mut self, a: Node, b: Node) -> (r: Result<Node, Error>)
        ensures
            binary_outcome(old(self)@, BinaryOpcode::Mul, a, b, final(self)@, r),
    {
        self.binary(BinaryOpcode::Mul, a, b)
    }

    /// `a / b`.
    pub fn div(&mut self, a: Node, b: Node) -> (r: Result<Node, Error>)
        ensures
            binary_outcome(old(self)@, BinaryOpcode::Div, a, b, final(self)@, r),
    {
        self.binary(BinaryOpcode::Div, a, b)
    }

    /// The smaller of `a` and `b`.
    pub fn min(&mut self, a: Node, b: Node) -> (r: Result<Node, Error>)
        ensures
            binary_outcome(old(self)@, BinaryOpcode::Min, a, b, final(self)@, r),
    {
        self.binary(BinaryOpcode::Min, a, b)
    }

    /// The larger of `a` and `b`.
    pub fn max(&mut self, a: Node, b: Node) -> (r: Result<Node, Error>)
        ensures
            binary_outcome(old(self)@, BinaryOpcode::Max, a, b, final(self)@, r),
    {
        self.binary(BinaryOpcode::Max, a, b)
    }

    /// `-a`.
    pub fn neg(&mut self, a: Node) -> (r: Result<Node, Error>)
        ensures
            unary_outcome(old(self)@, UnaryOpcode::Neg, a, final(self)@, r),
    {
        self.unary(UnaryOpcode::Neg, a)
    }

    /// The absolute value of `a`.
    pub fn abs(&mut self, a: Node) -> (r: Result<Node, Error>)
        ensures
            unary_outcome(old(self)@, UnaryOpcode::Abs, a, final(self)@, r),
    {
        self.unary(UnaryOpcode::Abs, a)
    }

    /// `1 / a`.
    pub fn recip(&mut self, a: Node) -> (r: Result<Node, Error>)
        ensures
            unary_outcome(old(self)@, UnaryOpcode::Recip, a, final(self)@, r),
    {
        self.unary(UnaryOpcode::Recip, a)
    }

    /// The square root of `a`.
    pub fn sqrt(&mut self, a: Node) -> (r: Result<Node, Error>)
        ensures
            unary_outcome(old(self)@, UnaryOpcode::Sqrt, a, final(self)@, r),
    {
        self.unary(UnaryOpcode::Sqrt, a)
    }

    /// `a * a`.
    pub fn square(&mut self, a: Node) -> (r: Result<Node, Error>)
        ensures
            unary_outcome(old(self)@, UnaryOpcode::Square, a, final(self)@, r),
    {
        self.unary(UnaryOpcode::Square, a)
    }
}

/// What `unary` does: it fails with `InvalidNode`, and changes nothing, for
/// an operand that is not of the context; else it interns the operation, or
/// its value if the operand is a constant.
pub open spec fn unary_outcome(
    before: Seq<Op>,
    opcode: UnaryOpcode,
    a: Node,
    after: Seq<Op>,
    r: Result<Node, Error>,
) -> bool {
    if a.0 >= before.len() {
        r == Err::<Node, Error>(Error::InvalidNode) && after == before
    } else {
        r is Ok && interns(before, unary_form(before, opcode, a), after, r->Ok_0)
    }
}

/// What `binary` does: it fails with `InvalidNode`, and changes nothing, for
/// an operand that is not of the context; else it resolves the operation as
/// `binary_form` says.
pub open spec fn binary_outcome(
    before: Seq<Op>,
    opcode: BinaryOpcode,
    a: Node,
    b: Node,
    after: Seq<Op>,
    r: Result<Node, Error>,
) -> bool {
    if a.0 >= before.len() || b.0 >= before.len() {
        r == Err::<Node, Error>(Error::InvalidNode) && after == before
    } else {
        r is Ok && resolves(before, binary_form(before, opcode, a, b), after, r->Ok_0)
    }
}

/// The operands of a record, left to right.
pub open spec fn children(op: Op) -> Seq<Node> {
    match op {
        Op::Unary(_, a) => seq![a],
        Op::Binary(_, a, b) => seq![a, b],
        _ => Seq::<Node>::empty(),
    }
}

} // verus!
