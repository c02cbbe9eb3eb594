//! What of an expression is reachable from its root, which nodes are small
//! enough to be repeated wherever they are used, and where the choices are.
//!
//! A context keeps every operand below its users, so one pass by descending
//! index visits each node after all of its users and one pass by ascending
//! index visits it after all of its operands.  No traversal recurses.

use crate::context::{has_child, is_choice, is_dag, op_below, Context, Node, Op};
use crate::error::Error;
use vstd::prelude::*;

verus! {

/// Whether `n` can be reached from `root` along operand edges: it is the
/// root, or some node that uses it can be reached.
pub open spec fn reachable(ops: Seq<Op>, root: int, n: int) -> bool
    decreases
        (if n <= root {
            root - n
        } else {
            0
        }),
        (if n <= root {
            root - n + 1
        } else {
            0
        }),
{
    n == root || (0 <= n < root && used_from(ops, root, n, n + 1))
}

/// Whether some reachable node with an index of at least `lo` has `n` as an
/// operand.
pub open spec fn used_from(ops: Seq<Op>, root: int, n: int, lo: int) -> bool
    decreases
        (if n <= root {
            root - n
        } else {
            0
        }),
        (if lo <= root {
            root - lo + 1
        } else {
            0
        }),
{
    n < lo <= root && ((reachable(ops, root, lo) && has_child(ops[lo], n)) || used_from(
        ops,
        root,
        n,
        lo + 1,
    ))
}

/// The number of operations in the tree below `n`, shared operands counted
/// once for each use: one more than the weights of the operands.
pub open spec fn weight(ops: Seq<Op>, n: int) -> nat
    decreases n,
{
    if 0 <= n < ops.len() {
        match ops[n] {
            Op::Unary(_, a) => if a.0 < n {
                1 + weight(ops, a.0 as int)
            } else {
                1
            },
            Op::Binary(_, a, b) => if a.0 < n && b.0 < n {
                1 + weight(ops, a.0 as int) + weight(ops, b.0 as int)
            } else {
                1
            },
            _ => 1,
        }
    } else {
        0
    }
}

/// Whether `n` is a minimum or maximum that `root` reaches.
pub open spec fn live_choice(ops: Seq<Op>, root: int, n: int) -> bool {
    0 <= n < ops.len() && reachable(ops, root, n) && is_choice(ops[n])
}

/// The number of reachable choices with an index of at least `lo`.
pub open spec fn choices_from(ops: Seq<Op>, root: int, lo: int) -> nat
    decreases
        (if lo <= root {
            root - lo + 1
        } else {
            0
        }),
{
    if lo > root {
        0
    } else {
        choices_from(ops, root, lo + 1) + if live_choice(ops, root, lo) {
            1nat
        } else {
            0nat
        }
    }
}

/// The choice index of `n`: reachable choices are numbered from the root
/// down, in the order in which a walk by descending index discovers them.
pub open spec fn choice_index(ops: Seq<Op>, root: int, n: int) -> Option<usize> {
    if live_choice(ops, root, n) {
        Some(choices_from(ops, root, n + 1) as usize)
    } else {
        None
    }
}

/// The table of the nodes that `root` reaches.
pub fn reach_table(ctx: &Context, root: Node) -> (r: Vec<bool>)
    requires
        root.0 < ctx@.len(),
    ensures
        r.len() == ctx@.len(),
        forall|n: int| 0 <= n < r.len() ==> r[n] == reachable(ctx@, root.0 as int, n),
{
    ctx.well_formed();
    let len = ctx.len();
    let ghost ops = ctx@;
    let ghost top = root.0 as int;
    let mut reach: Vec<bool> = Vec::new();
    let mut k: usize = 0;
    while k < len
        invariant
            k <= len,
            reach.len() == k,
            top == root.0,
            forall|n: int| 0 <= n < k ==> reach[n] == (n == top),
        decreases len - k,
    {
        reach.push(k == root.0);
        k = k + 1;
    }
    let mut i: usize = root.0 + 1;
    while i > 0
        invariant
            ops == ctx@,
            is_dag(ops),
            top == root.0,
            len == ops.len(),
            reach.len() == len,
            i <= top + 1,
            top < len,
            forall|n: int| i <= n < len ==> reach[n] == reachable(ops, top, n),
            forall|n: int|
                0 <= n < i ==> reach[n] == (n == top || used_from(ops, top, n, i as int)),
        decreases i,
    {
        let p: usize = i - 1;
        let ghost before = reach@;
        if reach[p] {
            match ctx.get_op(Node(p)) {
                Ok(Op::Unary(_, a)) => {
                    reach.set(a.0, true);
                },
                Ok(Op::Binary(_, a, b)) => {
                    reach.set(a.0, true);
                    reach.set(b.0, true);
                },
                _ => {},
            }
        }
        assert(before[p as int] == reachable(ops, top, p as int));
        assert forall|n: int| 0 <= n < p implies reach[n] == (n == top || used_from(
            ops,
            top,
            n,
            p as int,
        )) by {
            assert(before[n] == (n == top || used_from(ops, top, n, i as int)));
            assert(op_below(ops[p as int], p as int));
            if before[p as int] && has_child(ops[p as int], n) {
                assert(reach[n]);
            } else {
                assert(reach[n] == before[n]);
            }
        }
        i = p;
    }
    reach
}

/// The nodes to repeat wherever they are used: those that `root` reaches
/// whose weight is at most `max_weight`.  Entry `n` of the table says
/// whether node `n` is one of them.
pub fn pick_inline(ctx: &Context, root: Node, max_weight: usize) -> (r: Result<
    Vec<bool>,
    Error,
>)
    ensures
        root.0 >= ctx@.len() ==> r == Err::<Vec<bool>, Error>(Error::InvalidNode),
        root.0 < ctx@.len() ==> r is Ok && r->Ok_0.len() == ctx@.len() && forall|n: int|
            0 <= n < ctx@.len() ==> r->Ok_0[n] == (reachable(ctx@, root.0 as int, n) && weight(
                ctx@,
                n,
            ) <= max_weight),
{
    let len = ctx.len();
    if root.0 >= len {
        return Err(Error::InvalidNode);
    }
    ctx.well_formed();
    let ghost ops = ctx@;
    let cap: u128 = max_weight as u128 + 1;
    let mut capped: Vec<u128> = Vec::new();
    let mut i: usize = 0;
    while i < len
        invariant
            ops == ctx@,
            is_dag(ops),
            len == ops.len(),
            i <= len,
            capped.len() == i,
            cap == max_weight + 1,
            forall|j: int|
                0 <= j < i ==> capped[j] == (if weight(ops, j) < cap {
                    weight(ops, j)
                } else {
                    cap as nat
                }),
        decreases len - i,
    {
        let total: u128 = match ctx.get_op(Node(i)) {
            Ok(Op::Unary(_, a)) => 1 + capped[a.0],
            Ok(Op::Binary(_, a, b)) => 1 + capped[a.0] + capped[b.0],
            _ => 1,
        };
        capped.push(
            if total < cap {
                total
            } else {
                cap
            },
        );
        i = i + 1;
    }
    let reach = reach_table(ctx, root);
    let mut inline: Vec<bool> = Vec::new();
    let mut k: usize = 0;
    while k < len
        invariant
            k <= len,
            len == ops.len(),
            reach.len() == len,
            capped.len() == len,
            inline.len() == k,
            cap == max_weight + 1,
            forall|n: int| 0 <= n < len ==> reach[n] == reachable(ops, root.0 as int, n),
            forall|j: int|
                0 <= j < len ==> capped[j] == (if weight(ops, j) < cap {
                    weight(ops, j)
                } else {
                    cap as nat
                }),
            forall|n: int|
                0 <= n < k ==> inline[n] == (reachable(ops, root.0 as int, n) && weight(ops, n)
                    <= max_weight),
        decreases len - k,
    {
        inline.push(reach[k] && capped[k] < cap);
        k = k + 1;
    }
    Ok(inline)
}

/// Numbers the choices: entry `n` of the result is the choice index of node
/// `n` if it is a minimum or maximum that `root` reaches, else `None`.
pub fn assign_choices(ctx: &Context, root: Node) -> (r: Result<Vec<Option<usize>>, Error>)
    ensures
        root.0 >= ctx@.len() ==> r == Err::<Vec<Option<usize>>, Error>(Error::InvalidNode),
        root.0 < ctx@.len() ==> r is Ok && r->Ok_0.len() == ctx@.len() && forall|n: int|
            0 <= n < ctx@.len() ==> r->Ok_0[n] == choice_index(ctx@, root.0 as int, n),
{
    let len = ctx.len();
    if root.0 >= len {
        return Err(Error::InvalidNode);
    }
    let ghost ops = ctx@;
    let ghost top = root.0 as int;
    let reach = reach_table(ctx, root);
    let mut ids: Vec<Option<usize>> = Vec::new();
    let mut k: usize = 0;
    while k < len
        invariant
            k <= len,
            ids.len() == k,
            forall|n: int| 0 <= n < k ==> ids[n] == None::<usize>,
        decreases len - k,
    {
        ids.push(None);
        k = k + 1;
    }
    let mut count: usize = 0;
    let mut i: usize = root.0 + 1;
    while i > 0
        invariant
            ops == ctx@,
            top == root.0,
            len == ops.len(),
            top < len,
            reach.len() == len,
            ids.len() == len,
            i <= top + 1,
            count == choices_from(ops, top, i as int),
            count <= top + 1 - i,
            forall|n: int| 0 <= n < len ==> reach[n] == reachable(ops, top, n),
            forall|n: int| i <= n < len ==> ids[n] == choice_index(ops, top, n),
            forall|n: int| 0 <= n < i ==> ids[n] == None::<usize>,
        decreases i,
    {
        let p: usize = i - 1;
        let choice = reach[p] && match ctx.get_op(Node(p)) {
            Ok(Op::Binary(opcode, _, _)) => match opcode {
                crate::context::BinaryOpcode::Min => true,
                crate::context::BinaryOpcode::Max => true,
                _ => false,
            },
            _ => false,
        };
        assert(choice == live_choice(ops, top, p as int));
        if choice {
            ids.set(p, Some(count));
            count = count + 1;
        }
        i = p;
    }
    Ok(ids)
}

/// The number of reachable choices from an index up does not grow with the
/// index.
pub proof fn choices_from_falls(ops: Seq<Op>, root: int, lo: int, hi: int)
    requires
        lo <= hi,
    ensures
        choices_from(ops, root, lo) >= choices_from(ops, root, hi),
    decreases hi - lo,
{
    if lo < hi {
        choices_from_falls(ops, root, lo + 1, hi);
    }
}

/// There are no more reachable choices from an index up than nodes.
pub proof fn choices_from_bounded(ops: Seq<Op>, root: int, lo: int)
    requires
        0 <= lo,
    ensures
        choices_from(ops, root, lo) <= (if lo <= root {
            root - lo + 1
        } else {
            0
        }),
    decreases
        (if lo <= root {
            root - lo + 1
        } else {
            0
        }),
{
    if lo <= root {
        choices_from_bounded(ops, root, lo + 1);
    }
}

/// Every minimum and maximum that the root reaches has a choice index of
/// its own, and the indices are the numbers below the count of the choices.
pub proof fn choice_indices_are_unique(ops: Seq<Op>, root: int, a: int, b: int)
    requires
        0 <= root < ops.len() <= usize::MAX,
        live_choice(ops, root, a),
        live_choice(ops, root, b),
        a != b,
    ensures
        choice_index(ops, root, a) is Some,
        choice_index(ops, root, b) is Some,
        choice_index(ops, root, a) != choice_index(ops, root, b),
        choice_index(ops, root, a)->Some_0 < choices_from(ops, root, 0),
{
    choices_from_bounded(ops, root, a + 1);
    choices_from_bounded(ops, root, b + 1);
    choices_from_falls(ops, root, 0, a);
    if a < b {
        choices_from_falls(ops, root, a + 1, b);
    } else {
        choices_from_falls(ops, root, b + 1, a);
    }
}

} // verus!
