//! How the walks of the scheduler follow the edges of the graph: what is
//! entered is reachable, and the operands of what is reachable, entered or a
//! member are so too, as far as they are of the right kind.

use crate::context::{has_child, is_dag, op_below, Op};
use crate::groups::{marked, visited, visited_from};
use crate::members::{member, pulled_from};
use crate::schedule::{reachable, used_from, weight};
use vstd::prelude::*;

verus! {

/// A node that the walk enters is reachable from the root.
pub proof fn visited_is_reachable(ops: Seq<Op>, inline: Seq<bool>, root: int, n: int)
    requires
        visited(ops, inline, root, n),
    ensures
        reachable(ops, root, n),
    decreases
        (if n <= root {
            root - n
        } else {
            0
        }),
        (if n <= root {
            root - n + 3
        } else {
            0
        }),
{
    if n != root {
        visited_from_used(ops, inline, root, n, n + 1);
    }
}

/// Where an entered node from `lo` up uses `n`, a reachable node from `lo`
/// up uses it.
pub proof fn visited_from_used(ops: Seq<Op>, inline: Seq<bool>, root: int, n: int, lo: int)
    requires
        0 <= n,
        visited_from(ops, inline, root, n, lo),
    ensures
        used_from(ops, root, n, lo),
    decreases
        (if n <= root {
            root - n
        } else {
            0
        }),
        (if lo <= root {
            root - lo + 2
        } else {
            0
        }),
{
    if visited(ops, inline, root, lo) && has_child(ops[lo], n) {
        visited_is_reachable(ops, inline, root, lo);
    } else {
        visited_from_used(ops, inline, root, n, lo + 1);
    }
}

/// An operand of a reachable node is used by a reachable node.
pub proof fn used_by_parent(ops: Seq<Op>, root: int, c: int, p: int, lo: int)
    requires
        0 <= c < lo <= p <= root,
        reachable(ops, root, p),
        has_child(ops[p], c),
    ensures
        used_from(ops, root, c, lo),
    decreases p - lo,
{
    if lo < p {
        used_by_parent(ops, root, c, p, lo + 1);
    }
}

/// An operand of a reachable node is reachable.
pub proof fn child_is_reachable(ops: Seq<Op>, root: int, p: int, c: int)
    requires
        0 <= c < p <= root,
        reachable(ops, root, p),
        has_child(ops[p], c),
    ensures
        reachable(ops, root, c),
{
    used_by_parent(ops, root, c, p, c + 1);
}

/// An operand of an entered node is used by an entered node.
pub proof fn entered_by_parent(ops: Seq<Op>, inline: Seq<bool>, root: int, c: int, p: int, lo: int)
    requires
        0 <= c < lo <= p <= root,
        visited(ops, inline, root, p),
        has_child(ops[p], c),
    ensures
        visited_from(ops, inline, root, c, lo),
    decreases p - lo,
{
    if lo < p {
        entered_by_parent(ops, inline, root, c, p, lo + 1);
    }
}

/// An operand of an entered node is entered, unless it is inline.
pub proof fn child_is_visited(ops: Seq<Op>, inline: Seq<bool>, root: int, p: int, c: int)
    requires
        0 <= c < p <= root,
        visited(ops, inline, root, p),
        has_child(ops[p], c),
        !marked(inline, c),
    ensures
        visited(ops, inline, root, c),
{
    entered_by_parent(ops, inline, root, c, p, c + 1);
}

/// An operand of a member is used by a member.
pub proof fn pulled_by_parent(
    ops: Seq<Op>,
    inline: Seq<bool>,
    base: Seq<crate::context::Node>,
    c: int,
    p: int,
    lo: int,
)
    requires
        0 <= c < lo <= p < ops.len(),
        member(ops, inline, base, p),
        has_child(ops[p], c),
    ensures
        pulled_from(ops, inline, base, c, lo),
    decreases p - lo,
{
    if lo < p {
        pulled_by_parent(ops, inline, base, c, p, lo + 1);
    }
}

/// An inline operand of a member is a member.
pub proof fn child_is_member(
    ops: Seq<Op>,
    inline: Seq<bool>,
    base: Seq<crate::context::Node>,
    p: int,
    c: int,
)
    requires
        0 <= c < p < ops.len(),
        member(ops, inline, base, p),
        has_child(ops[p], c),
        marked(inline, c),
    ensures
        member(ops, inline, base, c),
{
    pulled_by_parent(ops, inline, base, c, p, c + 1);
}

/// An operand weighs less than its user.
pub proof fn child_is_lighter(ops: Seq<Op>, p: int, c: int)
    requires
        is_dag(ops),
        0 <= p < ops.len(),
        has_child(ops[p], c),
    ensures
        weight(ops, c) < weight(ops, p),
{
    assert(op_below(ops[p], p));
}

/// A member that is not inline is one of the nodes from which its group
/// grew.
pub proof fn heavy_member_is_base(
    ops: Seq<Op>,
    inline: Seq<bool>,
    base: Seq<crate::context::Node>,
    n: int,
)
    requires
        member(ops, inline, base, n),
        !marked(inline, n),
    ensures
        base.contains(crate::context::Node(n as usize)),
{
}

} // verus!
