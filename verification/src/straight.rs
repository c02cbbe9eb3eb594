//! Expressions without a minimum or maximum.
//!
//! Such an expression has no choice to depend on: every node that the walk
//! from the root enters is always needed, so there is one group, which no
//! other group has to precede.  It can therefore always be scheduled, and
//! its tape has at most one operation for each of its nodes.

use crate::allocator::MAX_OPS;
use crate::context::{has_child, is_choice, Node, Op};
use crate::groups::{
    in_condition, same_clauses, seen, seen_from, visited, visited_from, DnfClause, Grouping,
};
use crate::order::is_order;
use crate::plan::{choice_table, grouped, inline_table, schedule_of, unschedulable, Schedule};
use crate::ssa::{emitting, flat};
use crate::tape::oversized;
use vstd::prelude::*;

verus! {

/// Whether no node is a minimum or a maximum.
pub open spec fn choice_free(ops: Seq<Op>) -> bool {
    forall|n: int| 0 <= n < ops.len() ==> !is_choice(#[trigger] ops[n])
}

/// Without a minimum or maximum, the walk reaches every node that it enters
/// with the empty clause.
pub proof fn entered_is_needed(
    ops: Seq<Op>,
    inline: Seq<bool>,
    ids: Seq<Option<usize>>,
    root: int,
    n: int,
)
    requires
        choice_free(ops),
        0 <= root < ops.len(),
        visited(ops, inline, root, n),
    ensures
        seen(ops, inline, ids, root, n, None),
    decreases
        (if n <= root {
            root - n
        } else {
            0
        }),
        (if n <= root {
            root - n + 1
        } else {
            0
        }),
{
    if n != root {
        used_is_needed(ops, inline, ids, root, n, n + 1);
    }
}

/// Without a minimum or maximum, an operand of an entered node is handed
/// the empty clause.
pub proof fn used_is_needed(
    ops: Seq<Op>,
    inline: Seq<bool>,
    ids: Seq<Option<usize>>,
    root: int,
    n: int,
    lo: int,
)
    requires
        choice_free(ops),
        0 <= root < ops.len(),
        visited_from(ops, inline, root, n, lo),
    ensures
        seen_from(ops, inline, ids, root, n, None, lo),
    decreases
        (if n <= root {
            root - n
        } else {
            0
        }),
        (if lo <= root {
            root - lo + 1
        } else {
            0
        }),
{
    if visited(ops, inline, root, lo) && has_child(ops[lo], n) {
        entered_is_needed(ops, inline, ids, root, lo);
    } else {
        used_is_needed(ops, inline, ids, root, n, lo + 1);
    }
}

/// An expression without a minimum or maximum has one group, which no
/// group has to precede: the order that holds that group alone is an order
/// of its groups.
pub proof fn one_group(
    ops: Seq<Op>,
    root: int,
    max_weight: int,
    raw: Grouping,
    members: Seq<Vec<Node>>,
    parents: Seq<Vec<usize>>,
)
    requires
        choice_free(ops),
        0 <= root < ops.len(),
        grouped(ops, root, max_weight, raw, members, parents),
    ensures
        raw.groups.len() == 1,
        parents.len() == 1,
        parents[0].len() == 0,
        is_order(parents, seq![0usize]),
{
    let inline = inline_table(ops, root, max_weight);
    let ids = choice_table(ops, root);
    let groups = raw.groups@;
    let home = raw.home@;
    assert(visited(ops, inline, root, root));
    assert(home[root] is Some);
    assert(groups.len() >= 1);
    if groups.len() >= 2 {
        let a = groups[0].nodes[0];
        let b = groups[1].nodes[0];
        assert(home[a.0 as int] == Some(0usize));
        assert(home[b.0 as int] == Some(1usize));
        assert(home[a.0 as int] is Some);
        assert(home[b.0 as int] is Some);
        entered_is_needed(ops, inline, ids, root, a.0 as int);
        entered_is_needed(ops, inline, ids, root, b.0 as int);
        assert forall|c: Option<DnfClause>|
            groups[0].dnf@.contains(c) <==> groups[1].dnf@.contains(c) by {
            assert(groups[0].dnf@.contains(c) <==> in_condition(
                ops,
                inline,
                ids,
                root,
                groups[0].nodes[0].0 as int,
                c,
            ));
            assert(groups[1].dnf@.contains(c) <==> in_condition(
                ops,
                inline,
                ids,
                root,
                groups[1].nodes[0].0 as int,
                c,
            ));
        }
        assert(same_clauses(groups[0].dnf@, groups[1].dnf@));
    }
    if parents[0].len() > 0 {
        let h = parents[0]@[0];
        assert(parents[0]@.contains(h));
    }
    let order = seq![0usize];
    assert(order[0] == 0);
    assert forall|g: usize| g < parents.len() implies order.contains(g) by {
        assert(order[0] == g);
    }
}

/// An expression without a minimum or maximum can be scheduled.
pub proof fn straight_is_schedulable(ops: Seq<Op>, root: int, max_weight: int)
    requires
        choice_free(ops),
        0 <= root < ops.len(),
    ensures
        !unschedulable(ops, root, max_weight),
{
    if unschedulable(ops, root, max_weight) {
        let (raw, members, parents) = choose|
            raw: Grouping,
            members: Seq<Vec<Node>>,
            parents: Seq<Vec<usize>>,
        | #[trigger]
            grouped(ops, root, max_weight, raw, members, parents) && forall|order: Seq<usize>|
                !is_order(parents, order);
        one_group(ops, root, max_weight, raw, members, parents);
    }
}

/// No more nodes of a list get an operation than the list holds.
pub proof fn emitting_is_shorter(ops: Seq<Op>, root: int, list: Seq<Node>)
    ensures
        emitting(ops, root, list).len() <= list.len(),
    decreases list.len(),
{
    if list.len() > 0 {
        emitting_is_shorter(ops, root, list.drop_last());
    }
}

/// In a list of nodes by descending index, the node at position `k` has at
/// least as large an index as there are nodes after it.
pub proof fn descending_is_short(list: Seq<Node>, k: int)
    requires
        0 <= k < list.len(),
        forall|i: int, j: int|
            0 <= i < j < list.len() ==> (#[trigger] list[i]).0 > (#[trigger] list[j]).0,
    ensures
        list[k].0 >= list.len() - 1 - k,
    decreases list.len() - k,
{
    if k + 1 < list.len() {
        descending_is_short(list, k + 1);
    }
}

/// The tape of an expression without a minimum or maximum has at most one
/// operation for each node: with at most `MAX_OPS` nodes it is not too
/// long.
pub proof fn straight_fits(ops: Seq<Op>, root: int, max_weight: int)
    requires
        choice_free(ops),
        0 <= root < ops.len() <= MAX_OPS,
    ensures
        !oversized(ops, root, max_weight),
{
    if oversized(ops, root, max_weight) {
        let s = choose|s: Schedule| #[trigger]
            schedule_of(ops, root, max_weight, s) && flat(
                ops,
                root,
                s.members@,
                s.order@,
                s.order.len() as int,
            ).len() > MAX_OPS;
        reveal(schedule_of);
        one_group(ops, root, max_weight, s.raw, s.members@, s.parents@);
        let list = s.members@[0]@;
        assert(s.order@.len() == 1);
        assert(s.order@[0] == 0);
        assert(flat(ops, root, s.members@, s.order@, 0) =~= Seq::<Node>::empty());
        assert(flat(ops, root, s.members@, s.order@, 1) =~= emitting(ops, root, list));
        emitting_is_shorter(ops, root, list);
        if list.len() > 0 {
            descending_is_short(list, 0);
            assert(crate::members::member(
                ops,
                inline_table(ops, root, max_weight),
                s.raw.groups@[0].nodes@,
                list[0].0 as int,
            ));
        }
    }
}

} // verus!
