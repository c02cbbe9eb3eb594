//! The schedule of an expression is determined by the expression.
//!
//! What a schedule is was said by what holds of it.  Here it is shown that
//! this leaves no choice where it matters: two groupings of one expression
//! have the same groups with the same nodes in the same order, the groups
//! have the same members, and two schedules emit the groups in the same
//! order.  So an expression that has a schedule has no grouping without an
//! order, and its tape on symbolic slots is the same whichever schedule is
//! taken: compiling gives one result.

use crate::allocator::MAX_OPS;
use crate::context::{Node, Op};
use crate::groups::{groups_of, in_condition, marked, same_clauses, DnfClause, Grouping};
use crate::members::member;
use crate::order::{emitted_before, is_order, least_first, placed_before, ready};
use crate::plan::{
    choice_table, grouped, inline_table, lists_members, schedule_of, unschedulable, Schedule,
};
use crate::context::{has_child, is_dag, is_folded, op_below};
use crate::op::SsaOp;
use crate::ssa::{
    exact_at, flat, list_of, made_op, made_op_agrees, read_slot, reader, start_of, start_of_grows,
    tape_of, SsaTape,
};
use crate::policy::{allocated_ops, allocated_slots};
use crate::tape::{compiled, oversized, Tape};
use vstd::prelude::*;

verus! {

/// Whether the numbers of a list fall strictly.
pub open spec fn falling(a: Seq<int>) -> bool {
    forall|i: int, j: int| 0 <= i < j < a.len() ==> #[trigger] a[i] > #[trigger] a[j]
}

/// Two lists of strictly falling numbers that hold the same numbers are the
/// same list.
pub proof fn falling_lists_are_equal(a: Seq<int>, b: Seq<int>)
    requires
        falling(a),
        falling(b),
        forall|i: int| 0 <= i < a.len() ==> b.contains(#[trigger] a[i]),
        forall|j: int| 0 <= j < b.len() ==> a.contains(#[trigger] b[j]),
    ensures
        a == b,
    decreases a.len(),
{
    if a.len() == 0 {
        if b.len() > 0 {
            assert(a.contains(b[0]));
        }
        assert(a =~= b);
    } else {
        assert(b.contains(a[0]));
        let j0 = choose|j: int| 0 <= j < b.len() && b[j] == a[0];
        assert(a.contains(b[0]));
        let i0 = choose|i: int| 0 <= i < a.len() && a[i] == b[0];
        assert(a[0] == b[0]);
        let x = a.drop_first();
        let y = b.drop_first();
        assert forall|i: int| 0 <= i < x.len() implies y.contains(#[trigger] x[i]) by {
            assert(x[i] == a[i + 1]);
            assert(b.contains(a[i + 1]));
            let j = choose|j: int| 0 <= j < b.len() && b[j] == a[i + 1];
            assert(j > 0);
            assert(y[j - 1] == b[j]);
        }
        assert forall|j: int| 0 <= j < y.len() implies x.contains(#[trigger] y[j]) by {
            assert(y[j] == b[j + 1]);
            assert(a.contains(b[j + 1]));
            let i = choose|i: int| 0 <= i < a.len() && a[i] == b[j + 1];
            assert(i > 0);
            assert(x[i - 1] == a[i]);
        }
        assert(falling(x)) by {
            assert forall|i: int, j: int| 0 <= i < j < x.len() implies #[trigger] x[i]
                > #[trigger] x[j] by {
                assert(x[i] == a[i + 1] && x[j] == a[j + 1]);
            }
        }
        assert(falling(y)) by {
            assert forall|i: int, j: int| 0 <= i < j < y.len() implies #[trigger] y[i]
                > #[trigger] y[j] by {
                assert(y[i] == b[i + 1] && y[j] == b[j + 1]);
            }
        }
        falling_lists_are_equal(x, y);
        assert(a =~= seq![a[0]] + x);
        assert(b =~= seq![b[0]] + y);
    }
}

/// The indices of a list of nodes.
pub open spec fn indices(list: Seq<Node>) -> Seq<int> {
    Seq::new(list.len(), |k: int| list[k].0 as int)
}

/// Two lists of nodes by strictly falling index that hold the same nodes
/// are the same list.
pub proof fn falling_nodes_are_equal(a: Seq<Node>, b: Seq<Node>)
    requires
        forall|i: int, j: int| 0 <= i < j < a.len() ==> (#[trigger] a[i]).0 > (#[trigger] a[j]).0,
        forall|i: int, j: int| 0 <= i < j < b.len() ==> (#[trigger] b[i]).0 > (#[trigger] b[j]).0,
        forall|i: int| 0 <= i < a.len() ==> b.contains(#[trigger] a[i]),
        forall|j: int| 0 <= j < b.len() ==> a.contains(#[trigger] b[j]),
    ensures
        a == b,
{
    let x = indices(a);
    let y = indices(b);
    assert forall|i: int| 0 <= i < x.len() implies y.contains(#[trigger] x[i]) by {
        assert(b.contains(a[i]));
        let j = choose|j: int| 0 <= j < b.len() && b[j] == a[i];
        assert(y[j] == x[i]);
    }
    assert forall|j: int| 0 <= j < y.len() implies x.contains(#[trigger] y[j]) by {
        assert(a.contains(b[j]));
        let i = choose|i: int| 0 <= i < a.len() && a[i] == b[j];
        assert(x[i] == y[j]);
    }
    assert(falling(x)) by {
        assert forall|i: int, j: int| 0 <= i < j < x.len() implies #[trigger] x[i]
            > #[trigger] x[j] by {
            assert(a[i].0 > a[j].0);
        }
    }
    assert(falling(y)) by {
        assert forall|i: int, j: int| 0 <= i < j < y.len() implies #[trigger] y[i]
            > #[trigger] y[j] by {
            assert(b[i].0 > b[j].0);
        }
    }
    falling_lists_are_equal(x, y);
    assert(x.len() == a.len() && y.len() == b.len());
    assert(a.len() == b.len());
    assert forall|k: int| 0 <= k < a.len() implies a[k] == b[k] by {
        assert(x[k] == y[k]);
    }
    assert(a =~= b);
}

/// Whether two nodes are needed under the same condition.
pub open spec fn same_condition(
    ops: Seq<Op>,
    inline: Seq<bool>,
    ids: Seq<Option<usize>>,
    root: int,
    n: int,
    m: int,
) -> bool {
    forall|c: Option<DnfClause>| #[trigger]
        in_condition(ops, inline, ids, root, n, c) <==> in_condition(ops, inline, ids, root, m, c)
}

/// The clauses of the group of a node are the condition of the node.
pub proof fn group_has_condition(
    ops: Seq<Op>,
    inline: Seq<bool>,
    ids: Seq<Option<usize>>,
    root: int,
    g: Grouping,
    n: int,
)
    requires
        groups_of(ops, inline, ids, root, g),
        ops.len() <= usize::MAX,
        0 <= n < ops.len(),
        g.home@[n] is Some,
    ensures
        g.home@[n]->Some_0 < g.groups.len(),
        g.groups[g.home@[n]->Some_0 as int].nodes@.contains(Node(n as usize)),
        forall|c: Option<DnfClause>|
            g.groups[g.home@[n]->Some_0 as int].dnf@.contains(c) <==> #[trigger] in_condition(
                ops,
                inline,
                ids,
                root,
                n,
                c,
            ),
{
    let i = g.home@[n]->Some_0 as int;
    let list = g.groups[i].nodes@;
    assert(list.contains(Node(n as usize)));
    let k = choose|k: int| 0 <= k < list.len() && list[k] == Node(n as usize);
    assert forall|c: Option<DnfClause>|
        g.groups[i].dnf@.contains(c) <==> #[trigger] in_condition(ops, inline, ids, root, n, c) by {
        assert(g.groups@[i].dnf@.contains(c) <==> in_condition(
            ops,
            inline,
            ids,
            root,
            g.groups@[i].nodes[k].0 as int,
            c,
        ));
    }
}

/// Two nodes stand in the same group exactly if they are needed under the
/// same condition.
pub proof fn group_is_condition(
    ops: Seq<Op>,
    inline: Seq<bool>,
    ids: Seq<Option<usize>>,
    root: int,
    g: Grouping,
    n: int,
    m: int,
)
    requires
        groups_of(ops, inline, ids, root, g),
        ops.len() <= usize::MAX,
        0 <= n < ops.len(),
        0 <= m < ops.len(),
        g.home@[n] is Some,
        g.home@[m] is Some,
    ensures
        g.home@[n] == g.home@[m] <==> same_condition(ops, inline, ids, root, n, m),
{
    group_has_condition(ops, inline, ids, root, g, n);
    group_has_condition(ops, inline, ids, root, g, m);
    let i = g.home@[n]->Some_0 as int;
    let j = g.home@[m]->Some_0 as int;
    if i == j {
        assert(same_condition(ops, inline, ids, root, n, m));
    } else if same_condition(ops, inline, ids, root, n, m) {
        assert forall|c: Option<DnfClause>|
            g.groups[i].dnf@.contains(c) <==> g.groups[j].dnf@.contains(c) by {
            assert(in_condition(ops, inline, ids, root, n, c) <==> in_condition(
                ops,
                inline,
                ids,
                root,
                m,
                c,
            ));
        }
        assert(same_clauses(g.groups@[i].dnf@, g.groups@[j].dnf@));
        assert(same_clauses(g.groups@[j].dnf@, g.groups@[i].dnf@));
    }
}

/// The first nodes of the groups.
pub open spec fn firsts(g: Grouping) -> Seq<int> {
    Seq::new(g.groups.len() as nat, |i: int| g.groups[i].nodes[0].0 as int)
}

/// The first node of a group of one grouping is the first node of the group
/// in which it stands in another.
pub proof fn first_is_first(
    ops: Seq<Op>,
    inline: Seq<bool>,
    ids: Seq<Option<usize>>,
    root: int,
    g: Grouping,
    h: Grouping,
    i: int,
)
    requires
        groups_of(ops, inline, ids, root, g),
        groups_of(ops, inline, ids, root, h),
        ops.len() <= usize::MAX,
        0 <= i < g.groups.len(),
    ensures
        firsts(h).contains(firsts(g)[i]),
{
    let a = g.groups[i].nodes[0];
    assert(g.home@[a.0 as int] == Some(i as usize));
    assert(g.home@[a.0 as int] is Some);
    assert(h.home@[a.0 as int] is Some);
    let j = h.home@[a.0 as int]->Some_0 as int;
    let b = h.groups[j].nodes[0];
    assert(h.home@[b.0 as int] == Some(j as usize));
    assert(h.home@[b.0 as int] is Some);
    assert(g.home@[b.0 as int] is Some);
    group_is_condition(ops, inline, ids, root, h, a.0 as int, b.0 as int);
    group_is_condition(ops, inline, ids, root, g, a.0 as int, b.0 as int);
    // each is a node of the other's group, whose first node is its largest
    let gl = g.groups[i].nodes@;
    let hl = h.groups[j].nodes@;
    assert(hl.contains(Node(a.0)));
    let k = choose|k: int| 0 <= k < hl.len() && hl[k] == Node(a.0);
    assert(hl[0].0 >= hl[k].0);
    assert(gl.contains(Node(b.0)));
    let l = choose|l: int| 0 <= l < gl.len() && gl[l] == Node(b.0);
    assert(gl[0].0 >= gl[l].0);
    assert(a == b);
    assert(firsts(h)[j] == firsts(g)[i]);
}

/// Two groupings of one expression have the same groups, with the same
/// nodes in the same order, and every node stands in the same group.
pub proof fn groups_are_unique(
    ops: Seq<Op>,
    inline: Seq<bool>,
    ids: Seq<Option<usize>>,
    root: int,
    g: Grouping,
    h: Grouping,
)
    requires
        groups_of(ops, inline, ids, root, g),
        groups_of(ops, inline, ids, root, h),
        ops.len() <= usize::MAX,
    ensures
        g.groups.len() == h.groups.len(),
        g.home@ == h.home@,
        forall|i: int| 0 <= i < g.groups.len() ==> (#[trigger] g.groups[i]).nodes@ == h.groups[i].nodes@,
{
    let x = firsts(g);
    let y = firsts(h);
    assert forall|i: int| 0 <= i < x.len() implies y.contains(#[trigger] x[i]) by {
        first_is_first(ops, inline, ids, root, g, h, i);
    }
    assert forall|j: int| 0 <= j < y.len() implies x.contains(#[trigger] y[j]) by {
        first_is_first(ops, inline, ids, root, h, g, j);
    }
    assert(falling(x)) by {
        assert forall|i: int, j: int| 0 <= i < j < x.len() implies #[trigger] x[i]
            > #[trigger] x[j] by {
            assert(g.groups@[i].nodes[0].0 > g.groups@[j].nodes[0].0);
        }
    }
    assert(falling(y)) by {
        assert forall|i: int, j: int| 0 <= i < j < y.len() implies #[trigger] y[i]
            > #[trigger] y[j] by {
            assert(h.groups@[i].nodes[0].0 > h.groups@[j].nodes[0].0);
        }
    }
    falling_lists_are_equal(x, y);
    assert(x.len() == g.groups.len() && y.len() == h.groups.len());
    // a node stands in the same group in both
    assert forall|n: int| 0 <= n < ops.len() implies g.home@[n] == h.home@[n] by {
        if g.home@[n] is Some {
            assert(h.home@[n] is Some);
            let i = g.home@[n]->Some_0 as int;
            let j = h.home@[n]->Some_0 as int;
            let a = g.groups[i].nodes[0];
            assert(x[i] == y[i]);
            let b = h.groups[i].nodes[0];
            assert(a == b);
            assert(g.home@[a.0 as int] == Some(i as usize));
            assert(h.home@[a.0 as int] == Some(i as usize));
            assert(g.home@[a.0 as int] is Some && h.home@[a.0 as int] is Some);
            group_is_condition(ops, inline, ids, root, g, n, a.0 as int);
            group_is_condition(ops, inline, ids, root, h, n, a.0 as int);
        } else {
            assert(!(h.home@[n] is Some));
        }
    }
    assert(g.home@ =~= h.home@);
    assert forall|i: int| 0 <= i < g.groups.len() implies (#[trigger] g.groups[i]).nodes@
        == h.groups[i].nodes@ by {
        let a = g.groups[i].nodes@;
        let b = h.groups[i].nodes@;
        assert forall|k: int| 0 <= k < a.len() implies b.contains(#[trigger] a[k]) by {
            assert(g.home@[g.groups@[i].nodes[k].0 as int] == Some(i as usize));
            assert(h.home@[a[k].0 as int] is Some);
        }
        assert forall|k: int| 0 <= k < b.len() implies a.contains(#[trigger] b[k]) by {
            assert(h.home@[h.groups@[i].nodes[k].0 as int] == Some(i as usize));
            assert(g.home@[b[k].0 as int] is Some);
        }
        assert forall|k: int, l: int| 0 <= k < l < a.len() implies (#[trigger] a[k]).0 > (
        #[trigger] a[l]).0 by {
            assert(g.groups@[i].nodes[k].0 > g.groups@[i].nodes[l].0);
        }
        assert forall|k: int, l: int| 0 <= k < l < b.len() implies (#[trigger] b[k]).0 > (
        #[trigger] b[l]).0 by {
            assert(h.groups@[i].nodes[k].0 > h.groups@[i].nodes[l].0);
        }
        falling_nodes_are_equal(a, b);
    }
}

/// Two lists of the members of one group are the same list.
pub proof fn members_are_unique(
    ops: Seq<Op>,
    inline: Seq<bool>,
    base: Seq<Node>,
    a: Seq<Node>,
    b: Seq<Node>,
)
    requires
        ops.len() <= usize::MAX,
        lists_members(ops, inline, base, a),
        lists_members(ops, inline, base, b),
    ensures
        a == b,
{
    assert forall|i: int| 0 <= i < a.len() implies b.contains(#[trigger] a[i]) by {
        assert(member(ops, inline, base, a[i].0 as int));
        assert(b.contains(Node(a[i].0 as int as usize)));
    }
    assert forall|j: int| 0 <= j < b.len() implies a.contains(#[trigger] b[j]) by {
        assert(member(ops, inline, base, b[j].0 as int));
        assert(a.contains(Node(b[j].0 as int as usize)));
    }
    falling_nodes_are_equal(a, b);
}

/// Whether two tables list the same groups for every group.
pub open spec fn same_parents(p: Seq<Vec<usize>>, q: Seq<Vec<usize>>) -> bool {
    &&& p.len() == q.len()
    &&& forall|g: int, h: usize|
        0 <= g < p.len() ==> (#[trigger] p[g]@.contains(h) <==> #[trigger] q[g]@.contains(h))
}

/// Two groupings of one expression, each with its members and with the
/// groups that use each group, agree: the members are the same lists, and
/// the same groups use each group.
pub proof fn groupings_agree(
    ops: Seq<Op>,
    root: int,
    max_weight: int,
    g: Grouping,
    gm: Seq<Vec<Node>>,
    gp: Seq<Vec<usize>>,
    h: Grouping,
    hm: Seq<Vec<Node>>,
    hp: Seq<Vec<usize>>,
)
    requires
        ops.len() <= usize::MAX,
        grouped(ops, root, max_weight, g, gm, gp),
        grouped(ops, root, max_weight, h, hm, hp),
    ensures
        g.groups.len() == h.groups.len(),
        g.home@ == h.home@,
        gm.len() == hm.len(),
        forall|i: int| 0 <= i < gm.len() ==> (#[trigger] gm[i])@ == hm[i]@,
        same_parents(gp, hp),
{
    let inline = inline_table(ops, root, max_weight);
    let ids = choice_table(ops, root);
    groups_are_unique(ops, inline, ids, root, g, h);
    assert forall|i: int| 0 <= i < gm.len() implies (#[trigger] gm[i])@ == hm[i]@ by {
        assert(g.groups[i].nodes@ == h.groups[i].nodes@);
        assert(lists_members(ops, inline, g.groups[i].nodes@, gm[i]@));
        assert(lists_members(ops, inline, h.groups[i].nodes@, hm[i]@));
        members_are_unique(ops, inline, g.groups[i].nodes@, gm[i]@, hm[i]@);
    }
    assert forall|i: int, k: usize| 0 <= i < gp.len() implies (#[trigger] gp[i]@.contains(k)
        <==> #[trigger] hp[i]@.contains(k)) by {
        if k < gm.len() {
            assert(gm[k as int]@ == hm[k as int]@);
        }
    }
}

/// An order of the groups by one table is an order by a table that lists
/// the same groups, and where it takes the smallest group that is ready
/// first by the one, it does so by the other.
pub proof fn order_carries_over(p: Seq<Vec<usize>>, q: Seq<Vec<usize>>, order: Seq<usize>)
    requires
        same_parents(p, q),
        is_order(p, order),
    ensures
        is_order(q, order),
        least_first(p, order) ==> least_first(q, order),
{
    assert forall|j: int, k: int|
        0 <= j < order.len() && 0 <= k < q[order[j] as int].len() implies placed_before(
        order,
        j,
        (#[trigger] q[order[j] as int][k]) as int,
    ) by {
        let g = order[j] as int;
        let h = q[g][k];
        assert(q[g]@.contains(h));
        assert(p[g]@.contains(h));
        let l = choose|l: int| 0 <= l < p[g]@.len() && p[g]@[l] == h;
        assert(placed_before(order, j, p[order[j] as int][l] as int));
    }
    if least_first(p, order) {
        assert forall|j: int, g: int| 0 <= j < order.len() && 0 <= g < #[trigger] order[j] implies marked(
            emitted_before(order, q.len(), j),
            g,
        ) || !#[trigger] ready(q, emitted_before(order, q.len(), j), g) by {
            let e = emitted_before(order, p.len(), j);
            if !marked(e, g) {
                assert(!ready(p, e, g));
                let k = choose|k: int|
                    0 <= k < p[g].len() && !marked(e, (#[trigger] p[g][k]) as int);
                let h = p[g][k];
                assert(p[g]@.contains(h));
                assert(q[g]@.contains(h));
                let l = choose|l: int| 0 <= l < q[g]@.len() && q[g]@[l] == h;
                assert(!marked(e, q[g][l] as int));
            }
        }
    }
}

/// An expression that has a schedule has no grouping without an order.
pub proof fn scheduled_is_schedulable(ops: Seq<Op>, root: int, max_weight: int, s: Schedule)
    requires
        ops.len() <= usize::MAX,
        schedule_of(ops, root, max_weight, s),
    ensures
        !unschedulable(ops, root, max_weight),
{
    reveal(schedule_of);
    if unschedulable(ops, root, max_weight) {
        let (raw, members, parents) = choose|
            raw: Grouping,
            members: Seq<Vec<Node>>,
            parents: Seq<Vec<usize>>,
        | #[trigger]
            grouped(ops, root, max_weight, raw, members, parents) && forall|order: Seq<usize>|
                !is_order(parents, order);
        groupings_agree(
            ops,
            root,
            max_weight,
            s.raw,
            s.members@,
            s.parents@,
            raw,
            members,
            parents,
        );
        order_carries_over(s.parents@, parents, s.order@);
    }
}

/// Two orders that both take, at every step, the smallest group that is
/// ready agree in their first `j` entries.
pub proof fn orders_agree(p: Seq<Vec<usize>>, a: Seq<usize>, b: Seq<usize>, j: int)
    requires
        is_order(p, a),
        least_first(p, a),
        is_order(p, b),
        least_first(p, b),
        0 <= j <= p.len(),
    ensures
        a.take(j) == b.take(j),
    decreases j,
{
    if j == 0 {
        assert(a.take(0) =~= b.take(0));
    } else {
        orders_agree(p, a, b, j - 1);
        let i = j - 1;
        let ea = emitted_before(a, p.len(), i);
        let eb = emitted_before(b, p.len(), i);
        assert forall|g: int| 0 <= g < p.len() implies ea[g] == eb[g] by {
            if placed_before(a, i, g) {
                let k = choose|k: int| 0 <= k < i && #[trigger] a[k] == g;
                assert(a.take(i)[k] == b.take(i)[k]);
                assert(b[k] == g);
            }
            if placed_before(b, i, g) {
                let k = choose|k: int| 0 <= k < i && #[trigger] b[k] == g;
                assert(a.take(i)[k] == b.take(i)[k]);
                assert(a[k] == g);
            }
        }
        assert(ea =~= eb);
        let x = a[i] as int;
        let y = b[i] as int;
        // each of the two is ready and not yet emitted
        assert(!marked(ea, x)) by {
            if placed_before(a, i, x) {
                let k = choose|k: int| 0 <= k < i && #[trigger] a[k] == x;
                assert(a[k] != a[i]);
            }
        }
        assert(!marked(eb, y)) by {
            if placed_before(b, i, y) {
                let k = choose|k: int| 0 <= k < i && #[trigger] b[k] == y;
                assert(b[k] != b[i]);
            }
        }
        assert(ready(p, ea, x)) by {
            assert forall|k: int| 0 <= k < p[x].len() implies marked(
                ea,
                (#[trigger] p[x][k]) as int,
            ) by {
                assert(placed_before(a, i, p[a[i] as int][k] as int));
                let h = p[x][k];
                assert(p[x]@.contains(h));
            }
        }
        assert(ready(p, eb, y)) by {
            assert forall|k: int| 0 <= k < p[y].len() implies marked(
                eb,
                (#[trigger] p[y][k]) as int,
            ) by {
                assert(placed_before(b, i, p[b[i] as int][k] as int));
            }
        }
        if x < y {
            assert(marked(eb, x) || !ready(p, eb, x));
        }
        if y < x {
            assert(marked(ea, y) || !ready(p, ea, y));
        }
        assert(a[i] == b[i]);
        assert(a.take(j) =~= a.take(i).push(a[i]));
        assert(b.take(j) =~= b.take(i).push(b[i]));
    }
}

/// Two schedules of one expression emit the same nodes in the same order.
pub proof fn schedules_agree(ops: Seq<Op>, root: int, max_weight: int, s: Schedule, t: Schedule)
    requires
        ops.len() <= usize::MAX,
        schedule_of(ops, root, max_weight, s),
        schedule_of(ops, root, max_weight, t),
    ensures
        s.order@ == t.order@,
        s.raw.home@ == t.raw.home@,
        s.members@.len() == t.members@.len(),
        forall|i: int| 0 <= i < s.members@.len() ==> (#[trigger] s.members@[i])@ == t.members@[i]@,
        flat(ops, root, s.members@, s.order@, s.order.len() as int) == flat(
            ops,
            root,
            t.members@,
            t.order@,
            t.order.len() as int,
        ),
{
    reveal(schedule_of);
    groupings_agree(
        ops,
        root,
        max_weight,
        s.raw,
        s.members@,
        s.parents@,
        t.raw,
        t.members@,
        t.parents@,
    );
    order_carries_over(s.parents@, t.parents@, s.order@);
    let n = t.parents@.len() as int;
    orders_agree(t.parents@, s.order@, t.order@, n);
    assert(s.order@.take(n) =~= s.order@);
    assert(t.order@.take(n) =~= t.order@);
    same_flat(ops, root, s.members@, t.members@, s.order@, n);
}

/// The nodes that get an operation are the same for two tables that hold
/// the same lists of members.
pub proof fn same_flat(
    ops: Seq<Op>,
    root: int,
    a: Seq<Vec<Node>>,
    b: Seq<Vec<Node>>,
    order: Seq<usize>,
    count: int,
)
    requires
        a.len() == b.len(),
        forall|i: int| 0 <= i < a.len() ==> (#[trigger] a[i])@ == b[i]@,
        0 <= count <= order.len(),
        forall|i: int| 0 <= i < order.len() ==> (#[trigger] order[i]) < a.len(),
    ensures
        flat(ops, root, a, order, count) == flat(ops, root, b, order, count),
    decreases count,
{
    if count > 0 {
        same_flat(ops, root, a, b, order, count - 1);
        assert(a[order[count - 1] as int]@ == b[order[count - 1] as int]@);
    }
}

/// An expression with a schedule whose tape is not too long has no
/// schedule whose tape is.
pub proof fn scheduled_fits(ops: Seq<Op>, root: int, max_weight: int, s: Schedule)
    requires
        ops.len() <= usize::MAX,
        schedule_of(ops, root, max_weight, s),
    ensures
        oversized(ops, root, max_weight) <==> flat(
            ops,
            root,
            s.members@,
            s.order@,
            s.order.len() as int,
        ).len() > MAX_OPS,
{
    if oversized(ops, root, max_weight) {
        let t = choose|t: Schedule| #[trigger]
            schedule_of(ops, root, max_weight, t) && flat(
                ops,
                root,
                t.members@,
                t.order@,
                t.order.len() as int,
            ).len() > MAX_OPS;
        schedules_agree(ops, root, max_weight, s, t);
    }
}

/// Two schedules that agree in their members and in their order give every
/// group the same first slot.
pub proof fn same_starts(
    ops: Seq<Op>,
    root: int,
    a: Seq<Vec<Node>>,
    b: Seq<Vec<Node>>,
    order: Seq<usize>,
    j: int,
)
    requires
        a.len() == b.len(),
        forall|i: int| 0 <= i < a.len() ==> (#[trigger] a[i])@ == b[i]@,
        0 <= j <= order.len(),
        forall|i: int| 0 <= i < order.len() ==> (#[trigger] order[i]) < a.len(),
    ensures
        start_of(ops, root, a, order, j) == start_of(ops, root, b, order, j),
{
    same_flat(ops, root, a, b, order, j);
}

/// Two schedules that agree in their members and in their order read the
/// same slot for an operand.
pub proof fn same_reads(
    ops: Seq<Op>,
    root: int,
    a: Seq<Vec<Node>>,
    b: Seq<Vec<Node>>,
    order: Seq<usize>,
    home: Seq<Option<usize>>,
    j: int,
    c: int,
)
    requires
        a.len() == b.len(),
        forall|i: int| 0 <= i < a.len() ==> (#[trigger] a[i])@ == b[i]@,
        0 <= j < order.len(),
        forall|i: int| 0 <= i < order.len() ==> (#[trigger] order[i]) < a.len(),
    ensures
        read_slot(ops, root, a, order, home, j, c) == read_slot(ops, root, b, order, home, j, c),
{
    assert(list_of(a, order, j) == list_of(b, order, j));
    let jc = if crate::ssa::listed_in(list_of(a, order, j), c) {
        j
    } else {
        crate::ssa::position_of(order, crate::plan::home_of(home, c)->Some_0)
    };
    if 0 <= jc < order.len() {
        assert(list_of(a, order, jc) == list_of(b, order, jc));
        same_starts(ops, root, a, b, order, jc);
    }
}

/// The operation of a slot is the same for two schedules that agree in
/// their members and in their order.
pub proof fn exact_is_unique(
    ops: Seq<Op>,
    root: int,
    ids: Seq<Option<usize>>,
    a: Seq<Vec<Node>>,
    b: Seq<Vec<Node>>,
    order: Seq<usize>,
    home: Seq<Option<usize>>,
    nodes: Seq<Node>,
    i: int,
    x: SsaOp,
    y: SsaOp,
)
    requires
        is_dag(ops),
        is_folded(ops),
        a.len() == b.len(),
        forall|i: int| 0 <= i < a.len() ==> (#[trigger] a[i])@ == b[i]@,
        forall|i: int| 0 <= i < order.len() ==> (#[trigger] order[i]) < a.len(),
        0 <= i < nodes.len(),
        nodes[i].0 < ops.len(),
        exact_at(ops, root, ids, a, order, home, nodes, i, x),
        exact_at(ops, root, ids, b, order, home, nodes, i, y),
    ensures
        x == y,
{
    reveal(exact_at);
    let j = choose|j: int|
        0 <= j < order.len() && #[trigger] start_of(ops, root, a, order, j) <= i < start_of(
            ops,
            root,
            a,
            order,
            j + 1,
        ) && x == made_op(ops, ids, reader(ops, root, a, order, home, j), i, nodes[i].0 as int);
    let k = choose|k: int|
        0 <= k < order.len() && #[trigger] start_of(ops, root, b, order, k) <= i < start_of(
            ops,
            root,
            b,
            order,
            k + 1,
        ) && y == made_op(ops, ids, reader(ops, root, b, order, home, k), i, nodes[i].0 as int);
    same_starts(ops, root, a, b, order, j);
    same_starts(ops, root, a, b, order, j + 1);
    same_starts(ops, root, a, b, order, k);
    same_starts(ops, root, a, b, order, k + 1);
    if j < k {
        start_of_grows(ops, root, a, order, j + 1, k);
    }
    if k < j {
        start_of_grows(ops, root, a, order, k + 1, j);
    }
    assert(j == k);
    let p = nodes[i].0 as int;
    assert(op_below(ops[p], p));
    assert forall|c: int| 0 <= c < ops.len() && #[trigger] has_child(ops[p], c) implies reader(
        ops,
        root,
        a,
        order,
        home,
        j,
    )(c) == reader(ops, root, b, order, home, j)(c) by {
        same_reads(ops, root, a, b, order, home, j, c);
    }
    made_op_agrees(
        ops,
        ids,
        reader(ops, root, a, order, home, j),
        reader(ops, root, b, order, home, j),
        i,
        p,
    );
}

/// Two tapes on symbolic slots of one expression have the same operations,
/// for the same nodes.
pub proof fn tapes_agree(
    ops: Seq<Op>,
    root: int,
    max_weight: int,
    s: Schedule,
    t: Schedule,
    a: SsaTape,
    b: SsaTape,
)
    requires
        is_dag(ops),
        is_folded(ops),
        ops.len() <= usize::MAX,
        schedule_of(ops, root, max_weight, s),
        schedule_of(ops, root, max_weight, t),
        tape_of(ops, root, s, a),
        tape_of(ops, root, t, b),
    ensures
        a.nodes@ == b.nodes@,
        a.ops@ == b.ops@,
{
    schedules_agree(ops, root, max_weight, s, t);
    assert(s.max_weight == max_weight && t.max_weight == max_weight && s.choice_id@
        == t.choice_id@ && is_order(s.parents@, s.order@) && s.parents@.len()
        == s.members@.len()) by {
        reveal(schedule_of);
    }
    let order = s.order@;
    let home = s.raw.home@;
    let ids = s.choice_id@;
    assert(a.ops@.len() == b.ops@.len());
    assert forall|i: int| 0 <= i < a.ops@.len() implies a.ops@[i] == b.ops@[i] by {
        assert(a.nodes[i].0 < ops.len());
        assert(exact_at(ops, root, ids, s.members@, order, home, a.nodes@, i, a.ops[i]));
        assert(exact_at(ops, root, ids, t.members@, order, home, b.nodes@, i, b.ops[i]));
        exact_is_unique(
            ops,
            root,
            ids,
            s.members@,
            t.members@,
            order,
            home,
            a.nodes@,
            i,
            a.ops[i],
            b.ops[i],
        );
    }
    assert(a.ops@ =~= b.ops@);
}

/// Compiling gives one result.  Two tapes of one expression have the same
/// operations on symbolic slots and the same number of choices; with the
/// same number of registers they have the same operations on registers and
/// the same number of slots.  Of the context and of each tape the law takes
/// what their `well_formed` gives.
pub proof fn compiled_is_unique(
    ops: Seq<Op>,
    root: int,
    max_weight: int,
    a: Tape,
    b: Tape,
)
    requires
        is_dag(ops),
        is_folded(ops),
        ops.len() <= usize::MAX,
        compiled(ops, root, max_weight, a),
        compiled(ops, root, max_weight, b),
        a.limit() <= u8::MAX,
        a@ == allocated_ops(a.ssa_view(), a.limit() as u8),
        a.slots() == allocated_slots(a.ssa_view(), a.limit() as u8),
        b@ == allocated_ops(b.ssa_view(), b.limit() as u8),
        b.slots() == allocated_slots(b.ssa_view(), b.limit() as u8),
    ensures
        a.ssa_view() == b.ssa_view(),
        a.choices() == b.choices(),
        a.limit() == b.limit() ==> a@ == b@ && a.slots() == b.slots(),
{
    let (s, u) = choose|s: Schedule, u: SsaTape|
        schedule_of(ops, root, max_weight, s) && #[trigger] tape_of(ops, root, s, u)
            && a.ssa_view() == u.ops@;
    let (t, v) = choose|t: Schedule, v: SsaTape|
        schedule_of(ops, root, max_weight, t) && #[trigger] tape_of(ops, root, t, v)
            && b.ssa_view() == v.ops@;
    tapes_agree(ops, root, max_weight, s, t, u, v);
}

} // verus!
