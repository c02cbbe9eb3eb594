//! The schedule of an expression: which nodes are inline, where the choices
//! are, the groups with all their members, the globals, and the order in
//! which the groups are emitted.

use crate::closure::visited_is_reachable;
use crate::context::{is_choice, Context, Node, Op};
use crate::error::Error;
use crate::groups::{find_groups, groups_of, id_of, visited, Grouping};
use crate::members::{crosses, listed, mark_crossing, member, members};
use crate::order::{is_order, least_first, topological_order};
use crate::schedule::{assign_choices, choice_index, pick_inline, reachable, weight};
use vstd::prelude::*;

verus! {

/// The weight up to which a node is inline unless the caller says otherwise.
pub const INLINE_WEIGHT: usize = 7;

/// Entry `n` of a table of groups, `None` outside the table.
pub open spec fn home_of(home: Seq<Option<usize>>, n: int) -> Option<usize> {
    if 0 <= n < home.len() {
        home[n]
    } else {
        None
    }
}

/// Whether the node with record `op` has an operand that stands in group
/// `g`.
pub open spec fn points_into(op: Op, home: Seq<Option<usize>>, g: int) -> bool {
    match op {
        Op::Unary(_, a) => home_of(home, a.0 as int) == Some(g as usize),
        Op::Binary(_, a, b) => home_of(home, a.0 as int) == Some(g as usize) || home_of(
            home,
            b.0 as int,
        ) == Some(g as usize),
        _ => false,
    }
}

/// Whether one of the first `count` nodes of `nodes` has an operand that
/// stands in group `g`.
pub open spec fn depends_within(
    ops: Seq<Op>,
    home: Seq<Option<usize>>,
    nodes: Seq<Node>,
    g: int,
    count: int,
) -> bool {
    exists|k: int|
        0 <= k < count && (#[trigger] nodes[k]).0 < ops.len() && points_into(
            ops[nodes[k].0 as int],
            home,
            g,
        )
}

/// Whether the group with the members `nodes` uses a value that stands in
/// group `g`.
pub open spec fn depends(ops: Seq<Op>, home: Seq<Option<usize>>, nodes: Seq<Node>, g: int) -> bool {
    depends_within(ops, home, nodes, g, nodes.len() as int)
}

/// The membership table of the group that grows from `base`.
pub open spec fn member_table(ops: Seq<Op>, inline: Seq<bool>, base: Seq<Node>) -> Seq<bool> {
    Seq::new(ops.len(), |n: int| member(ops, inline, base, n))
}

/// A scheduled expression.  Groups are named by their index in `raw`.
pub struct Schedule {
    /// Entry `n` says whether node `n` is inline.  The root never is.
    pub inline: Vec<bool>,
    /// Entry `n` is the choice index of node `n`, if it is a choice.
    pub choice_id: Vec<Option<usize>>,
    /// The groups by their conditions, with the nodes that the walk entered.
    pub raw: Grouping,
    /// For each group all its members, by descending index.
    pub members: Vec<Vec<Node>>,
    /// For each group the groups that use its values.
    pub parents: Vec<Vec<usize>>,
    /// The groups in the order of emission.
    pub order: Vec<usize>,
    /// Entry `n` says whether the value of node `n` crosses between groups.
    pub globals: Vec<bool>,
    /// The weight up to which a node is inline.
    pub max_weight: usize,
}

/// Whether `list` holds the members of the group that grows from `base`, by
/// descending index.
pub open spec fn lists_members(
    ops: Seq<Op>,
    inline: Seq<bool>,
    base: Seq<Node>,
    list: Seq<Node>,
) -> bool {
    &&& forall|k: int|
        0 <= k < list.len() ==> member(ops, inline, base, (#[trigger] list[k]).0 as int)
    &&& forall|n: int| #[trigger] member(ops, inline, base, n) ==> list.contains(Node(n as usize))
    &&& forall|k: int, l: int|
        0 <= k < l < list.len() ==> (#[trigger] list[k]).0 > (#[trigger] list[l]).0
}

/// The table of the inline nodes: those that the root reaches, the root
/// excepted, whose weight is at most `max_weight`.
pub open spec fn inline_table(ops: Seq<Op>, root: int, max_weight: int) -> Seq<bool> {
    Seq::new(
        ops.len(),
        |n: int| n != root && reachable(ops, root, n) && weight(ops, n) <= max_weight,
    )
}

/// The table of the choice indices.
pub open spec fn choice_table(ops: Seq<Op>, root: int) -> Seq<Option<usize>> {
    Seq::new(ops.len(), |n: int| choice_index(ops, root, n))
}

/// Whether `raw` holds the groups of the expression below `root`, `members`
/// all the members of each group, and `parents` for each group the groups
/// that use its values.
pub open spec fn grouped(
    ops: Seq<Op>,
    root: int,
    max_weight: int,
    raw: Grouping,
    members: Seq<Vec<Node>>,
    parents: Seq<Vec<usize>>,
) -> bool {
    let inline = inline_table(ops, root, max_weight);
    &&& groups_of(ops, inline, choice_table(ops, root), root, raw)
    &&& members.len() == raw.groups.len()
    &&& forall|g: int|
        0 <= g < members.len() ==> lists_members(
            ops,
            inline,
            raw.groups[g].nodes@,
            (#[trigger] members[g])@,
        )
    &&& parents.len() == raw.groups.len()
    &&& forall|g: int, h: usize|
        0 <= g < parents.len() ==> (#[trigger] parents[g]@.contains(h) <==> h < members.len() && h
            != g && depends(ops, raw.home@, members[h as int]@, g))
}

/// Whether `s` is the schedule of the expression below `root`.
#[verifier::opaque]
pub open spec fn schedule_of(ops: Seq<Op>, root: int, max_weight: int, s: Schedule) -> bool {
    &&& s.max_weight == max_weight
    &&& s.inline@ == inline_table(ops, root, max_weight)
    &&& s.choice_id@ == choice_table(ops, root)
    &&& grouped(ops, root, max_weight, s.raw, s.members@, s.parents@)
    &&& is_order(s.parents@, s.order@)
    &&& least_first(s.parents@, s.order@)
    &&& s.globals.len() == ops.len()
    &&& forall|n: int|
        0 <= n < ops.len() ==> (#[trigger] s.globals[n] <==> n == root || crosses_any(
            ops,
            s.inline@,
            s.raw,
            n,
            s.raw.groups.len() as int,
        ))
}

/// Whether the groups of the expression below `root` admit no order: they
/// use each other's values in a cycle.
pub open spec fn unschedulable(ops: Seq<Op>, root: int, max_weight: int) -> bool {
    exists|raw: Grouping, members: Seq<Vec<Node>>, parents: Seq<Vec<usize>>| #[trigger]
        grouped(ops, root, max_weight, raw, members, parents) && forall|order: Seq<usize>|
            !is_order(parents, order)
}

/// Whether `n` is used by, and is not a member of, one of the first `count`
/// groups.
pub open spec fn crosses_any(
    ops: Seq<Op>,
    inline: Seq<bool>,
    raw: Grouping,
    n: int,
    count: int,
) -> bool {
    exists|g: int|
        0 <= g < count && #[trigger] crosses(
            ops,
            member_table(ops, inline, raw.groups[g].nodes@),
            n,
        )
}

/// Whether `x` occurs in `v`.
pub fn holds_index(v: &Vec<usize>, x: usize) -> (r: bool)
    ensures
        r == v@.contains(x),
{
    let mut i: usize = 0;
    while i < v.len()
        invariant
            i <= v.len(),
            forall|j: int| 0 <= j < i ==> v@[j] != x,
        decreases v.len() - i,
    {
        if v[i] == x {
            return true;
        }
        i = i + 1;
    }
    false
}

/// Records that group `user` uses a value of the group in which `operand`
/// stands, if that is another group.
fn note_use(parents: &mut Vec<Vec<usize>>, home: &Vec<Option<usize>>, operand: usize, user: usize)
    ensures
        final(parents).len() == old(parents).len(),
        forall|g: int, x: usize|
            0 <= g < old(parents).len() ==> (#[trigger] final(parents)[g]@.contains(x) <==> old(parents)[g]@.contains(x) || (x == user && g != user && home_of(home@, operand as int)
                == Some(g as usize))),
{
    if operand < home.len() {
        match home[operand] {
            Some(target) => {
                if target != user && target < parents.len() {
                    if !holds_index(&parents[target], user) {
                        let ghost before = parents@[target as int]@;
                        parents[target].push(user);
                        assert(parents@[target as int]@[before.len() as int] == user);
                        assert forall|x: usize|
                            #[trigger] parents@[target as int]@.contains(x) <==> before.contains(
                                x,
                            ) || x == user by {
                            if before.contains(x) {
                                let i = choose|i: int| 0 <= i < before.len() && before[i] == x;
                                assert(parents@[target as int]@[i] == x);
                            }
                            if parents@[target as int]@.contains(x) && x != user {
                                let i = choose|i: int|
                                    0 <= i < parents@[target as int]@.len()
                                        && parents@[target as int]@[i] == x;
                                assert(before[i] == x);
                            }
                        }
                    }
                }
            },
            None => {},
        }
    }
}

/// Records for every group the uses that the group `user`, with the members
/// `nodes`, makes of its values.
fn note_uses(
    ctx: &Context,
    home: &Vec<Option<usize>>,
    nodes: &Vec<Node>,
    user: usize,
    parents: &mut Vec<Vec<usize>>,
)
    ensures
        final(parents).len() == old(parents).len(),
        forall|g: int, x: usize|
            0 <= g < old(parents).len() ==> (#[trigger] final(parents)[g]@.contains(x) <==> old(parents)[g]@.contains(x) || (x == user && g != user && depends(ctx@, home@, nodes@, g))),
{
    let ghost ops = ctx@;
    let ghost start = parents@;
    let mut k: usize = 0;
    while k < nodes.len()
        invariant
            ops == ctx@,
            k <= nodes.len(),
            parents.len() == start.len(),
            forall|g: int, x: usize|
                0 <= g < start.len() ==> (#[trigger] parents[g]@.contains(x)
                    <==> start[g]@.contains(x) || (x == user && g != user && depends_within(
                    ops,
                    home@,
                    nodes@,
                    g,
                    k as int,
                ))),
        decreases nodes.len() - k,
    {
        let ghost before = parents@;
        let p = nodes[k];
        match ctx.get_op(p) {
            Ok(Op::Unary(_, a)) => {
                note_use(parents, home, a.0, user);
            },
            Ok(Op::Binary(_, a, b)) => {
                note_use(parents, home, a.0, user);
                let ghost between = parents@;
                note_use(parents, home, b.0, user);
                assert forall|g: int, x: usize| 0 <= g < start.len() implies (
                #[trigger] parents[g]@.contains(x) <==> before[g]@.contains(x) || (x == user && g
                    != user && (home_of(home@, a.0 as int) == Some(g as usize) || home_of(
                    home@,
                    b.0 as int,
                ) == Some(g as usize)))) by {
                    assert(between[g]@.contains(x) <==> before[g]@.contains(x) || (x == user && g
                        != user && home_of(home@, a.0 as int) == Some(g as usize)));
                }
            },
            _ => {},
        }
        assert forall|g: int, x: usize| 0 <= g < start.len() implies (
        #[trigger] parents[g]@.contains(x) <==> start[g]@.contains(x) || (x == user && g != user
            && depends_within(ops, home@, nodes@, g, k + 1))) by {
            let here = p.0 < ops.len() && points_into(ops[p.0 as int], home@, g);
            assert(parents[g]@.contains(x) <==> before[g]@.contains(x) || (x == user && g != user
                && here));
            assert(before[g]@.contains(x) <==> start[g]@.contains(x) || (x == user && g != user
                && depends_within(ops, home@, nodes@, g, k as int)));
            if depends_within(ops, home@, nodes@, g, k as int) {
                let w = choose|w: int|
                    0 <= w < k && (#[trigger] nodes@[w]).0 < ops.len() && points_into(
                        ops[nodes@[w].0 as int],
                        home@,
                        g,
                    );
                assert(0 <= w < k + 1 && nodes@[w].0 < ops.len());
            }
            if here {
                assert(nodes@[k as int].0 < ops.len());
            }
            if depends_within(ops, home@, nodes@, g, k + 1) {
                let w = choose|w: int|
                    0 <= w < k + 1 && (#[trigger] nodes@[w]).0 < ops.len() && points_into(
                        ops[nodes@[w].0 as int],
                        home@,
                        g,
                    );
                if w < k {
                    assert(depends_within(ops, home@, nodes@, g, k as int));
                }
            }
        }
        k = k + 1;
    }
}

/// Schedules the expression below `root`: picks the inline nodes by
/// `max_weight`, numbers the choices, groups the nodes by their conditions,
/// completes each group with the inline nodes that it uses, finds the
/// globals, and orders the groups.  Fails with `InvalidNode` for a root that
/// is not of this context, and with `MalformedExpr` exactly where the groups
/// depend on each other in a cycle.
pub fn schedule(ctx: &Context, root: Node, max_weight: usize) -> (r: Result<Schedule, Error>)
    ensures
        root.0 >= ctx@.len() ==> r is Err && r->Err_0 == Error::InvalidNode,
        root.0 < ctx@.len() ==> (r is Err <==> unschedulable(
            ctx@,
            root.0 as int,
            max_weight as int,
        )),
        root.0 < ctx@.len() && r is Err ==> r->Err_0 == Error::MalformedExpr,
        r is Ok ==> schedule_of(ctx@, root.0 as int, max_weight as int, r->Ok_0),
{
    let len = ctx.len();
    if root.0 >= len {
        return Err(Error::InvalidNode);
    }
    let ghost ops = ctx@;
    let ghost top = root.0 as int;
    let mut inline = match pick_inline(ctx, root, max_weight) {
        Ok(table) => table,
        Err(e) => {
            return Err(e);
        },
    };
    inline.set(root.0, false);
    let choice_id = match assign_choices(ctx, root) {
        Ok(table) => table,
        Err(e) => {
            return Err(e);
        },
    };
    assert(inline@ =~= inline_table(ops, top, max_weight as int));
    assert(choice_id@ =~= choice_table(ops, top));
    proof {
        assert forall|n: int|
            0 <= n <= top && #[trigger] visited(ops, inline@, top, n) && is_choice(
                ops[n],
            ) implies id_of(choice_id@, n) is Some by {
            visited_is_reachable(ops, inline@, top, n);
        }
    }
    let raw = match find_groups(ctx, root, &inline, &choice_id) {
        Ok(grouping) => grouping,
        Err(_) => {
            assert(false);
            return Err(Error::MalformedExpr);
        },
    };
    let count = raw.groups.len();
    let mut globals: Vec<bool> = Vec::new();
    let mut k: usize = 0;
    while k < len
        invariant
            k <= len,
            globals.len() == k,
            forall|n: int| 0 <= n < k ==> !globals[n],
        decreases len - k,
    {
        globals.push(false);
        k = k + 1;
    }
    let mut parents: Vec<Vec<usize>> = Vec::new();
    let mut h: usize = 0;
    while h < count
        invariant
            h <= count,
            parents.len() == h,
            forall|g: int, x: usize| 0 <= g < h ==> !(#[trigger] parents[g]@.contains(x)),
        decreases count - h,
    {
        parents.push(Vec::new());
        h = h + 1;
    }
    let mut lists: Vec<Vec<Node>> = Vec::new();
    let mut g: usize = 0;
    while g < count
        invariant
            ops == ctx@,
            len == ops.len(),
            count == raw.groups.len(),
            g <= count,
            lists.len() == g,
            parents.len() == count,
            globals.len() == len,
            inline.len() == len,
            forall|i: int|
                0 <= i < g ==> lists_members(
                    ops,
                    inline@,
                    raw.groups[i].nodes@,
                    (#[trigger] lists[i])@,
                ),
            forall|i: int, x: usize|
                0 <= i < count ==> (#[trigger] parents[i]@.contains(x) <==> x < g && x != i
                    && depends(ops, raw.home@, lists[x as int]@, i)),
            forall|n: int|
                0 <= n < len ==> (#[trigger] globals[n] <==> crosses_any(
                    ops,
                    inline@,
                    raw,
                    n,
                    g as int,
                )),
        decreases count - g,
    {
        let table = members(ctx, &inline, &raw.groups[g].nodes);
        let list = listed(&table);
        let ghost globals0 = globals@;
        let ghost parents0 = parents@;
        let ghost lists0 = lists@;
        mark_crossing(ctx, &table, &mut globals);
        note_uses(ctx, &raw.home, &list, g, &mut parents);
        assert(table@ =~= member_table(ops, inline@, raw.groups[g as int].nodes@));
        assert(lists_members(ops, inline@, raw.groups[g as int].nodes@, list@)) by {
            let base = raw.groups[g as int].nodes@;
            assert forall|k: int| 0 <= k < list@.len() implies member(
                ops,
                inline@,
                base,
                (#[trigger] list@[k]).0 as int,
            ) by {
                assert(crate::groups::marked(table@, list@[k].0 as int));
            }
            assert forall|n: int| #[trigger] member(ops, inline@, base, n) implies list@.contains(
                Node(n as usize),
            ) by {
                assert(crate::groups::marked(table@, n));
            }
        }
        lists.push(list);
        assert forall|i: int| 0 <= i < g + 1 implies lists_members(
            ops,
            inline@,
            raw.groups[i].nodes@,
            (#[trigger] lists[i])@,
        ) by {
            if i < g {
                assert(lists[i] == lists0[i]);
            }
        }
        assert forall|i: int, x: usize| 0 <= i < count implies (#[trigger] parents[i]@.contains(x)
            <==> x < g + 1 && x != i && depends(ops, raw.home@, lists[x as int]@, i)) by {
            assert(parents0[i]@.contains(x) <==> x < g && x != i && depends(
                ops,
                raw.home@,
                lists0[x as int]@,
                i,
            ));
            if x < g {
                assert(lists[x as int] == lists0[x as int]);
            }
        }
        assert forall|n: int| 0 <= n < len implies (#[trigger] globals[n] <==> crosses_any(
            ops,
            inline@,
            raw,
            n,
            g + 1,
        )) by {
            assert(globals0[n] <==> crosses_any(ops, inline@, raw, n, g as int));
            if crosses_any(ops, inline@, raw, n, g as int) {
                let w = choose|w: int|
                    0 <= w < g && #[trigger] crosses(
                        ops,
                        member_table(ops, inline@, raw.groups[w].nodes@),
                        n,
                    );
                assert(0 <= w < g + 1);
            }
            if crosses_any(ops, inline@, raw, n, g + 1) {
                let w = choose|w: int|
                    0 <= w < g + 1 && #[trigger] crosses(
                        ops,
                        member_table(ops, inline@, raw.groups[w].nodes@),
                        n,
                    );
                if w < g {
                    assert(crosses_any(ops, inline@, raw, n, g as int));
                }
            }
        }
        g = g + 1;
    }
    globals.set(root.0, true);
    reveal(schedule_of);
    let order = match topological_order(&parents) {
        Some(order) => order,
        None => {
            assert(grouped(ops, top, max_weight as int, raw, lists@, parents@));
            return Err(Error::MalformedExpr);
        },
    };
    let s = Schedule { inline, choice_id, raw, members: lists, parents, order, globals, max_weight };
    proof {
        crate::unique::scheduled_is_schedulable(ops, top, max_weight as int, s);
    }
    Ok(s)
}

} // verus!
