//! The conditions under which the nodes of an expression are needed, and the
//! groups of nodes that share a condition.
//!
//! A walk from the root carries a pending clause.  It starts with the empty
//! clause, which stands for "always".  Below a minimum or maximum the clause
//! names that choice and the side taken; every other node hands its own
//! pending clause down.  A node's condition is the set of clauses with which
//! the walk reaches it.  The walk does not enter inline nodes.

use crate::choice::Choice;
use crate::context::{has_child, is_choice, is_dag, op_below, BinaryOpcode, Context, Node, Op};
use crate::error::Error;
use vstd::prelude::*;

verus! {

/// One branch of one choice.
#[derive(Clone, Copy, PartialEq, Eq, Structural, Debug)]
pub struct DnfClause {
    pub root: usize,
    pub choice: Choice,
}

/// A set of nodes that are needed under the same condition.  The condition is
/// the disjunction of the clauses in `dnf`; `None` stands for "always".  The
/// nodes are listed by descending index, users before their operands.
pub struct Group {
    pub dnf: Vec<Option<DnfClause>>,
    pub nodes: Vec<Node>,
}

/// The groups of an expression, and for each node the group that holds it.
pub struct Grouping {
    pub groups: Vec<Group>,
    pub home: Vec<Option<usize>>,
}

/// Whether entry `n` of a table exists and is set.
pub open spec fn marked(table: Seq<bool>, n: int) -> bool {
    0 <= n < table.len() && table[n]
}

/// Entry `n` of a table of choice indices, `None` outside the table.
pub open spec fn id_of(ids: Seq<Option<usize>>, n: int) -> Option<usize> {
    if 0 <= n < ids.len() {
        ids[n]
    } else {
        None
    }
}

/// Whether the walk from `root` enters `n`: it is not inline, and it is the
/// root or an operand of a node that the walk enters.
pub open spec fn visited(ops: Seq<Op>, inline: Seq<bool>, root: int, n: int) -> bool
    decreases
        (if n <= root {
            root - n
        } else {
            0
        }),
        (if n <= root {
            root - n + 1
        } else {
            0
        }),
{
    0 <= n <= root && !marked(inline, n) && (n == root || visited_from(
        ops,
        inline,
        root,
        n,
        n + 1,
    ))
}

/// Whether some entered node with an index of at least `lo` has `n` as an
/// operand.
pub open spec fn visited_from(
    ops: Seq<Op>,
    inline: Seq<bool>,
    root: int,
    n: int,
    lo: int,
) -> bool
    decreases
        (if n <= root {
            root - n
        } else {
            0
        }),
        (if lo <= root {
            root - lo + 1
        } else {
            0
        }),
{
    n < lo <= root && ((visited(ops, inline, root, lo) && has_child(ops[lo], n)) || visited_from(
        ops,
        inline,
        root,
        n,
        lo + 1,
    ))
}

/// Whether a choice with record `op` and index `id` hands the clause `c` to
/// its operand `n`.
pub open spec fn hands(op: Op, id: Option<usize>, n: int, c: Option<DnfClause>) -> bool {
    match op {
        Op::Binary(_, a, b) => is_choice(op) && id is Some && ((a.0 == n && c == Some(
            DnfClause { root: id->Some_0, choice: Choice::Left },
        )) || (b.0 == n && c == Some(DnfClause { root: id->Some_0, choice: Choice::Right }))),
        _ => false,
    }
}

/// Whether the walk from `root` reaches `n` with the pending clause `c`.
pub open spec fn seen(
    ops: Seq<Op>,
    inline: Seq<bool>,
    ids: Seq<Option<usize>>,
    root: int,
    n: int,
    c: Option<DnfClause>,
) -> bool
    decreases
        (if n <= root {
            root - n
        } else {
            0
        }),
        (if n <= root {
            root - n + 1
        } else {
            0
        }),
{
    0 <= n <= root && !marked(inline, n) && ((n == root && c is None) || seen_from(
        ops,
        inline,
        ids,
        root,
        n,
        c,
        n + 1,
    ))
}

/// Whether some node with an index of at least `lo` hands the clause `c` to
/// its operand `n`: a choice that the walk enters hands down its own clause,
/// any other node each clause with which the walk reaches it.
pub open spec fn seen_from(
    ops: Seq<Op>,
    inline: Seq<bool>,
    ids: Seq<Option<usize>>,
    root: int,
    n: int,
    c: Option<DnfClause>,
    lo: int,
) -> bool
    decreases
        (if n <= root {
            root - n
        } else {
            0
        }),
        (if lo <= root {
            root - lo + 1
        } else {
            0
        }),
{
    n < lo <= root && ((has_child(ops[lo], n) && if is_choice(ops[lo]) {
        visited(ops, inline, root, lo) && hands(ops[lo], id_of(ids, lo), n, c)
    } else {
        seen(ops, inline, ids, root, lo, c)
    }) || seen_from(ops, inline, ids, root, n, c, lo + 1))
}

/// Whether `c` belongs to the condition of `n`.  A node that is reached with
/// the empty clause is always needed, and its condition is that clause alone.
pub open spec fn in_condition(
    ops: Seq<Op>,
    inline: Seq<bool>,
    ids: Seq<Option<usize>>,
    root: int,
    n: int,
    c: Option<DnfClause>,
) -> bool {
    if seen(ops, inline, ids, root, n, None) {
        c is None
    } else {
        seen(ops, inline, ids, root, n, c)
    }
}

/// Whether the walk enters a choice that has no index.
pub open spec fn lacks_index(
    ops: Seq<Op>,
    inline: Seq<bool>,
    ids: Seq<Option<usize>>,
    root: int,
) -> bool {
    exists|n: int|
        0 <= n <= root && #[trigger] visited(ops, inline, root, n) && is_choice(ops[n]) && id_of(
            ids,
            n,
        ) is None
}

/// Whether two lists hold the same clauses.
pub open spec fn same_clauses(x: Seq<Option<DnfClause>>, y: Seq<Option<DnfClause>>) -> bool {
    forall|c: Option<DnfClause>| x.contains(c) <==> y.contains(c)
}

/// Whether `groups` and `home` are the grouping of the nodes from `lo` up:
/// every entered node stands in exactly one group, whose condition is its
/// own; no two groups share a condition; a group lists its nodes by
/// descending index, and the groups are ordered by their first nodes, again
/// descending.
pub open spec fn groups_from(
    ops: Seq<Op>,
    inline: Seq<bool>,
    ids: Seq<Option<usize>>,
    root: int,
    groups: Seq<Group>,
    home: Seq<Option<usize>>,
    lo: int,
) -> bool {
    &&& home.len() == ops.len()
    &&& forall|n: int|
        0 <= n < ops.len() ==> (#[trigger] home[n] is Some <==> n >= lo && visited(
            ops,
            inline,
            root,
            n,
        ))
    &&& forall|n: int|
        0 <= n < ops.len() && #[trigger] home[n] is Some ==> home[n]->Some_0 < groups.len()
            && groups[home[n]->Some_0 as int].nodes@.contains(Node(n as usize))
    &&& forall|i: int, k: int|
        0 <= i < groups.len() && 0 <= k < groups[i].nodes.len() ==> lo <= (
        #[trigger] groups[i].nodes[k]).0 < ops.len() && home[groups[i].nodes[k].0 as int] == Some(
            i as usize,
        )
    &&& forall|i: int, k: int, c: Option<DnfClause>|
        0 <= i < groups.len() && 0 <= k < groups[i].nodes.len() ==> (
        #[trigger] groups[i].dnf@.contains(c) <==> in_condition(
            ops,
            inline,
            ids,
            root,
            #[trigger] groups[i].nodes[k].0 as int,
            c,
        ))
    &&& forall|i: int, j: int|
        0 <= i < j < groups.len() ==> !same_clauses(
            #[trigger] groups[i].dnf@,
            #[trigger] groups[j].dnf@,
        )
    &&& forall|i: int| 0 <= i < groups.len() ==> (#[trigger] groups[i]).nodes.len() > 0
    &&& forall|i: int, k: int, l: int|
        0 <= i < groups.len() && 0 <= k < l < groups[i].nodes.len() ==> (
        #[trigger] groups[i].nodes[k]).0 > (#[trigger] groups[i].nodes[l]).0
    &&& forall|i: int, j: int|
        0 <= i < j < groups.len() ==> (#[trigger] groups[i]).nodes[0].0 > (
        #[trigger] groups[j]).nodes[0].0
}

/// Whether `g` is the grouping of the expression below `root`.
pub open spec fn groups_of(
    ops: Seq<Op>,
    inline: Seq<bool>,
    ids: Seq<Option<usize>>,
    root: int,
    g: Grouping,
) -> bool {
    groups_from(ops, inline, ids, root, g.groups@, g.home@, 0)
}

/// Whether two optional clauses are equal.
pub fn same_clause(a: &Option<DnfClause>, b: &Option<DnfClause>) -> (r: bool)
    ensures
        r == (*a == *b),
{
    match (a, b) {
        (None, None) => true,
        (Some(x), Some(y)) => x.root == y.root && x.choice == y.choice,
        _ => false,
    }
}

/// Whether `c` occurs in `v`.
pub fn holds(v: &Vec<Option<DnfClause>>, c: &Option<DnfClause>) -> (r: bool)
    ensures
        r == v@.contains(*c),
{
    let mut i: usize = 0;
    while i < v.len()
        invariant
            i <= v.len(),
            forall|j: int| 0 <= j < i ==> v@[j] != *c,
        decreases v.len() - i,
    {
        if same_clause(&v[i], c) {
            return true;
        }
        i = i + 1;
    }
    false
}

/// The clauses of `x` followed by those of `y` that `x` lacks.
pub fn union(x: &Vec<Option<DnfClause>>, y: &Vec<Option<DnfClause>>) -> (r: Vec<
    Option<DnfClause>,
>)
    ensures
        forall|c: Option<DnfClause>| r@.contains(c) <==> x@.contains(c) || y@.contains(c),
{
    let mut r: Vec<Option<DnfClause>> = Vec::new();
    let mut i: usize = 0;
    while i < x.len()
        invariant
            i <= x.len(),
            r@ == x@.take(i as int),
        decreases x.len() - i,
    {
        r.push(x[i]);
        assert(r@ =~= x@.take(i + 1));
        i = i + 1;
    }
    assert(r@ =~= x@);
    let mut j: usize = 0;
    while j < y.len()
        invariant
            j <= y.len(),
            forall|c: Option<DnfClause>|
                r@.contains(c) <==> x@.contains(c) || exists|k: int| 0 <= k < j && y@[k] == c,
        decreases y.len() - j,
    {
        let c = y[j];
        let ghost before = r@;
        if !holds(&r, &c) {
            r.push(c);
            assert(r@[before.len() as int] == c);
            assert forall|d: Option<DnfClause>| r@.contains(d) implies before.contains(d) || d
                == c by {
                let k = choose|k: int| 0 <= k < r@.len() && r@[k] == d;
                if k < before.len() {
                    assert(before[k] == d);
                }
            }
            assert forall|d: Option<DnfClause>| before.contains(d) implies r@.contains(d) by {
                let k = choose|k: int| 0 <= k < before.len() && before[k] == d;
                assert(r@[k] == d);
            }
        }
        assert forall|d: Option<DnfClause>|
            r@.contains(d) <==> x@.contains(d) || exists|k: int|
                0 <= k < j + 1 && y@[k] == d by {
            if exists|k: int| 0 <= k < j + 1 && y@[k] == d {
                let k = choose|k: int| 0 <= k < j + 1 && y@[k] == d;
                if k < j {
                    assert(before.contains(d));
                }
            }
            if r@.contains(d) && !x@.contains(d) {
                if d != c {
                    let k = choose|k: int| 0 <= k < j && y@[k] == d;
                    assert(0 <= k < j + 1 && y@[k] == d);
                } else {
                    assert(y@[j as int] == d);
                }
            }
        }
        j = j + 1;
    }
    assert forall|c: Option<DnfClause>| r@.contains(c) <==> x@.contains(c) || y@.contains(
        c,
    ) by {
        if y@.contains(c) {
            let k = choose|k: int| 0 <= k < y@.len() && y@[k] == c;
            assert(0 <= k < j && y@[k] == c);
        }
    }
    r
}

/// Whether every clause of `x` occurs in `y`.
pub fn subset(x: &Vec<Option<DnfClause>>, y: &Vec<Option<DnfClause>>) -> (r: bool)
    ensures
        r == forall|c: Option<DnfClause>| x@.contains(c) ==> y@.contains(c),
{
    let mut i: usize = 0;
    while i < x.len()
        invariant
            i <= x.len(),
            forall|k: int| 0 <= k < i ==> y@.contains(#[trigger] x@[k]),
        decreases x.len() - i,
    {
        if !holds(y, &x[i]) {
            assert(x@.contains(x@[i as int]));
            return false;
        }
        i = i + 1;
    }
    true
}

/// Whether two lists hold the same clauses.
pub fn equal_sets(x: &Vec<Option<DnfClause>>, y: &Vec<Option<DnfClause>>) -> (r: bool)
    ensures
        r == same_clauses(x@, y@),
{
    subset(x, y) && subset(y, x)
}

/// Whether entry `n` of a table exists and is set.
pub fn is_marked(table: &Vec<bool>, n: usize) -> (r: bool)
    ensures
        r == marked(table@, n as int),
{
    n < table.len() && table[n]
}

/// Entry `n` of a table of choice indices.
pub fn index_at(ids: &Vec<Option<usize>>, n: usize) -> (r: Option<usize>)
    ensures
        r == id_of(ids@, n as int),
{
    if n < ids.len() {
        ids[n]
    } else {
        None
    }
}

/// What the walk knows of `n` once every node from `lo` up was handled.
pub open spec fn seen_so_far(
    ops: Seq<Op>,
    inline: Seq<bool>,
    ids: Seq<Option<usize>>,
    root: int,
    n: int,
    c: Option<DnfClause>,
    lo: int,
) -> bool {
    0 <= n <= root && !marked(inline, n) && ((n == root && c is None) || seen_from(
        ops,
        inline,
        ids,
        root,
        n,
        c,
        lo,
    ))
}

/// Whether the walk has entered `n` once every node from `lo` up was handled.
pub open spec fn visited_so_far(
    ops: Seq<Op>,
    inline: Seq<bool>,
    root: int,
    n: int,
    lo: int,
) -> bool {
    0 <= n <= root && !marked(inline, n) && (n == root || visited_from(ops, inline, root, n, lo))
}

/// Adds the clauses of `extra` to the condition of `child` and enters it if
/// `enter` is set, unless the child is inline.
fn hand_down(
    conds: &mut Vec<Vec<Option<DnfClause>>>,
    vis: &mut Vec<bool>,
    inline: &Vec<bool>,
    child: usize,
    enter: bool,
    extra: &Vec<Option<DnfClause>>,
)
    requires
        child < old(conds).len(),
        old(vis).len() == old(conds).len(),
    ensures
        final(conds).len() == old(conds).len(),
        final(vis).len() == old(vis).len(),
        forall|n: int|
            0 <= n < old(conds).len() && n != child ==> #[trigger] final(conds)[n] == old(conds)[n],
        forall|n: int|
            0 <= n < old(conds).len() && n != child ==> #[trigger] final(vis)[n] == old(vis)[n],
        marked(inline@, child as int) ==> final(conds)[child as int] == old(conds)[child as int]
            && final(vis)[child as int] == old(vis)[child as int],
        !marked(inline@, child as int) ==> final(vis)[child as int] == (old(vis)[child as int]
            || enter),
        !marked(inline@, child as int) ==> forall|c: Option<DnfClause>|
            #[trigger] final(conds)[child as int]@.contains(c) <==> old(conds)[child as int]@.contains(
                c,
            ) || extra@.contains(c),
{
    if !is_marked(inline, child) {
        if enter {
            vis.set(child, true);
        }
        if extra.len() > 0 {
            let merged = union(&conds[child], extra);
            conds.set(child, merged);
        } else {
            assert forall|c: Option<DnfClause>| !extra@.contains(c) by {}
        }
    }
}

/// The condition of every node below `root`: entry `n` of the first table
/// says whether the walk enters `n`, entry `n` of the second holds the
/// clauses with which it reaches `n`.  Fails if the walk enters a choice that
/// has no index.
fn walk_conditions(
    ctx: &Context,
    root: Node,
    inline: &Vec<bool>,
    choice_id: &Vec<Option<usize>>,
) -> (r: Option<(Vec<bool>, Vec<Vec<Option<DnfClause>>>)>)
    requires
        root.0 < ctx@.len(),
    ensures
        r is None <==> lacks_index(ctx@, inline@, choice_id@, root.0 as int),
        r is Some ==> r->Some_0.0.len() == ctx@.len() && r->Some_0.1.len() == ctx@.len(),
        r is Some ==> forall|n: int|
            0 <= n < ctx@.len() ==> r->Some_0.0[n] == visited(ctx@, inline@, root.0 as int, n),
        r is Some ==> forall|n: int, c: Option<DnfClause>|
            0 <= n < ctx@.len() ==> (#[trigger] r->Some_0.1[n]@.contains(c) <==> seen(
                ctx@,
                inline@,
                choice_id@,
                root.0 as int,
                n,
                c,
            )),
{
    ctx.well_formed();
    let len = ctx.len();
    let ghost ops = ctx@;
    let ghost inl = inline@;
    let ghost ids = choice_id@;
    let ghost top = root.0 as int;
    let start = !is_marked(inline, root.0);
    let mut vis: Vec<bool> = Vec::new();
    let mut conds: Vec<Vec<Option<DnfClause>>> = Vec::new();
    let mut k: usize = 0;
    while k < len
        invariant
            k <= len,
            top == root.0,
            vis.len() == k,
            conds.len() == k,
            start == !marked(inl, top),
            forall|n: int| 0 <= n < k ==> vis[n] == (n == top && start),
            forall|n: int, c: Option<DnfClause>|
                0 <= n < k ==> (#[trigger] conds[n]@.contains(c) <==> n == top && start && c
                    is None),
        decreases len - k,
    {
        let mut own: Vec<Option<DnfClause>> = Vec::new();
        if k == root.0 && start {
            own.push(None);
            assert(own@[0] == None::<DnfClause>);
        }
        vis.push(k == root.0 && start);
        conds.push(own);
        k = k + 1;
    }
    let mut i: usize = root.0 + 1;
    while i > 0
        invariant
            ops == ctx@,
            inl == inline@,
            ids == choice_id@,
            is_dag(ops),
            top == root.0,
            len == ops.len(),
            top < len,
            i <= top + 1,
            vis.len() == len,
            conds.len() == len,
            forall|n: int| i <= n < len ==> vis[n] == visited(ops, inl, top, n),
            forall|n: int| 0 <= n < i ==> vis[n] == visited_so_far(ops, inl, top, n, i as int),
            forall|n: int, c: Option<DnfClause>|
                i <= n < len ==> (#[trigger] conds[n]@.contains(c) <==> seen(
                    ops,
                    inl,
                    ids,
                    top,
                    n,
                    c,
                )),
            forall|n: int, c: Option<DnfClause>|
                0 <= n < i ==> (#[trigger] conds[n]@.contains(c) <==> seen_so_far(
                    ops,
                    inl,
                    ids,
                    top,
                    n,
                    c,
                    i as int,
                )),
            forall|n: int|
                i <= n <= top && #[trigger] visited(ops, inl, top, n) && is_choice(ops[n])
                    ==> id_of(ids, n) is Some,
        decreases i,
    {
        let p: usize = i - 1;
        let ghost vis0 = vis@;
        let ghost conds0 = conds@;
        let entered = vis[p];
        assert(entered == visited(ops, inl, top, p as int));
        assert forall|c: Option<DnfClause>| conds0[p as int]@.contains(c) <==> seen(
            ops,
            inl,
            ids,
            top,
            p as int,
            c,
        ) by {}
        assert(op_below(ops[p as int], p as int));
        let mut own: Vec<Option<DnfClause>> = Vec::new();
        let mut j: usize = 0;
        while j < conds[p].len()
            invariant
                p < conds.len(),
                j <= conds[p as int].len(),
                own@ == conds[p as int]@.take(j as int),
            decreases conds[p as int].len() - j,
        {
            own.push(conds[p][j]);
            assert(own@ =~= conds[p as int]@.take(j + 1));
            j = j + 1;
        }
        assert(own@ =~= conds0[p as int]@);
        match ctx.get_op(Node(p)) {
            Ok(Op::Unary(_, a)) => {
                hand_down(&mut conds, &mut vis, inline, a.0, entered, &own);
            },
            Ok(Op::Binary(opcode, a, b)) => {
                let choice = match opcode {
                    BinaryOpcode::Min => true,
                    BinaryOpcode::Max => true,
                    _ => false,
                };
                assert(choice == is_choice(ops[p as int]));
                if choice {
                    if entered {
                        match index_at(choice_id, p) {
                            None => {
                                return None;
                            },
                            Some(id) => {
                                let mut left: Vec<Option<DnfClause>> = Vec::new();
                                left.push(Some(DnfClause { root: id, choice: Choice::Left }));
                                let mut right: Vec<Option<DnfClause>> = Vec::new();
                                right.push(Some(DnfClause { root: id, choice: Choice::Right }));
                                assert(forall|c: Option<DnfClause>|
                                    left@.contains(c) <==> c == Some(
                                        DnfClause { root: id, choice: Choice::Left },
                                    )) by {
                                    assert(left@[0] == Some(
                                        DnfClause { root: id, choice: Choice::Left },
                                    ));
                                }
                                assert(forall|c: Option<DnfClause>|
                                    right@.contains(c) <==> c == Some(
                                        DnfClause { root: id, choice: Choice::Right },
                                    )) by {
                                    assert(right@[0] == Some(
                                        DnfClause { root: id, choice: Choice::Right },
                                    ));
                                }
                                hand_down(&mut conds, &mut vis, inline, a.0, true, &left);
                                let ghost conds1 = conds@;
                                hand_down(&mut conds, &mut vis, inline, b.0, true, &right);
                                assert forall|n: int, c: Option<DnfClause>|
                                    0 <= n < len implies (#[trigger] conds[n]@.contains(c)
                                    <==> conds0[n]@.contains(c) || (!marked(inl, n) && ((a.0 == n
                                    && left@.contains(c)) || (b.0 == n && right@.contains(c))))) by {
                                    assert(conds1[n]@.contains(c) <==> conds0[n]@.contains(c) || (
                                    !marked(inl, n) && a.0 == n && left@.contains(c)));
                                    assert(conds[n]@.contains(c) <==> conds1[n]@.contains(c) || (
                                    !marked(inl, n) && b.0 == n && right@.contains(c)));
                                }
                            },
                        }
                    }
                } else {
                    hand_down(&mut conds, &mut vis, inline, a.0, entered, &own);
                    let ghost conds1 = conds@;
                    hand_down(&mut conds, &mut vis, inline, b.0, entered, &own);
                    assert forall|n: int, c: Option<DnfClause>|
                        0 <= n < len implies (#[trigger] conds[n]@.contains(c) <==> conds0[n]@.contains(
                            c,
                        ) || (!marked(inl, n) && (a.0 == n || b.0 == n) && own@.contains(c))) by {
                        assert(conds1[n]@.contains(c) <==> conds0[n]@.contains(c) || (!marked(
                            inl,
                            n,
                        ) && a.0 == n && own@.contains(c)));
                        assert(conds[n]@.contains(c) <==> conds1[n]@.contains(c) || (!marked(
                            inl,
                            n,
                        ) && b.0 == n && own@.contains(c)));
                    }
                }
            },
            _ => {},
        }
        assert forall|n: int| 0 <= n < p implies vis[n] == visited_so_far(
            ops,
            inl,
            top,
            n,
            p as int,
        ) by {
            assert(vis0[n] == visited_so_far(ops, inl, top, n, i as int));
        }
        assert forall|n: int, c: Option<DnfClause>| 0 <= n < p implies (
        #[trigger] conds[n]@.contains(c) <==> seen_so_far(ops, inl, ids, top, n, c, p as int)) by {
            assert(conds0[n]@.contains(c) <==> seen_so_far(ops, inl, ids, top, n, c, i as int));
            assert(own@.contains(c) <==> seen(ops, inl, ids, top, p as int, c));
            let here = has_child(ops[p as int], n) && if is_choice(ops[p as int]) {
                visited(ops, inl, top, p as int) && hands(ops[p as int], id_of(ids, p as int), n, c)
            } else {
                seen(ops, inl, ids, top, p as int, c)
            };
            assert(seen_from(ops, inl, ids, top, n, c, p as int) == (here || seen_from(
                ops,
                inl,
                ids,
                top,
                n,
                c,
                i as int,
            )));
            match ops[p as int] {
                Op::Unary(_, a) => {
                    if a.0 == n {
                        assert(conds[n]@.contains(c) <==> conds0[n]@.contains(c) || (!marked(
                            inl,
                            n,
                        ) && own@.contains(c)));
                    } else {
                        assert(conds[n] == conds0[n]);
                    }
                },
                Op::Binary(_, a, b) => {
                    if is_choice(ops[p as int]) {
                        if entered {
                            let id = id_of(ids, p as int)->Some_0;
                            let l = Some(DnfClause { root: id, choice: Choice::Left });
                            let r = Some(DnfClause { root: id, choice: Choice::Right });
                            assert(conds[n]@.contains(c) <==> conds0[n]@.contains(c) || (!marked(
                                inl,
                                n,
                            ) && ((a.0 == n && c == l) || (b.0 == n && c == r))));
                        } else {
                            assert(conds[n] == conds0[n]);
                        }
                    } else {
                        assert(conds[n]@.contains(c) <==> conds0[n]@.contains(c) || (!marked(
                            inl,
                            n,
                        ) && (a.0 == n || b.0 == n) && own@.contains(c)));
                    }
                },
                _ => {
                    assert(conds[n] == conds0[n]);
                },
            }
        }
        assert forall|n: int, c: Option<DnfClause>| p <= n < len implies (
        #[trigger] conds[n]@.contains(c) <==> seen(ops, inl, ids, top, n, c)) by {
            assert(conds[n] == conds0[n]);
        }
        i = p;
    }
    assert(!lacks_index(ops, inl, ids, top));
    Some((vis, conds))
}

/// Puts the entered node `p`, whose condition is `cond`, into the group with
/// that condition, which is made if it is not there yet.
fn place(
    groups: &mut Vec<Group>,
    home: &mut Vec<Option<usize>>,
    p: usize,
    cond: Vec<Option<DnfClause>>,
    Ghost(ops): Ghost<Seq<Op>>,
    Ghost(inl): Ghost<Seq<bool>>,
    Ghost(ids): Ghost<Seq<Option<usize>>>,
    Ghost(top): Ghost<int>,
)
    requires
        p < ops.len(),
        visited(ops, inl, top, p as int),
        forall|c: Option<DnfClause>|
            cond@.contains(c) <==> in_condition(ops, inl, ids, top, p as int, c),
        groups_from(ops, inl, ids, top, old(groups)@, old(home)@, p + 1),
    ensures
        groups_from(ops, inl, ids, top, final(groups)@, final(home)@, p as int),
{
    let ghost groups0 = groups@;
    let ghost home0 = home@;
    let mut g: usize = 0;
    let mut found: bool = false;
    while g < groups.len()
        invariant_except_break
            !found,
        invariant
            g <= groups.len(),
            groups@ == groups0,
            forall|k: int| 0 <= k < g ==> !same_clauses((#[trigger] groups0[k]).dnf@, cond@),
        ensures
            g <= groups.len(),
            found ==> g < groups.len() && same_clauses(groups0[g as int].dnf@, cond@),
            !found ==> forall|k: int|
                0 <= k < groups0.len() ==> !same_clauses((#[trigger] groups0[k]).dnf@, cond@),
        decreases groups.len() - g,
    {
        if equal_sets(&groups[g].dnf, &cond) {
            found = true;
            break ;
        }
        g = g + 1;
    }
    if found {
        let ghost last = groups0[g as int].nodes@.len() - 1;
        groups[g].nodes.push(Node(p));
        home.set(p, Some(g));
        assert(forall|i: int| 0 <= i < groups0.len() && i != g ==> groups@[i] == groups0[i]);
        assert(groups@[g as int].dnf == groups0[g as int].dnf);
        assert(groups@[g as int].nodes@ == groups0[g as int].nodes@.push(Node(p)));
        assert forall|n: int| 0 <= n < ops.len() && #[trigger] home@[n] is Some implies home@[n]->Some_0
            < groups@.len() && groups@[home@[n]->Some_0 as int].nodes@.contains(
            Node(n as usize),
        ) by {
            if n == p {
                assert(groups@[g as int].nodes@[last + 1] == Node(p));
            } else {
                let h = home0[n]->Some_0 as int;
                let k = choose|k: int|
                    0 <= k < groups0[h].nodes@.len() && groups0[h].nodes@[k] == Node(n as usize);
                assert(groups@[h].nodes@[k] == Node(n as usize));
            }
        }
        assert forall|i: int, k: int|
            0 <= i < groups@.len() && 0 <= k < groups@[i].nodes.len() implies p <= (
        #[trigger] groups@[i].nodes[k]).0 < ops.len() && home@[groups@[i].nodes[k].0 as int]
            == Some(i as usize) by {
            if i == g && k == last + 1 {
            } else {
                assert(groups@[i].nodes[k] == groups0[i].nodes[k]);
            }
        }
        assert forall|i: int, k: int, c: Option<DnfClause>|
            0 <= i < groups@.len() && 0 <= k < groups@[i].nodes.len() implies (
        #[trigger] groups@[i].dnf@.contains(c) <==> in_condition(
            ops,
            inl,
            ids,
            top,
            #[trigger] groups@[i].nodes[k].0 as int,
            c,
        )) by {
            if i == g && k == last + 1 {
                assert(groups0[g as int].dnf@.contains(c) <==> cond@.contains(c));
            } else {
                assert(groups@[i].nodes[k] == groups0[i].nodes[k]);
                assert(groups0[i].dnf@.contains(c) <==> in_condition(
                    ops,
                    inl,
                    ids,
                    top,
                    groups0[i].nodes[k].0 as int,
                    c,
                ));
            }
        }
        assert forall|i: int, j: int| 0 <= i < j < groups@.len() implies !same_clauses(
            #[trigger] groups@[i].dnf@,
            #[trigger] groups@[j].dnf@,
        ) by {
            assert(groups@[i].dnf == groups0[i].dnf);
            assert(groups@[j].dnf == groups0[j].dnf);
        }
        assert forall|i: int, k: int, l: int|
            0 <= i < groups@.len() && 0 <= k < l < groups@[i].nodes.len() implies (
        #[trigger] groups@[i].nodes[k]).0 > (#[trigger] groups@[i].nodes[l]).0 by {
            if i == g && l == last + 1 {
                assert(groups@[i].nodes[k] == groups0[i].nodes[k]);
            } else {
                assert(groups@[i].nodes[k] == groups0[i].nodes[k]);
                assert(groups@[i].nodes[l] == groups0[i].nodes[l]);
            }
        }
        assert forall|i: int, j: int| 0 <= i < j < groups@.len() implies (
        #[trigger] groups@[i]).nodes[0].0 > (#[trigger] groups@[j]).nodes[0].0 by {
            assert(groups@[i].nodes[0] == groups0[i].nodes[0]);
            assert(groups@[j].nodes[0] == groups0[j].nodes[0]);
        }
    } else {
        let mut nodes: Vec<Node> = Vec::new();
        nodes.push(Node(p));
        let ghost count = groups0.len() as int;
        home.set(p, Some(groups.len()));
        groups.push(Group { dnf: cond, nodes });
        assert(forall|i: int| 0 <= i < count ==> groups@[i] == groups0[i]);
        assert(groups@[count].nodes@[0] == Node(p));
        assert forall|n: int| 0 <= n < ops.len() && #[trigger] home@[n] is Some implies home@[n]->Some_0
            < groups@.len() && groups@[home@[n]->Some_0 as int].nodes@.contains(
            Node(n as usize),
        ) by {
            if n != p {
                assert(groups@[home0[n]->Some_0 as int] == groups0[home0[n]->Some_0 as int]);
            }
        }
        assert forall|i: int, j: int| 0 <= i < j < groups@.len() implies !same_clauses(
            #[trigger] groups@[i].dnf@,
            #[trigger] groups@[j].dnf@,
        ) by {
            if j == count {
                assert(!same_clauses(groups0[i].dnf@, cond@));
            }
        }
        assert forall|i: int, j: int| 0 <= i < j < groups@.len() implies (
        #[trigger] groups@[i]).nodes[0].0 > (#[trigger] groups@[j]).nodes[0].0 by {
            assert(groups0[i].nodes.len() > 0);
            assert(groups@[i].nodes[0] == groups0[i].nodes[0]);
        }
    }
}

/// Groups the nodes below `root` by their conditions.  `inline` marks the
/// nodes that the walk does not enter, `choice_id` gives each choice its
/// index.  Fails with `InvalidNode` for a root that is not of this context,
/// and with `MalformedExpr` if the walk enters a choice that has no index.
pub fn find_groups(
    ctx: &Context,
    root: Node,
    inline: &Vec<bool>,
    choice_id: &Vec<Option<usize>>,
) -> (r: Result<Grouping, Error>)
    ensures
        root.0 >= ctx@.len() ==> r is Err && r->Err_0 == Error::InvalidNode,
        root.0 < ctx@.len() ==> (r is Err <==> lacks_index(
            ctx@,
            inline@,
            choice_id@,
            root.0 as int,
        )),
        root.0 < ctx@.len() && r is Err ==> r->Err_0 == Error::MalformedExpr,
        r is Ok ==> groups_of(ctx@, inline@, choice_id@, root.0 as int, r->Ok_0),
{
    let len = ctx.len();
    if root.0 >= len {
        return Err(Error::InvalidNode);
    }
    let ghost ops = ctx@;
    let ghost inl = inline@;
    let ghost ids = choice_id@;
    let ghost top = root.0 as int;
    let (vis, conds) = match walk_conditions(ctx, root, inline, choice_id) {
        None => {
            return Err(Error::MalformedExpr);
        },
        Some(tables) => tables,
    };
    let mut home: Vec<Option<usize>> = Vec::new();
    let mut k: usize = 0;
    while k < len
        invariant
            k <= len,
            home.len() == k,
            forall|n: int| 0 <= n < k ==> home[n] is None,
        decreases len - k,
    {
        home.push(None);
        k = k + 1;
    }
    let mut groups: Vec<Group> = Vec::new();
    let mut i: usize = root.0 + 1;
    let none: Option<DnfClause> = None;
    let empty: Vec<Option<DnfClause>> = Vec::new();
    assert(forall|c: Option<DnfClause>| !empty@.contains(c));
    while i > 0
        invariant
            len == ops.len(),
            top == root.0,
            top < len,
            i <= top + 1,
            vis.len() == len,
            conds.len() == len,
            none is None,
            forall|c: Option<DnfClause>| !empty@.contains(c),
            forall|n: int| 0 <= n < len ==> vis[n] == visited(ops, inl, top, n),
            forall|n: int, c: Option<DnfClause>|
                0 <= n < len ==> (#[trigger] conds[n]@.contains(c) <==> seen(
                    ops,
                    inl,
                    ids,
                    top,
                    n,
                    c,
                )),
            groups_from(ops, inl, ids, top, groups@, home@, i as int),
        decreases i,
    {
        let p: usize = i - 1;
        if vis[p] {
            let always = holds(&conds[p], &none);
            let mut cond: Vec<Option<DnfClause>> = if always {
                Vec::new()
            } else {
                union(&conds[p], &empty)
            };
            if always {
                cond.push(None);
                assert(cond@[0] == None::<DnfClause>);
            }
            assert forall|c: Option<DnfClause>| cond@.contains(c) <==> in_condition(
                ops,
                inl,
                ids,
                top,
                p as int,
                c,
            ) by {
                assert(conds[p as int]@.contains(c) <==> seen(ops, inl, ids, top, p as int, c));
                assert(conds[p as int]@.contains(none) <==> seen(
                    ops,
                    inl,
                    ids,
                    top,
                    p as int,
                    none,
                ));
            }
            place(&mut groups, &mut home, p, cond, Ghost(ops), Ghost(inl), Ghost(ids), Ghost(top));
        } else {
            assert(groups_from(ops, inl, ids, top, groups@, home@, p as int));
        }
        i = p;
    }
    Ok(Grouping { groups, home })
}

} // verus!
