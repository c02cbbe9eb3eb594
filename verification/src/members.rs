//! The full membership of a group: its own nodes and the inline nodes that
//! they use, directly or through other inline nodes.  Every operand of a
//! member that is not itself a member is a global: its value crosses from
//! one group to another.

use crate::context::{has_child, is_dag, op_below, Context, Node, Op};
use crate::groups::{is_marked, marked};
use vstd::prelude::*;

verus! {

/// Whether `n` belongs to the group that grows from the nodes `base`: it is
/// one of them, or it is inline and an operand of a member.
pub open spec fn member(ops: Seq<Op>, inline: Seq<bool>, base: Seq<Node>, n: int) -> bool
    decreases
        (if n < ops.len() {
            ops.len() - n
        } else {
            0
        }),
        (if n < ops.len() {
            ops.len() - n + 1
        } else {
            0
        }),
{
    0 <= n < ops.len() && (base.contains(Node(n as usize)) || (marked(inline, n) && pulled_from(
        ops,
        inline,
        base,
        n,
        n + 1,
    )))
}

/// Whether some member with an index of at least `lo` has `n` as an operand.
pub open spec fn pulled_from(
    ops: Seq<Op>,
    inline: Seq<bool>,
    base: Seq<Node>,
    n: int,
    lo: int,
) -> bool
    decreases
        (if n < ops.len() {
            ops.len() - n
        } else {
            0
        }),
        (if lo < ops.len() {
            ops.len() - lo + 1
        } else {
            0
        }),
{
    n < lo < ops.len() && ((member(ops, inline, base, lo) && has_child(ops[lo], n)) || pulled_from(
        ops,
        inline,
        base,
        n,
        lo + 1,
    ))
}

/// Whether some node with an index of at least `lo` that satisfies `inside`
/// has `n` as an operand.
pub open spec fn used_by(ops: Seq<Op>, inside: Seq<bool>, n: int, lo: int) -> bool
    decreases
        (if lo < ops.len() {
            ops.len() - lo
        } else {
            0
        }),
{
    0 <= lo < ops.len() && ((marked(inside, lo) && has_child(ops[lo], n)) || used_by(
        ops,
        inside,
        n,
        lo + 1,
    ))
}

/// Whether the value of `n` enters the group with the membership table
/// `inside` from elsewhere: a member uses it, and it is not a member.
pub open spec fn crosses(ops: Seq<Op>, inside: Seq<bool>, n: int) -> bool {
    !marked(inside, n) && used_by(ops, inside, n, 0)
}

/// The membership table of the group that grows from `base`: entry `n` says
/// whether node `n` is a member.
pub fn members(ctx: &Context, inline: &Vec<bool>, base: &Vec<Node>) -> (r: Vec<bool>)
    ensures
        r.len() == ctx@.len(),
        forall|n: int| 0 <= n < r.len() ==> #[trigger] r[n] == member(ctx@, inline@, base@, n),
{
    ctx.well_formed();
    let len = ctx.len();
    let ghost ops = ctx@;
    let ghost inl = inline@;
    let mut table: Vec<bool> = Vec::new();
    let mut k: usize = 0;
    while k < len
        invariant
            k <= len,
            table.len() == k,
            forall|n: int| 0 <= n < k ==> !table[n],
        decreases len - k,
    {
        table.push(false);
        k = k + 1;
    }
    let mut j: usize = 0;
    while j < base.len()
        invariant
            j <= base.len(),
            table.len() == len,
            forall|n: int|
                0 <= n < len ==> (#[trigger] table[n] <==> exists|k: int|
                    0 <= k < j && base@[k] == Node(n as usize)),
        decreases base.len() - j,
    {
        let ghost before = table@;
        let b = base[j];
        if b.0 < len {
            table.set(b.0, true);
        }
        assert forall|n: int| 0 <= n < len implies (#[trigger] table[n] <==> exists|k: int|
            0 <= k < j + 1 && base@[k] == Node(n as usize)) by {
            if table[n] {
                if before[n] {
                    let k = choose|k: int| 0 <= k < j && base@[k] == Node(n as usize);
                    assert(0 <= k < j + 1 && base@[k] == Node(n as usize));
                } else {
                    assert(base@[j as int] == Node(n as usize));
                }
            } else {
                if exists|k: int| 0 <= k < j + 1 && base@[k] == Node(n as usize) {
                    let k = choose|k: int| 0 <= k < j + 1 && base@[k] == Node(n as usize);
                    if k < j {
                        assert(before[n]);
                    }
                }
            }
        }
        j = j + 1;
    }
    assert forall|n: int| 0 <= n < len implies #[trigger] table[n] == base@.contains(
        Node(n as usize),
    ) by {
        if base@.contains(Node(n as usize)) {
            let k = choose|k: int| 0 <= k < base@.len() && base@[k] == Node(n as usize);
            assert(0 <= k < j && base@[k] == Node(n as usize));
        }
    }
    let mut i: usize = len;
    while i > 0
        invariant
            ops == ctx@,
            inl == inline@,
            is_dag(ops),
            len == ops.len(),
            i <= len,
            table.len() == len,
            forall|n: int| i <= n < len ==> #[trigger] table[n] == member(ops, inl, base@, n),
            forall|n: int|
                0 <= n < i ==> #[trigger] table[n] == (base@.contains(Node(n as usize)) || (
                marked(inl, n) && pulled_from(ops, inl, base@, n, i as int))),
        decreases i,
    {
        let p: usize = i - 1;
        let ghost before = table@;
        assert(before[p as int] == member(ops, inl, base@, p as int));
        assert(op_below(ops[p as int], p as int));
        if table[p] {
            match ctx.get_op(Node(p)) {
                Ok(Op::Unary(_, a)) => {
                    if is_marked(inline, a.0) {
                        table.set(a.0, true);
                    }
                },
                Ok(Op::Binary(_, a, b)) => {
                    if is_marked(inline, a.0) {
                        table.set(a.0, true);
                    }
                    if is_marked(inline, b.0) {
                        table.set(b.0, true);
                    }
                },
                _ => {},
            }
        }
        assert forall|n: int| 0 <= n < p implies #[trigger] table[n] == (base@.contains(
            Node(n as usize),
        ) || (marked(inl, n) && pulled_from(ops, inl, base@, n, p as int))) by {
            assert(before[n] == (base@.contains(Node(n as usize)) || (marked(inl, n)
                && pulled_from(ops, inl, base@, n, i as int))));
            if before[p as int] && has_child(ops[p as int], n) && marked(inl, n) {
                assert(table[n]);
            } else {
                assert(table[n] == before[n]);
            }
        }
        i = p;
    }
    table
}

/// The nodes that a table marks, by descending index.
pub fn listed(table: &Vec<bool>) -> (r: Vec<Node>)
    ensures
        forall|k: int| 0 <= k < r.len() ==> marked(table@, (#[trigger] r[k]).0 as int),
        forall|n: int| marked(table@, n) ==> r@.contains(Node(n as usize)),
        forall|k: int, l: int| 0 <= k < l < r.len() ==> (#[trigger] r[k]).0 > (#[trigger] r[l]).0,
{
    let mut r: Vec<Node> = Vec::new();
    let mut i: usize = table.len();
    while i > 0
        invariant
            i <= table.len(),
            forall|k: int|
                0 <= k < r.len() ==> marked(table@, (#[trigger] r[k]).0 as int) && r[k].0 >= i,
            forall|n: int| i <= n && marked(table@, n) ==> r@.contains(Node(n as usize)),
            forall|k: int, l: int|
                0 <= k < l < r.len() ==> (#[trigger] r[k]).0 > (#[trigger] r[l]).0,
        decreases i,
    {
        let p: usize = i - 1;
        let ghost before = r@;
        if table[p] {
            r.push(Node(p));
            assert(r@[before.len() as int] == Node(p));
        }
        assert forall|n: int| p <= n && marked(table@, n) implies r@.contains(
            Node(n as usize),
        ) by {
            if n > p {
                let k = choose|k: int| 0 <= k < before.len() && before[k] == Node(n as usize);
                assert(r@[k] == Node(n as usize));
            }
        }
        i = p;
    }
    r
}

/// Marks in `globals` every operand of a member that is not a member.
pub fn mark_crossing(ctx: &Context, inside: &Vec<bool>, globals: &mut Vec<bool>)
    requires
        inside.len() == ctx@.len(),
        old(globals).len() == ctx@.len(),
    ensures
        final(globals).len() == ctx@.len(),
        forall|n: int|
            0 <= n < ctx@.len() ==> #[trigger] final(globals)[n] == (old(globals)[n] || crosses(
                ctx@,
                inside@,
                n,
            )),
{
    ctx.well_formed();
    let len = ctx.len();
    let ghost ops = ctx@;
    let ghost start = globals@;
    let mut i: usize = len;
    while i > 0
        invariant
            ops == ctx@,
            is_dag(ops),
            len == ops.len(),
            inside.len() == len,
            globals.len() == len,
            i <= len,
            start.len() == len,
            forall|n: int|
                0 <= n < len ==> #[trigger] globals[n] == (start[n] || (!marked(inside@, n) && used_by(
                    ops,
                    inside@,
                    n,
                    i as int,
                ))),
        decreases i,
    {
        let p: usize = i - 1;
        let ghost before = globals@;
        assert(op_below(ops[p as int], p as int));
        if inside[p] {
            match ctx.get_op(Node(p)) {
                Ok(Op::Unary(_, a)) => {
                    if !inside[a.0] {
                        globals.set(a.0, true);
                    }
                },
                Ok(Op::Binary(_, a, b)) => {
                    if !inside[a.0] {
                        globals.set(a.0, true);
                    }
                    if !inside[b.0] {
                        globals.set(b.0, true);
                    }
                },
                _ => {},
            }
        }
        assert forall|n: int| 0 <= n < len implies #[trigger] globals[n] == (start[n] || (!marked(
            inside@,
            n,
        ) && used_by(ops, inside@, n, p as int))) by {
            assert(before[n] == (start[n] || (!marked(inside@, n) && used_by(
                ops,
                inside@,
                n,
                i as int,
            ))));
            if inside[p as int] && has_child(ops[p as int], n) && !marked(inside@, n) {
                assert(globals[n]);
            } else {
                assert(globals[n] == before[n]);
            }
        }
        i = p;
    }
}

} // verus!
