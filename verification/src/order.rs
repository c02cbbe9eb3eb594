//! The order in which groups are emitted: every group after all the groups
//! that use its values, and among those that are ready the one with the
//! smallest index first.

use crate::groups::marked;
use vstd::prelude::*;

verus! {

/// Whether every group that uses values of `g` has been emitted.
pub open spec fn ready(parents: Seq<Vec<usize>>, emitted: Seq<bool>, g: int) -> bool {
    forall|k: int|
        0 <= k < parents[g].len() ==> marked(emitted, (#[trigger] parents[g][k]) as int)
}

/// Whether `x` is one of the first `j` entries of `order`.
pub open spec fn placed_before(order: Seq<usize>, j: int, x: int) -> bool {
    exists|i: int| 0 <= i < j && #[trigger] order[i] == x
}

/// Whether `order` lists every group once, each after all of its parents.
pub open spec fn is_order(parents: Seq<Vec<usize>>, order: Seq<usize>) -> bool {
    &&& order.len() == parents.len()
    &&& forall|i: int| 0 <= i < order.len() ==> (#[trigger] order[i]) < parents.len()
    &&& forall|i: int, j: int| 0 <= i < j < order.len() ==> order[i] != order[j]
    &&& forall|g: usize| g < parents.len() ==> order.contains(g)
    &&& forall|j: int, k: int|
        0 <= j < order.len() && 0 <= k < parents[order[j] as int].len() ==> placed_before(
            order,
            j,
            (#[trigger] parents[order[j] as int][k]) as int,
        )
}

/// The table that marks the first `j` entries of `order`.
pub open spec fn emitted_before(order: Seq<usize>, count: nat, j: int) -> Seq<bool> {
    Seq::new(count, |g: int| placed_before(order, j, g))
}

/// Whether each entry of `order` is the smallest group that was ready when
/// it was emitted.
pub open spec fn least_first(parents: Seq<Vec<usize>>, order: Seq<usize>) -> bool {
    forall|j: int, g: int|
        0 <= j < order.len() && 0 <= g < #[trigger] order[j] ==> marked(
            emitted_before(order, parents.len(), j),
            g,
        ) || !#[trigger] ready(parents, emitted_before(order, parents.len(), j), g)
}

/// The number of entries that are not set.
pub open spec fn unset(s: Seq<bool>) -> nat
    decreases s.len(),
{
    if s.len() == 0 {
        0
    } else {
        unset(s.drop_last()) + if s.last() {
            0nat
        } else {
            1nat
        }
    }
}

proof fn unset_of_cleared(s: Seq<bool>)
    requires
        forall|i: int| 0 <= i < s.len() ==> !s[i],
    ensures
        unset(s) == s.len(),
    decreases s.len(),
{
    if s.len() > 0 {
        unset_of_cleared(s.drop_last());
    }
}

proof fn unset_none(s: Seq<bool>)
    requires
        unset(s) == 0,
    ensures
        forall|i: int| 0 <= i < s.len() ==> s[i],
    decreases s.len(),
{
    if s.len() > 0 {
        unset_none(s.drop_last());
        assert forall|i: int| 0 <= i < s.len() implies s[i] by {
            if i < s.len() - 1 {
                assert(s.drop_last()[i] == s[i]);
            }
        }
    }
}

proof fn unset_some(s: Seq<bool>) -> (g: int)
    requires
        unset(s) > 0,
    ensures
        0 <= g < s.len() && !s[g],
    decreases s.len(),
{
    if s.last() {
        let g = unset_some(s.drop_last());
        assert(s.drop_last()[g] == s[g]);
        g
    } else {
        s.len() - 1
    }
}

proof fn unset_after_set(s: Seq<bool>, g: int)
    requires
        0 <= g < s.len(),
        !s[g],
    ensures
        unset(s.update(g, true)) == unset(s) - 1,
    decreases s.len(),
{
    let t = s.update(g, true);
    if g == s.len() - 1 {
        assert(t.drop_last() =~= s.drop_last());
    } else {
        unset_after_set(s.drop_last(), g);
        assert(t.drop_last() =~= s.drop_last().update(g, true));
    }
}

/// In any order of groups, as long as no group that is left is ready, none
/// of the first `j` groups is left.
proof fn prefix_emitted(parents: Seq<Vec<usize>>, emitted: Seq<bool>, order: Seq<usize>, j: int)
    requires
        is_order(parents, order),
        emitted.len() == parents.len(),
        forall|g: int| 0 <= g < parents.len() && !emitted[g] ==> !ready(parents, emitted, g),
        0 <= j <= order.len(),
    ensures
        forall|i: int| 0 <= i < j ==> emitted[#[trigger] order[i] as int],
    decreases j,
{
    if j > 0 {
        prefix_emitted(parents, emitted, order, j - 1);
        let g = order[j - 1] as int;
        if !emitted[g] {
            assert(!ready(parents, emitted, g));
            let k = choose|k: int|
                0 <= k < parents[g].len() && !marked(emitted, (#[trigger] parents[g][k]) as int);
            assert(placed_before(order, j - 1, parents[order[j - 1] as int][k] as int));
            let i = choose|i: int|
                0 <= i < j - 1 && #[trigger] order[i] == parents[order[j - 1] as int][k];
            assert(emitted[order[i] as int]);
        }
    }
}

/// Where some group is left and none of those left is ready, no order
/// exists: the groups depend on each other in a cycle.
proof fn stuck_has_no_order(parents: Seq<Vec<usize>>, emitted: Seq<bool>, order: Seq<usize>)
    requires
        emitted.len() == parents.len(),
        parents.len() <= usize::MAX,
        exists|g: int| 0 <= g < parents.len() && !emitted[g],
        forall|g: int| 0 <= g < parents.len() && !emitted[g] ==> !ready(parents, emitted, g),
    ensures
        !is_order(parents, order),
{
    if is_order(parents, order) {
        prefix_emitted(parents, emitted, order, order.len() as int);
        let g = choose|g: int| 0 <= g < parents.len() && !emitted[g];
        assert(order.contains(g as usize));
        let i = choose|i: int| 0 <= i < order.len() && order[i] == g as usize;
        assert(emitted[order[i] as int]);
    }
}

/// Whether every parent of `g` is marked in `emitted`.
fn is_ready(parents: &Vec<Vec<usize>>, emitted: &Vec<bool>, g: usize) -> (r: bool)
    requires
        g < parents.len(),
    ensures
        r == ready(parents@, emitted@, g as int),
{
    let mut k: usize = 0;
    while k < parents[g].len()
        invariant
            g < parents.len(),
            k <= parents[g as int].len(),
            forall|l: int|
                0 <= l < k ==> marked(emitted@, (#[trigger] parents@[g as int][l]) as int),
        decreases parents[g as int].len() - k,
    {
        let parent = parents[g][k];
        if parent >= emitted.len() || !emitted[parent] {
            return false;
        }
        k = k + 1;
    }
    true
}

/// Orders the groups.  `parents[g]` lists the groups that use values of
/// group `g`.  The result lists every group once, each after all of its
/// parents, taking at each step the ready group with the smallest index.
/// It is `None` exactly when no such order exists.
pub fn topological_order(parents: &Vec<Vec<usize>>) -> (r: Option<Vec<usize>>)
    ensures
        r is Some ==> is_order(parents@, r->Some_0@) && least_first(parents@, r->Some_0@),
        r is None ==> forall|order: Seq<usize>| !is_order(parents@, order),
{
    let count = parents.len();
    let mut emitted: Vec<bool> = Vec::new();
    let mut k: usize = 0;
    while k < count
        invariant
            k <= count,
            emitted.len() == k,
            forall|g: int| 0 <= g < k ==> !emitted[g],
        decreases count - k,
    {
        emitted.push(false);
        k = k + 1;
    }
    proof {
        unset_of_cleared(emitted@);
    }
    let mut order: Vec<usize> = Vec::new();
    let mut left: usize = count;
    while left > 0
        invariant
            count == parents.len(),
            emitted.len() == count,
            left == unset(emitted@),
            order.len() + left == count,
            emitted@ =~= emitted_before(order@, count as nat, order.len() as int),
            forall|i: int| 0 <= i < order.len() ==> (#[trigger] order[i]) < count,
            forall|i: int, j: int| 0 <= i < j < order.len() ==> order[i] != order[j],
            forall|j: int, k: int|
                0 <= j < order.len() && 0 <= k < parents[order[j] as int].len() ==> placed_before(
                    order@,
                    j,
                    (#[trigger] parents[order[j] as int][k]) as int,
                ),
            least_first(parents@, order@),
        decreases left,
    {
        let mut g: usize = 0;
        let mut found: bool = false;
        while g < count
            invariant_except_break
                !found,
            invariant
                g <= count,
                count == parents.len(),
                emitted.len() == count,
                forall|h: int| 0 <= h < g ==> emitted[h] || !ready(parents@, emitted@, h),
            ensures
                found ==> g < count && !emitted[g as int] && ready(parents@, emitted@, g as int),
                !found ==> g == count,
                forall|h: int| 0 <= h < g ==> emitted[h] || !ready(parents@, emitted@, h),
            decreases count - g,
        {
            if !emitted[g] && is_ready(parents, &emitted, g) {
                found = true;
                break ;
            }
            g = g + 1;
        }
        if !found {
            proof {
                let u = unset_some(emitted@);
                assert forall|cand: Seq<usize>| !is_order(parents@, cand) by {
                    stuck_has_no_order(parents@, emitted@, cand);
                }
            }
            return None;
        }
        let ghost before = emitted@;
        let ghost listed = order@;
        let ghost at = order.len() as int;
        proof {
            unset_after_set(emitted@, g as int);
        }
        emitted.set(g, true);
        order.push(g);
        left = left - 1;
        assert(order@[at] == g);
        assert forall|h: int| 0 <= h < count implies emitted@[h] == emitted_before(
            order@,
            count as nat,
            at + 1,
        )[h] by {
            assert(before[h] == emitted_before(listed, count as nat, at)[h]);
            if before[h] {
                let i = choose|i: int| 0 <= i < at && #[trigger] listed[i] == h;
                assert(order@[i] == h);
            }
            if h == g {
                assert(order@[at] == h);
            }
            if emitted_before(order@, count as nat, at + 1)[h] && h != g {
                let i = choose|i: int| 0 <= i < at + 1 && #[trigger] order@[i] == h;
                assert(listed[i] == h);
            }
        }
        assert forall|i: int, j: int| 0 <= i < j < order.len() implies order[i] != order[j] by {
            if j == at {
                assert(listed[i] == order[i]);
                if order[i] == g {
                    assert(placed_before(listed, at, g as int));
                    assert(emitted_before(listed, count as nat, at)[g as int]);
                }
            } else {
                assert(listed[i] == order[i] && listed[j] == order[j]);
            }
        }
        assert forall|j: int, k: int|
            0 <= j < order.len() && 0 <= k < parents[order[j] as int].len() implies placed_before(
            order@,
            j,
            (#[trigger] parents[order[j] as int][k]) as int,
        ) by {
            if j == at {
                let parent = parents[g as int][k];
                assert(marked(before, parent as int));
                assert(emitted_before(listed, count as nat, at)[parent as int]);
                let i = choose|i: int| 0 <= i < at && #[trigger] listed[i] == parent as int;
                assert(order[i] == parent);
            } else {
                assert(listed[j] == order[j]);
                assert(placed_before(listed, j, parents[listed[j] as int][k] as int));
                let i = choose|i: int|
                    0 <= i < j && #[trigger] listed[i] == parents[listed[j] as int][k];
                assert(order[i] == listed[i]);
            }
        }
        assert forall|j: int, h: int|
            0 <= j < order.len() && 0 <= h < #[trigger] order@[j] implies marked(
            emitted_before(order@, count as nat, j),
            h,
        ) || !#[trigger] ready(parents@, emitted_before(order@, count as nat, j), h) by {
            assert(emitted_before(order@, count as nat, j) =~= emitted_before(
                listed,
                count as nat,
                j,
            )) by {
                assert forall|x: int| 0 <= x < count implies emitted_before(
                    order@,
                    count as nat,
                    j,
                )[x] == emitted_before(listed, count as nat, j)[x] by {
                    if emitted_before(order@, count as nat, j)[x] {
                        let i = choose|i: int| 0 <= i < j && #[trigger] order@[i] == x;
                        assert(listed[i] == x);
                    }
                    if emitted_before(listed, count as nat, j)[x] {
                        let i = choose|i: int| 0 <= i < j && #[trigger] listed[i] == x;
                        assert(order@[i] == x);
                    }
                }
            }
            if j == at {
                assert(emitted_before(listed, count as nat, at) =~= before);
            } else {
                assert(listed[j] == order@[j]);
            }
        }
    }
    proof {
        unset_none(emitted@);
        assert forall|g: usize| g < count implies order@.contains(g) by {
            assert(emitted_before(order@, count as nat, order.len() as int)[g as int]);
            let i = choose|i: int| 0 <= i < order.len() && #[trigger] order@[i] == g as int;
            assert(order@[i] == g);
        }
    }
    Some(order)
}

} // verus!
