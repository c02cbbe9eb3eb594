//! Why the operations that the register allocator emits compute what the
//! operations that it took say.
//!
//! The allocator emits against the direction of execution.  What it has
//! emitted so far runs after all that is still to come, and expects the
//! values of some slots in some places: registers and memory slots.  The
//! emitted part is sound if, from any state that has those values in those
//! places, it leaves the value of the root in register 0 and logs the
//! choices of the operations taken so far.  Each operation that is emitted
//! changes what is expected, and keeps the emitted part sound.

use crate::op::{
    spec_arity, spec_is_choice, spec_is_transfer, ssa_ok, ssa_op_ok, OpCode, RegOp, SsaOp,
};
use crate::term::{
    faithful, made, met, run_from_first, slot_events, slot_term, slot_terms, term_run, term_step,
    Event, Run, Term,
};
use vstd::prelude::*;

verus! {

/// Whether the terms `v` of the slots satisfy the operations taken so far:
/// the term of the slot that an operation defines is what the operation
/// makes of the terms of its operands.
pub open spec fn consistent(seen: Seq<SsaOp>, v: Seq<Term>) -> bool {
    forall|i: int|
        0 <= i < seen.len() ==> #[trigger] v[i] == made(
            seen[i].code,
            seen[i].imm,
            seen[i].choice,
            v[seen[i].lhs as int],
            v[seen[i].rhs as int],
        )
}

/// Whether every place holds the term of the slot that is expected there.
pub open spec fn agrees(slots: Seq<Term>, expect: Seq<Option<usize>>, v: Seq<Term>) -> bool {
    forall|loc: int|
        0 <= loc < expect.len() && (#[trigger] expect[loc]) is Some ==> slots[loc]
            == v[expect[loc]->Some_0 as int]
}

/// The log of the choices of the operations taken so far, in the order in
/// which they run: the one taken last first.
pub open spec fn seen_events(seen: Seq<SsaOp>, v: Seq<Term>) -> Seq<Event>
    decreases seen.len(),
{
    if seen.len() == 0 {
        Seq::<Event>::empty()
    } else {
        let o = seen.last();
        let rest = seen_events(seen.drop_last(), v);
        if spec_is_choice(o.code) {
            seq![met(o.code, o.imm, o.choice, v[o.lhs as int], v[o.rhs as int])] + rest
        } else {
            rest
        }
    }
}

/// Whether the emitted part does what is said above in the state `st`, for
/// the terms `v` of the slots.
pub open spec fn sound_for(
    out: Seq<RegOp>,
    expect: Seq<Option<usize>>,
    seen: Seq<SsaOp>,
    v: Seq<Term>,
    st: Run,
) -> bool {
    consistent(seen, v) && st.slots.len() >= expect.len() && agrees(st.slots, expect, v) ==> {
        let end = term_run(out.reverse(), st);
        &&& end.slots.len() == st.slots.len()
        &&& end.slots[0] == v[0]
        &&& end.log == st.log + seen_events(seen, v)
    }
}

/// Whether the emitted part is sound.
#[verifier::opaque]
pub open spec fn sound(out: Seq<RegOp>, expect: Seq<Option<usize>>, seen: Seq<SsaOp>) -> bool {
    forall|v: Seq<Term>, st: Run| #[trigger] sound_for(out, expect, seen, v, st)
}

/// Nothing emitted is sound where the root is expected in register 0.
pub proof fn sound_at_start(expect: Seq<Option<usize>>)
    requires
        expect.len() > 0,
        expect[0] == Some(0usize),
    ensures
        sound(Seq::<RegOp>::empty(), expect, Seq::<SsaOp>::empty()),
{
    reveal(sound);
    assert forall|v: Seq<Term>, st: Run| #[trigger]
        sound_for(Seq::<RegOp>::empty(), expect, Seq::<SsaOp>::empty(), v, st) by {
        assert(Seq::<RegOp>::empty().reverse() =~= Seq::<RegOp>::empty());
        assert(st.log + Seq::<Event>::empty() =~= st.log);
    }
}

/// With one more place, of which nothing is expected, the emitted part is
/// as sound as before.
pub proof fn sound_with_room(out: Seq<RegOp>, expect: Seq<Option<usize>>, seen: Seq<SsaOp>)
    requires
        sound(out, expect, seen),
    ensures
        sound(out, expect.push(None), seen),
{
    reveal(sound);
    let wider = expect.push(None);
    assert forall|v: Seq<Term>, st: Run| #[trigger] sound_for(out, wider, seen, v, st) by {
        if consistent(seen, v) && st.slots.len() >= wider.len() && agrees(st.slots, wider, v) {
            assert forall|loc: int|
                0 <= loc < expect.len() && (#[trigger] expect[loc]) is Some implies st.slots[loc]
                == v[expect[loc]->Some_0 as int] by {
                assert(wider[loc] == expect[loc]);
            }
            assert(sound_for(out, expect, seen, v, st));
        }
    }
}

/// The step that an emitted operation adds runs first.
proof fn runs_first(out: Seq<RegOp>, x: RegOp, st: Run)
    ensures
        term_run(out.push(x).reverse(), st) == term_run(out.reverse(), term_step(x, st)),
{
    let next = out.push(x).reverse();
    assert(next.first() == x);
    assert(next.drop_first() =~= out.reverse());
    run_from_first(next, st);
}

/// A load of the register `r` from the memory slot `m` moves to `m` what
/// was expected in `r`.
pub proof fn sound_after_load(
    out: Seq<RegOp>,
    expect: Seq<Option<usize>>,
    seen: Seq<SsaOp>,
    x: RegOp,
)
    requires
        sound(out, expect, seen),
        x.code == OpCode::Load,
        x.out < expect.len(),
        x.slot < expect.len(),
        x.out != x.slot,
        expect[x.slot as int] is None,
    ensures
        sound(
            out.push(x),
            expect.update(x.out as int, None).update(x.slot as int, expect[x.out as int]),
            seen,
        ),
{
    reveal(sound);
    let after = expect.update(x.out as int, None).update(x.slot as int, expect[x.out as int]);
    assert forall|v: Seq<Term>, st: Run| #[trigger] sound_for(out.push(x), after, seen, v, st) by {
        if consistent(seen, v) && st.slots.len() >= after.len() && agrees(st.slots, after, v) {
            runs_first(out, x, st);
            let mid = term_step(x, st);
            assert forall|loc: int|
                0 <= loc < expect.len() && (#[trigger] expect[loc]) is Some implies mid.slots[loc]
                == v[expect[loc]->Some_0 as int] by {
                if loc == x.out {
                    assert(after[x.slot as int] == expect[loc]);
                } else {
                    assert(after[loc] == expect[loc]);
                }
            }
            assert(sound_for(out, expect, seen, v, mid));
        }
    }
}

/// A store of the register `r` to the memory slot `m` moves to `r` what was
/// expected in `m`.
pub proof fn sound_after_store(
    out: Seq<RegOp>,
    expect: Seq<Option<usize>>,
    seen: Seq<SsaOp>,
    x: RegOp,
)
    requires
        sound(out, expect, seen),
        x.code == OpCode::Store,
        x.lhs < expect.len(),
        x.slot < expect.len(),
        x.lhs != x.slot,
        expect[x.lhs as int] is None || expect[x.lhs as int] == expect[x.slot as int],
    ensures
        sound(
            out.push(x),
            expect.update(x.slot as int, None).update(x.lhs as int, expect[x.slot as int]),
            seen,
        ),
{
    reveal(sound);
    let after = expect.update(x.slot as int, None).update(x.lhs as int, expect[x.slot as int]);
    assert forall|v: Seq<Term>, st: Run| #[trigger] sound_for(out.push(x), after, seen, v, st) by {
        if consistent(seen, v) && st.slots.len() >= after.len() && agrees(st.slots, after, v) {
            runs_first(out, x, st);
            let mid = term_step(x, st);
            assert forall|loc: int|
                0 <= loc < expect.len() && (#[trigger] expect[loc]) is Some implies mid.slots[loc]
                == v[expect[loc]->Some_0 as int] by {
                if loc == x.slot || loc == x.lhs {
                    assert(after[x.lhs as int] == expect[x.slot as int]);
                } else {
                    assert(after[loc] == expect[loc]);
                }
            }
            assert(sound_for(out, expect, seen, v, mid));
        }
    }
}

/// What is expected before an operation on registers that stands for the
/// operation `o` on slots: nothing in the register of the result, and the
/// operands in their registers.
pub open spec fn expect_before(expect: Seq<Option<usize>>, o: SsaOp, x: RegOp) -> Seq<Option<usize>> {
    let cleared = expect.update(x.out as int, None);
    let one = if spec_arity(o.code) >= 1 {
        cleared.update(x.lhs as int, Some(o.lhs))
    } else {
        cleared
    };
    if spec_arity(o.code) >= 2 {
        one.update(x.rhs as int, Some(o.rhs))
    } else {
        one
    }
}

/// Whether the register `r` can be made to hold the slot `s` before an
/// operation that writes the register `out`: nothing else is expected in it
/// afterwards.
pub open spec fn free_for(expect: Seq<Option<usize>>, out: u8, r: u8, s: usize) -> bool {
    r < expect.len() && (r == out || expect[r as int] is None || expect[r as int] == Some(s))
}

/// An operation that writes the register in which its result is expected,
/// or in which nothing is, and that reads the registers of its operands,
/// leaves its operands expected in those registers.
pub proof fn sound_after_op(
    out: Seq<RegOp>,
    expect: Seq<Option<usize>>,
    seen: Seq<SsaOp>,
    o: SsaOp,
    x: RegOp,
)
    requires
        sound(out, expect, seen),
        !spec_is_transfer(o.code),
        x.code == o.code && x.imm == o.imm && x.choice == o.choice,
        o.out == seen.len(),
        x.out < expect.len(),
        expect[x.out as int] is None || expect[x.out as int] == Some(o.out),
        spec_arity(o.code) >= 1 ==> free_for(expect, x.out, x.lhs, o.lhs),
        spec_arity(o.code) >= 2 ==> free_for(expect, x.out, x.rhs, o.rhs),
        spec_arity(o.code) >= 2 && x.lhs == x.rhs ==> o.lhs == o.rhs,
    ensures
        sound(out.push(x), expect_before(expect, o, x), seen.push(o)),
{
    reveal(sound);
    let after = expect_before(expect, o, x);
    let more = seen.push(o);
    assert forall|v: Seq<Term>, st: Run| #[trigger] sound_for(out.push(x), after, more, v, st) by {
        if consistent(more, v) && st.slots.len() >= after.len() && agrees(st.slots, after, v) {
            runs_first(out, x, st);
            let mid = term_step(x, st);
            assert(more.drop_last() =~= seen);
            assert(more.last() == o);
            assert forall|i: int| 0 <= i < seen.len() implies #[trigger] v[i] == made(
                seen[i].code,
                seen[i].imm,
                seen[i].choice,
                v[seen[i].lhs as int],
                v[seen[i].rhs as int],
            ) by {
                assert(more[i] == seen[i]);
            }
            assert(v[o.out as int] == made(
                o.code,
                o.imm,
                o.choice,
                v[o.lhs as int],
                v[o.rhs as int],
            )) by {
                assert(more[seen.len() as int] == o);
            }
            if spec_arity(o.code) >= 1 {
                assert(after[x.lhs as int] == Some(o.lhs));
            }
            if spec_arity(o.code) >= 2 {
                assert(after[x.rhs as int] == Some(o.rhs));
            }
            assert(mid.slots[x.out as int] == v[o.out as int]);
            assert forall|loc: int|
                0 <= loc < expect.len() && (#[trigger] expect[loc]) is Some implies mid.slots[loc]
                == v[expect[loc]->Some_0 as int] by {
                if loc != x.out {
                    assert(after[loc] is Some);
                    assert(after[loc] == expect[loc]);
                }
            }
            assert(sound_for(out, expect, seen, v, mid));
            let end = term_run(out.reverse(), mid);
            if spec_is_choice(o.code) {
                let e = met(o.code, o.imm, o.choice, v[o.lhs as int], v[o.rhs as int]);
                assert(mid.log == st.log.push(e));
                assert(st.log.push(e) + seen_events(seen, v) =~= st.log + (seq![e] + seen_events(
                    seen,
                    v,
                )));
            }
        }
    }
}

/// Whether a tape on registers does, in the state `st` and for the terms
/// `v` of the slots, what the operations `seen` say: from slots that hold
/// anything, it leaves the term of the root in register 0 and adds the
/// choices of the operations to the log.
pub open spec fn computes(
    ops: Seq<RegOp>,
    seen: Seq<SsaOp>,
    slots: int,
    v: Seq<Term>,
    st: Run,
) -> bool {
    consistent(seen, v) && st.slots.len() >= slots ==> {
        let end = term_run(ops, st);
        &&& end.slots.len() == st.slots.len()
        &&& end.slots[0] == v[0]
        &&& end.log == st.log + seen_events(seen, v)
    }
}

/// Whether a tape on registers computes what the operations `seen` say,
/// whatever its slots hold at first.
pub open spec fn computes_all(ops: Seq<RegOp>, seen: Seq<SsaOp>, slots: int) -> bool {
    forall|v: Seq<Term>, st: Run| #[trigger] computes(ops, seen, slots, v, st)
}

/// What a sound tape does once the allocator has taken every operation and
/// nothing is expected any more.
pub proof fn sound_at_end(out: Seq<RegOp>, expect: Seq<Option<usize>>, seen: Seq<SsaOp>)
    requires
        sound(out, expect, seen),
        forall|loc: int| 0 <= loc < expect.len() ==> (#[trigger] expect[loc]) is None,
    ensures
        computes_all(out.reverse(), seen, expect.len() as int),
{
    reveal(sound);
    assert forall|v: Seq<Term>, st: Run| #[trigger]
        computes(out.reverse(), seen, expect.len() as int, v, st) by {
        assert(sound_for(out, expect, seen, v, st));
    }
}

/// The terms of the slots of a tape satisfy its operations.
pub proof fn slot_terms_are_consistent(ops: Seq<SsaOp>)
    requires
        ssa_ok(ops),
    ensures
        consistent(ops, slot_terms(ops)),
{
    let v = slot_terms(ops);
    assert forall|i: int| 0 <= i < ops.len() implies #[trigger] v[i] == made(
        ops[i].code,
        ops[i].imm,
        ops[i].choice,
        v[ops[i].lhs as int],
        v[ops[i].rhs as int],
    ) by {
        assert(ssa_op_ok(ops[i], i, ops.len() as int));
    }
}

/// The log of the first `k` operations, taken root first, after the log of
/// the others is the log of all.
proof fn events_split(ops: Seq<SsaOp>, k: int)
    requires
        ssa_ok(ops),
        0 <= k <= ops.len(),
    ensures
        slot_events(ops, k) + seen_events(ops.take(k), slot_terms(ops)) == slot_events(ops, 0),
    decreases k,
{
    let v = slot_terms(ops);
    if k == 0 {
        assert(ops.take(0) =~= Seq::<SsaOp>::empty());
        assert(slot_events(ops, 0) + Seq::<Event>::empty() =~= slot_events(ops, 0));
    } else {
        events_split(ops, k - 1);
        let o = ops[k - 1];
        assert(ssa_op_ok(o, k - 1, ops.len() as int));
        assert(ops.take(k).drop_last() =~= ops.take(k - 1));
        assert(ops.take(k).last() == o);
        let rest = seen_events(ops.take(k - 1), v);
        if spec_is_choice(o.code) {
            let e = met(o.code, o.imm, o.choice, v[o.lhs as int], v[o.rhs as int]);
            assert(e == met(
                o.code,
                o.imm,
                o.choice,
                slot_term(ops, o.lhs as int),
                slot_term(ops, o.rhs as int),
            ));
            assert(slot_events(ops, k) + (seq![e] + rest) =~= slot_events(ops, k).push(e) + rest);
        }
    }
}

/// A tape on registers that computes what all operations of a tape on
/// symbolic slots say is faithful to that tape.
pub proof fn computes_is_faithful(ssa: Seq<SsaOp>, ops: Seq<RegOp>, slots: int)
    requires
        ssa_ok(ssa),
        ssa.len() > 0,
        computes_all(ops, ssa, slots),
    ensures
        faithful(ssa, ops, slots),
{
    let v = slot_terms(ssa);
    slot_terms_are_consistent(ssa);
    events_split(ssa, ssa.len() as int);
    assert(ssa.take(ssa.len() as int) =~= ssa);
    assert(slot_events(ssa, ssa.len() as int) =~= Seq::<Event>::empty());
    assert(Seq::<Event>::empty() + seen_events(ssa, v) =~= seen_events(ssa, v));
    assert forall|st: Run| st.slots.len() >= slots implies (#[trigger] term_run(
        ops,
        st,
    )).slots[0] == slot_term(ssa, 0) && term_run(ops, st).log == st.log + slot_events(ssa, 0)
        && term_run(ops, st).slots.len() == st.slots.len() by {
        assert(computes(ops, ssa, slots, v, st));
    }
}

} // verus!
