//! What holds of evaluation and specialisation together.
//!
//! The choices that an interval evaluation records on a region, into bytes
//! that recorded nothing before, hold on that region; so the tape that is
//! specialised by them has, on that region, the interval of the tape that
//! it was made from.  In a tape, operations that share a choice have the
//! same term, and so the same outcome; so an evaluation of the specialised
//! tape on the same region records no choice that one operand alone
//! decides, and to specialise it again gains nothing.
//!
//! On a region that holds one point alone, an interval evaluation gives the
//! value at that point, as long as no operation meets one of the few
//! operands on which an interval and a value part ways.  A specialised tape
//! keeps only choices of which both operands were recorded.

use crate::choice::{choice_of, joined, with_choice, Choice};
use crate::error::Error;
use crate::interval::{
    chosen_of_term, eval_interval, interval_of, interval_replay, interval_value, is_empty,
    marked_on, single, Interval,
};
use crate::op::{spec_arity, spec_is_choice, ssa_ok, ssa_op_ok, OpCode, SsaOp};
use crate::point::{blank_choices, lacks_var, point_of};
use crate::scalar::{less, sign_set, SIGN, ZERO};
use crate::simplify::{
    any_decided, coherent, decided_below, hold_on_region, one_sided, simplified,
    simplified_choices, specialised_interval_is_same, two_slots, verdict,
};
use crate::simplify::simplify;
use crate::tape::{ssa_choices_ok, Tape};
use crate::term::{made, met, slot_events, slot_term, Event, Term};
use vstd::prelude::*;

verus! {

/// Whether what is recorded covers the outcome `c` of one choice: marking
/// `c` as well changes nothing.
pub open spec fn covers(recorded: Choice, c: Choice) -> bool {
    joined(recorded, c) == recorded
}

/// The outcome of the choice of an event on a region.
pub open spec fn outcome(e: Event, x: Interval, y: Interval, z: Interval, vars: Seq<u32>) -> Choice {
    chosen_of_term(
        e.code,
        e.imm,
        interval_of(e.left, x, y, z, vars),
        interval_of(e.right, x, y, z, vars),
    ).choice
}

/// A byte records the choice that was put into it.
pub proof fn byte_records(byte: u8, c: Choice)
    ensures
        choice_of(with_choice(byte, c)) == c,
{
}

/// What is recorded after a log covers the outcome of every choice of the
/// log.
pub proof fn replay_covers(
    log: Seq<Event>,
    choices: Seq<u8>,
    x: Interval,
    y: Interval,
    z: Interval,
    vars: Seq<u32>,
    e: int,
)
    requires
        0 <= e < log.len(),
        forall|i: int| 0 <= i < log.len() ==> (#[trigger] log[i]).choice < choices.len(),
    ensures
        interval_replay(log, choices, x, y, z, vars).0.len() == choices.len(),
        covers(
            choice_of(interval_replay(log, choices, x, y, z, vars).0[log[e].choice as int]),
            outcome(log[e], x, y, z, vars),
        ),
    decreases log.len(),
{
    let before = interval_replay(log.drop_last(), choices, x, y, z, vars);
    replay_keeps_length(log.drop_last(), choices, x, y, z, vars);
    let last = log.last();
    let byte = before.0[last.choice as int];
    byte_records(byte, joined(choice_of(byte), outcome(last, x, y, z, vars)));
    if e < log.len() - 1 {
        assert(log.drop_last()[e] == log[e]);
        replay_covers(log.drop_last(), choices, x, y, z, vars, e);
    }
}

/// Marking choices does not change the number of the bytes.
pub proof fn replay_keeps_length(
    log: Seq<Event>,
    choices: Seq<u8>,
    x: Interval,
    y: Interval,
    z: Interval,
    vars: Seq<u32>,
)
    requires
        forall|i: int| 0 <= i < log.len() ==> (#[trigger] log[i]).choice < choices.len(),
    ensures
        interval_replay(log, choices, x, y, z, vars).0.len() == choices.len(),
    decreases log.len(),
{
    if log.len() > 0 {
        assert forall|i: int| 0 <= i < log.drop_last().len() implies (
        #[trigger] log.drop_last()[i]).choice < choices.len() by {
            assert(log.drop_last()[i] == log[i]);
        }
        replay_keeps_length(log.drop_last(), choices, x, y, z, vars);
    }
}

/// The event of a minimum or maximum is in the log of the tape.
pub proof fn event_of(ops: Seq<SsaOp>, i: int, lo: int) -> (e: int)
    requires
        0 <= lo <= i < ops.len(),
        spec_is_choice(ops[i].code),
    ensures
        0 <= e < slot_events(ops, lo).len(),
        slot_events(ops, lo)[e] == met(
            ops[i].code,
            ops[i].imm,
            ops[i].choice,
            slot_term(ops, ops[i].lhs as int),
            slot_term(ops, ops[i].rhs as int),
        ),
    decreases i - lo,
{
    if lo == i {
        slot_events(ops, lo).len() - 1
    } else {
        events_grow(ops, lo);
        let e = event_of(ops, i, lo + 1);
        e
    }
}

/// The log from a slot up starts with the log from the next slot up.
pub proof fn events_grow(ops: Seq<SsaOp>, lo: int)
    requires
        0 <= lo < ops.len(),
    ensures
        slot_events(ops, lo + 1).len() <= slot_events(ops, lo).len(),
        forall|e: int|
            0 <= e < slot_events(ops, lo + 1).len() ==> #[trigger] slot_events(ops, lo)[e]
                == slot_events(ops, lo + 1)[e],
{
}

/// Every event of the log of a tape has the choice of an operation of the
/// tape.
pub proof fn events_have_choices(ops: Seq<SsaOp>, count: int, lo: int)
    requires
        0 <= lo <= ops.len(),
        ssa_choices_ok(ops, count),
    ensures
        forall|e: int|
            0 <= e < slot_events(ops, lo).len() ==> (#[trigger] slot_events(ops, lo)[e]).choice
                < count,
    decreases ops.len() - lo,
{
    if lo < ops.len() {
        events_have_choices(ops, count, lo + 1);
        events_grow(ops, lo);
    }
}

/// The choices that an interval evaluation records on a region, into bytes
/// that recorded nothing, hold on that region.
pub proof fn recorded_choices_hold(
    ops: Seq<SsaOp>,
    count: int,
    x: Interval,
    y: Interval,
    z: Interval,
    vars: Seq<u32>,
)
    requires
        ssa_ok(ops),
        0 <= count,
        ssa_choices_ok(ops, count),
    ensures
        hold_on_region(
            ops,
            interval_replay(slot_events(ops, 0), blank_choices(count), x, y, z, vars).0,
            x,
            y,
            z,
            vars,
        ),
{
    let log = slot_events(ops, 0);
    let blank = blank_choices(count);
    let recorded = interval_replay(log, blank, x, y, z, vars).0;
    events_have_choices(ops, count, 0);
    replay_keeps_length(log, blank, x, y, z, vars);
    assert forall|i: int| 0 <= i < ops.len() implies match #[trigger] verdict(ops[i], recorded) {
        Choice::Left => interval_of(slot_term(ops, i), x, y, z, vars) == interval_of(
            slot_term(ops, ops[i].lhs as int),
            x,
            y,
            z,
            vars,
        ),
        Choice::Right => interval_of(slot_term(ops, i), x, y, z, vars) == (if two_slots(
            ops[i].code,
        ) {
            interval_of(slot_term(ops, ops[i].rhs as int), x, y, z, vars)
        } else {
            crate::simplify::interval_made(x, y, z, vars)(
                crate::op::OpCode::CopyImm,
                ops[i].imm,
                interval_of(Term::Blank, x, y, z, vars),
                interval_of(Term::Blank, x, y, z, vars),
            )
        }),
        _ => true,
    } by {
        let op = ops[i];
        if verdict(op, recorded) != Choice::Both {
            assert(ssa_op_ok(op, i, ops.len() as int));
            let e = event_of(ops, i, 0);
            replay_covers(log, blank, x, y, z, vars, e);
            assert(outcome(log[e], x, y, z, vars) == verdict(op, recorded));
        }
    }
}

/// The tape that is specialised by the choices that an interval evaluation
/// recorded on a region, into bytes that recorded nothing, has on that
/// region the interval of the tape that it was made from.
pub proof fn specialised_keeps_interval(
    ops: Seq<SsaOp>,
    count: int,
    x: Interval,
    y: Interval,
    z: Interval,
    vars: Seq<u32>,
)
    requires
        ssa_ok(ops),
        0 < ops.len() <= usize::MAX,
        0 <= count,
        ssa_choices_ok(ops, count),
    ensures
        interval_of(
            slot_term(
                simplified(
                    ops,
                    interval_replay(slot_events(ops, 0), blank_choices(count), x, y, z, vars).0,
                ),
                0,
            ),
            x,
            y,
            z,
            vars,
        ) == interval_of(slot_term(ops, 0), x, y, z, vars),
{
    recorded_choices_hold(ops, count, x, y, z, vars);
    specialised_interval_is_same(
        ops,
        interval_replay(slot_events(ops, 0), blank_choices(count), x, y, z, vars).0,
        x,
        y,
        z,
        vars,
    );
}

/// The operation of an event of the log of a tape.
pub proof fn op_of(ops: Seq<SsaOp>, e: int, lo: int) -> (i: int)
    requires
        0 <= lo <= ops.len(),
        0 <= e < slot_events(ops, lo).len(),
    ensures
        lo <= i < ops.len(),
        spec_is_choice(ops[i].code),
        slot_events(ops, lo)[e] == met(
            ops[i].code,
            ops[i].imm,
            ops[i].choice,
            slot_term(ops, ops[i].lhs as int),
            slot_term(ops, ops[i].rhs as int),
        ),
    decreases ops.len() - lo,
{
    if spec_is_choice(ops[lo].code) && e == slot_events(ops, lo).len() - 1 {
        lo
    } else {
        op_of(ops, e, lo + 1)
    }
}

/// In a coherent tape, the choices of two operations that share a choice
/// have the same outcome.
pub proof fn shared_choice_same_outcome(
    ops: Seq<SsaOp>,
    i: int,
    j: int,
    x: Interval,
    y: Interval,
    z: Interval,
    vars: Seq<u32>,
)
    requires
        ssa_ok(ops),
        coherent(ops),
        0 <= i < ops.len(),
        0 <= j < ops.len(),
        spec_is_choice(ops[i].code),
        spec_is_choice(ops[j].code),
        ops[i].choice == ops[j].choice,
    ensures
        op_outcome(ops, i, x, y, z, vars) == op_outcome(ops, j, x, y, z, vars),
{
    assert(ssa_op_ok(ops[i], i, ops.len() as int));
    assert(ssa_op_ok(ops[j], j, ops.len() as int));
    assert(slot_term(ops, i) == slot_term(ops, j));
}

/// The outcome of the choice of an operation on a region.
pub open spec fn op_outcome(
    ops: Seq<SsaOp>,
    i: int,
    x: Interval,
    y: Interval,
    z: Interval,
    vars: Seq<u32>,
) -> Choice {
    outcome(
        met(
            ops[i].code,
            ops[i].imm,
            ops[i].choice,
            slot_term(ops, ops[i].lhs as int),
            slot_term(ops, ops[i].rhs as int),
        ),
        x,
        y,
        z,
        vars,
    )
}

/// Where every choice of a log with the index `k` has the outcome `c`, what
/// is recorded for `k`, into a byte that recorded nothing, is nothing or
/// `c`.
pub proof fn uniform_is_recorded(
    log: Seq<Event>,
    count: int,
    x: Interval,
    y: Interval,
    z: Interval,
    vars: Seq<u32>,
    k: int,
    c: Choice,
)
    requires
        0 <= k < count,
        forall|i: int| 0 <= i < log.len() ==> (#[trigger] log[i]).choice < count,
        forall|i: int|
            0 <= i < log.len() && (#[trigger] log[i]).choice == k ==> outcome(log[i], x, y, z, vars)
                == c,
    ensures
        choice_of(interval_replay(log, blank_choices(count), x, y, z, vars).0[k])
            == Choice::Unknown || choice_of(
            interval_replay(log, blank_choices(count), x, y, z, vars).0[k],
        ) == c,
    decreases log.len(),
{
    if log.len() > 0 {
        let rest = log.drop_last();
        assert forall|i: int| 0 <= i < rest.len() implies (#[trigger] rest[i]).choice < count by {
            assert(rest[i] == log[i]);
        }
        assert forall|i: int|
            0 <= i < rest.len() && (#[trigger] rest[i]).choice == k implies outcome(
            rest[i],
            x,
            y,
            z,
            vars,
        ) == c by {
            assert(rest[i] == log[i]);
        }
        uniform_is_recorded(rest, count, x, y, z, vars, k, c);
        replay_keeps_length(rest, blank_choices(count), x, y, z, vars);
        let before = interval_replay(rest, blank_choices(count), x, y, z, vars);
        let last = log.last();
        let byte = before.0[last.choice as int];
        byte_records(byte, joined(choice_of(byte), outcome(last, x, y, z, vars)));
    }
}

/// What is recorded for an index, into a byte that recorded nothing, is
/// nothing unless the log has a choice with that index.
pub proof fn recorded_has_event(
    log: Seq<Event>,
    count: int,
    x: Interval,
    y: Interval,
    z: Interval,
    vars: Seq<u32>,
    k: int,
) -> (e: int)
    requires
        0 <= k < count,
        forall|i: int| 0 <= i < log.len() ==> (#[trigger] log[i]).choice < count,
        choice_of(interval_replay(log, blank_choices(count), x, y, z, vars).0[k])
            != Choice::Unknown,
    ensures
        0 <= e < log.len(),
        log[e].choice == k,
    decreases log.len(),
{
    if log.len() == 0 {
        0
    } else if log.last().choice == k {
        log.len() - 1
    } else {
        let rest = log.drop_last();
        assert forall|i: int| 0 <= i < rest.len() implies (#[trigger] rest[i]).choice < count by {
            assert(rest[i] == log[i]);
        }
        replay_keeps_length(rest, blank_choices(count), x, y, z, vars);
        let e = recorded_has_event(rest, count, x, y, z, vars, k);
        assert(rest[e] == log[e]);
        e
    }
}

/// A byte that is decided among the first `count` bytes.
pub proof fn decided_byte(choices: Seq<u8>, count: int) -> (k: int)
    requires
        decided_below(choices, count),
    ensures
        0 <= k < count,
        one_sided(choices[k]),
    decreases count,
{
    if one_sided(choices[count - 1]) {
        count - 1
    } else {
        decided_byte(choices, count - 1)
    }
}

/// In the tape that is specialised by the choices recorded on a region, a
/// minimum or maximum has on that region the outcome that it had in the
/// tape that it was made from, and that outcome is that both operands can
/// give the value.
pub proof fn kept_choice_is_open(
    ops: Seq<SsaOp>,
    count: int,
    x: Interval,
    y: Interval,
    z: Interval,
    vars: Seq<u32>,
    n: int,
)
    requires
        ssa_ok(ops),
        0 < ops.len() <= usize::MAX,
        0 <= count,
        ssa_choices_ok(ops, count),
        coherent(ops),
        0 <= n < simplified(ops, recorded_on(ops, count, x, y, z, vars)).len(),
        spec_is_choice(simplified(ops, recorded_on(ops, count, x, y, z, vars))[n].code),
    ensures
        op_outcome(simplified(ops, recorded_on(ops, count, x, y, z, vars)), n, x, y, z, vars)
            == Choice::Both,
{
    let log = slot_events(ops, 0);
    let blank = blank_choices(count);
    let c1 = recorded_on(ops, count, x, y, z, vars);
    let new = simplified(ops, c1);
    let len = ops.len() as int;
    let ev = |t: Term| interval_of(t, x, y, z, vars);
    let f = crate::simplify::interval_made(x, y, z, vars);
    events_have_choices(ops, count, 0);
    replay_keeps_length(log, blank, x, y, z, vars);
    recorded_choices_hold(ops, count, x, y, z, vars);
    assert(crate::simplify::by_operands(ev, f)) by {
        assert forall|code: crate::op::OpCode, imm: u32, choice: usize, a: Term, b: Term|
            #[trigger] ev(Term::Node(code, imm, choice, Box::new(a), Box::new(b))) == f(
                code,
                imm,
                ev(a),
                ev(b),
            ) by {}
    }
    let j = crate::simplify::origin(ops, c1, len, n);
    let r = crate::simplify::rewritten(ops, c1, j);
    let op = ops[j];
    crate::simplify::rewritten_reads(ops, c1, j);
    crate::simplify::target_range(ops, c1, j);
    assert(ssa_op_ok(op, j, len));
    assert(verdict(op, c1) == Choice::Both);
    // the operands have in the new tape the intervals that they had
    let t = r.lhs as int;
    crate::simplify::needed_from(ops, c1, t, j, t - 1);
    crate::simplify::kept_has_value(ops, c1, ev, f, t);
    crate::simplify::target_has_value(ops, c1, ev, f, op.lhs as int);
    crate::simplify::target_range(ops, c1, op.lhs as int);
    crate::simplify::rank_is_below(ops, c1, t);
    assert(new[n].lhs == crate::simplify::rank(ops, c1, t));
    assert(ev(slot_term(new, new[n].lhs as int)) == ev(slot_term(ops, op.lhs as int)));
    if crate::op::spec_arity(r.code) >= 2 {
        let u = r.rhs as int;
        crate::simplify::needed_from(ops, c1, u, j, u - 1);
        crate::simplify::kept_has_value(ops, c1, ev, f, u);
        crate::simplify::target_has_value(ops, c1, ev, f, op.rhs as int);
        crate::simplify::target_range(ops, c1, op.rhs as int);
        crate::simplify::rank_is_below(ops, c1, u);
        assert(new[n].rhs == crate::simplify::rank(ops, c1, u));
        assert(ev(slot_term(new, new[n].rhs as int)) == ev(slot_term(ops, op.rhs as int)));
    }
    assert(op_outcome(new, n, x, y, z, vars) == op_outcome(ops, j, x, y, z, vars));
    // in the old tape every choice with this index had this outcome
    let c = op_outcome(ops, j, x, y, z, vars);
    let k = op.choice as int;
    assert forall|i: int| 0 <= i < log.len() && (#[trigger] log[i]).choice == k implies outcome(
        log[i],
        x,
        y,
        z,
        vars,
    ) == c by {
        let i2 = op_of(ops, i, 0);
        shared_choice_same_outcome(ops, i2, j, x, y, z, vars);
    }
    uniform_is_recorded(log, count, x, y, z, vars, k, c);
    let e = event_of(ops, j, 0);
    replay_covers(log, blank, x, y, z, vars, e);
}

/// Marking a log in which both operands can give the value of every choice
/// reports that no operand alone decided.
pub proof fn open_log_is_unflagged(
    log: Seq<Event>,
    choices: Seq<u8>,
    x: Interval,
    y: Interval,
    z: Interval,
    vars: Seq<u32>,
)
    requires
        forall|i: int|
            0 <= i < log.len() ==> outcome(#[trigger] log[i], x, y, z, vars) == Choice::Both,
    ensures
        !interval_replay(log, choices, x, y, z, vars).1,
    decreases log.len(),
{
    if log.len() > 0 {
        let rest = log.drop_last();
        assert forall|i: int| 0 <= i < rest.len() implies outcome(
            #[trigger] rest[i],
            x,
            y,
            z,
            vars,
        ) == Choice::Both by {
            assert(rest[i] == log[i]);
        }
        open_log_is_unflagged(rest, choices, x, y, z, vars);
        assert(outcome(log[log.len() - 1], x, y, z, vars) == Choice::Both);
    }
}

/// The choice bytes after an interval evaluation on a region, into bytes
/// that recorded nothing.
pub open spec fn recorded_on(
    ops: Seq<SsaOp>,
    count: int,
    x: Interval,
    y: Interval,
    z: Interval,
    vars: Seq<u32>,
) -> Seq<u8> {
    interval_replay(slot_events(ops, 0), blank_choices(count), x, y, z, vars).0
}

/// Specialising twice gains nothing.  Let a coherent tape be specialised by
/// the choices that an interval evaluation recorded on a region.  Then an
/// interval evaluation of the new tape on the same region, into bytes that
/// recorded nothing, records for every choice of the new tape that both
/// operands can give the value, and reports that no operand alone decided;
/// so the new tape is not specialised again.
pub proof fn respecialising_gains_nothing(
    ops: Seq<SsaOp>,
    count: int,
    x: Interval,
    y: Interval,
    z: Interval,
    vars: Seq<u32>,
)
    requires
        ssa_ok(ops),
        0 < ops.len() <= usize::MAX,
        0 <= count,
        ssa_choices_ok(ops, count),
        coherent(ops),
    ensures
        recorded_on(
            simplified(ops, recorded_on(ops, count, x, y, z, vars)),
            simplified_choices(ops, recorded_on(ops, count, x, y, z, vars)) as int,
            x,
            y,
            z,
            vars,
        ).len() == simplified_choices(ops, recorded_on(ops, count, x, y, z, vars)),
        forall|k: int|
            0 <= k < simplified_choices(ops, recorded_on(ops, count, x, y, z, vars)) ==> choice_of(
                #[trigger] recorded_on(
                    simplified(ops, recorded_on(ops, count, x, y, z, vars)),
                    simplified_choices(ops, recorded_on(ops, count, x, y, z, vars)) as int,
                    x,
                    y,
                    z,
                    vars,
                )[k],
            ) == Choice::Both,
        !interval_replay(
            slot_events(simplified(ops, recorded_on(ops, count, x, y, z, vars)), 0),
            blank_choices(simplified_choices(ops, recorded_on(ops, count, x, y, z, vars)) as int),
            x,
            y,
            z,
            vars,
        ).1,
        !any_decided(
            recorded_on(
                simplified(ops, recorded_on(ops, count, x, y, z, vars)),
                simplified_choices(ops, recorded_on(ops, count, x, y, z, vars)) as int,
                x,
                y,
                z,
                vars,
            ),
        ),
{
    let c1 = recorded_on(ops, count, x, y, z, vars);
    let new = simplified(ops, c1);
    let left = simplified_choices(ops, c1) as int;
    let len = ops.len() as int;
    let log = slot_events(new, 0);
    let blank = blank_choices(left);
    let c2 = recorded_on(new, left, x, y, z, vars);
    events_have_choices(ops, count, 0);
    replay_keeps_length(slot_events(ops, 0), blank_choices(count), x, y, z, vars);
    crate::simplify::simplified_is_ok(ops, c1);
    events_have_choices(new, left, 0);
    replay_keeps_length(log, blank, x, y, z, vars);
    assert forall|e: int| 0 <= e < log.len() implies outcome(#[trigger] log[e], x, y, z, vars)
        == Choice::Both by {
        let n = op_of(new, e, 0);
        kept_choice_is_open(ops, count, x, y, z, vars, n);
    }
    open_log_is_unflagged(log, blank, x, y, z, vars);
    assert forall|k: int| 0 <= k < left implies choice_of(#[trigger] c2[k]) == Choice::Both by {
        let k0 = crate::simplify::ranked_choice(ops, c1, c1.len() as int, k);
        let i = crate::simplify::used_choice_op(ops, c1, k0, len);
        crate::simplify::kept_at(ops, c1, i, len);
        crate::simplify::choices_do_not_grow(ops, c1, k0);
        let n = crate::simplify::rank(ops, c1, i) as int;
        assert(new[n].choice == k);
        let e = event_of(new, n, 0);
        kept_choice_is_open(ops, count, x, y, z, vars, n);
        replay_covers(log, blank, x, y, z, vars, e);
    }
    if any_decided(c2) {
        let k = decided_byte(c2, c2.len() as int);
    }
}

/// The tape of an expression is coherent: operations that share a choice
/// are operations of the same node.
pub proof fn compiled_is_coherent(
    ops: Seq<crate::context::Op>,
    root: int,
    s: crate::plan::Schedule,
    t: crate::ssa::SsaTape,
)
    requires
        crate::context::is_dag(ops),
        0 <= root < ops.len() <= usize::MAX,
        crate::ssa::tape_of(ops, root, s, t),
        s.choice_id@ == crate::plan::choice_table(ops, root),
    ensures
        coherent(t.ops@),
{
    assert forall|i: int, j: int|
        0 <= i < t.ops@.len() && 0 <= j < t.ops@.len() && spec_is_choice(t.ops@[i].code)
            && spec_is_choice(t.ops@[j].code) && t.ops@[i].choice
            == t.ops@[j].choice implies #[trigger] slot_term(t.ops@, i) == #[trigger] slot_term(
        t.ops@,
        j,
    ) by {
        let p = t.nodes[i].0 as int;
        let q = t.nodes[j].0 as int;
        assert(crate::ssa::encodes(ops, s.choice_id@, t.nodes@, i, t.ops[i]));
        assert(crate::ssa::encodes(ops, s.choice_id@, t.nodes@, j, t.ops[j]));
        assert(t.nodes[i].0 < ops.len() && t.nodes[j].0 < ops.len());
        assert(crate::context::is_choice(ops[p]));
        assert(crate::context::is_choice(ops[q]));
        assert(crate::schedule::choice_index(ops, root, p) == Some(t.ops[i].choice));
        assert(crate::schedule::choice_index(ops, root, q) == Some(t.ops[j].choice));
        if p != q {
            crate::schedule::choice_indices_are_unique(ops, root, p, q);
        }
        crate::ssa::slot_is_node(ops, root, s, t, i);
        crate::ssa::slot_is_node(ops, root, s, t, j);
    }
}

/// Evaluates the tape on the region `x × y × z`, into choice bytes that
/// record nothing, and specialises it by the choices.  Returns the interval
/// of the tape on the region, and the specialised tape if one operand alone
/// decided some choice.  That tape has the same interval on the region, and
/// on the region none of its choices is decided by one operand alone: an
/// interval evaluation of it on the region, into bytes that record nothing,
/// records both operands for every choice and reports that none was
/// decided, so that to specialise it again for the same region gains
/// nothing.  Fails with
/// `VarBindingMissing` if the tape reads a variable that `vars` does not
/// supply.
pub fn specialise(tape: &Tape, x: Interval, y: Interval, z: Interval, vars: &Vec<u32>) -> (r: Result<
    (Interval, Option<Tape>),
    Error,
>)
    ensures
        r is Err <==> lacks_var(tape@, vars.len() as int),
        r is Err ==> r->Err_0 == Error::VarBindingMissing,
        r is Ok ==> r->Ok_0.0 == interval_value(tape, x, y, z, vars@),
        r is Ok ==> (r->Ok_0.1 is Some <==> any_decided(
            marked_on(tape.ssa_view(), blank_choices(tape.choices()), x, y, z, vars@).0,
        )),
        r is Ok && r->Ok_0.1 is Some ==> r->Ok_0.1->Some_0.ssa_view() == simplified(
            tape.ssa_view(),
            marked_on(tape.ssa_view(), blank_choices(tape.choices()), x, y, z, vars@).0,
        ) && r->Ok_0.1->Some_0.limit() == tape.limit() && interval_value(
            &r->Ok_0.1->Some_0,
            x,
            y,
            z,
            vars@,
        ) == r->Ok_0.0 && !any_decided(
            marked_on(
                r->Ok_0.1->Some_0.ssa_view(),
                blank_choices(r->Ok_0.1->Some_0.choices()),
                x,
                y,
                z,
                vars@,
            ).0,
        ),
        r is Ok && r->Ok_0.1 is Some ==> !marked_on(
            r->Ok_0.1->Some_0.ssa_view(),
            blank_choices(r->Ok_0.1->Some_0.choices()),
            x,
            y,
            z,
            vars@,
        ).1,
        r is Ok && r->Ok_0.1 is Some ==> forall|k: int|
            0 <= k < r->Ok_0.1->Some_0.choices() ==> choice_of(
                #[trigger] marked_on(
                    r->Ok_0.1->Some_0.ssa_view(),
                    blank_choices(r->Ok_0.1->Some_0.choices()),
                    x,
                    y,
                    z,
                    vars@,
                ).0[k],
            ) == Choice::Both,
{
    let total = tape.choice_count();
    let mut choices: Vec<u8> = Vec::new();
    let mut c: usize = 0;
    while c < total
        invariant
            c <= total,
            choices.len() == c,
            forall|k: int| 0 <= k < c ==> choices[k] == 0,
        decreases total - c,
    {
        choices.push(0);
        c = c + 1;
    }
    assert(choices@ =~= blank_choices(tape.choices()));
    let i = match eval_interval(tape, x, y, z, vars, &mut choices) {
        Ok((i, _)) => i,
        Err(e) => {
            return Err(e);
        },
    };
    tape.well_formed();
    proof {
        if !(is_empty(x) || is_empty(y) || is_empty(z)) {
            specialised_keeps_interval(tape.ssa_view(), tape.choices(), x, y, z, vars@);
            respecialising_gains_nothing(tape.ssa_view(), tape.choices(), x, y, z, vars@);
        } else {
            blank_is_undecided(tape.choices(), tape.choices());
        }
    }
    let special = simplify(tape, &choices);
    Ok((i, special))
}

/// Bytes that record nothing record no decided choice.
pub proof fn blank_is_undecided(count: int, upto: int)
    requires
        0 <= upto <= count,
    ensures
        !decided_below(blank_choices(count), upto),
    decreases upto,
{
    if upto > 0 {
        blank_is_undecided(count, upto - 1);
    }
}

/// A tape is determined by its operations on symbolic slots and the number
/// of its registers: two tapes that agree in these have the same operations
/// on registers and the same number of slots.  Of each tape the law takes
/// what `well_formed` gives of every tape.
pub proof fn same_operations_same_tape(a: &Tape, b: &Tape)
    requires
        a.limit() <= u8::MAX,
        a@ == crate::policy::allocated_ops(a.ssa_view(), a.limit() as u8),
        a.slots() == crate::policy::allocated_slots(a.ssa_view(), a.limit() as u8),
        b@ == crate::policy::allocated_ops(b.ssa_view(), b.limit() as u8),
        b.slots() == crate::policy::allocated_slots(b.ssa_view(), b.limit() as u8),
        a.ssa_view() == b.ssa_view(),
        a.limit() == b.limit(),
    ensures
        a@ == b@,
        a.slots() == b.slots(),
{
}

/// Whether an operation gives, on the intervals that hold the values `a` and
/// `b` of its operands alone, the interval that holds its own value alone.
/// That is so unless it divides by a zero or by a NaN, which leaves the
/// interval undefined and the value not, or takes the root of the negative
/// zero, or the absolute value of the negative zero or of a NaN with the
/// sign set, where the interval keeps a sign that the value has not.
pub open spec fn plain_at(code: OpCode, imm: u32, a: u32, b: u32) -> bool {
    match code {
        OpCode::AbsReg => !sign_set(a) || less(a, ZERO),
        OpCode::SqrtReg => a != SIGN,
        OpCode::RecipReg => less(ZERO, a) || less(a, ZERO),
        OpCode::DivRegReg => less(ZERO, b) || less(b, ZERO),
        OpCode::DivRegImm => less(ZERO, imm) || less(imm, ZERO),
        OpCode::DivImmReg => less(ZERO, a) || less(a, ZERO),
        _ => true,
    }
}

/// Whether every operation of a term is plain at the point `(x, y, z)`.
pub open spec fn plain_term(t: Term, x: u32, y: u32, z: u32, vars: Seq<u32>) -> bool
    decreases t,
{
    match t {
        Term::Blank => true,
        Term::Node(code, imm, _, a, b) => plain_term(*a, x, y, z, vars) && plain_term(
            *b,
            x,
            y,
            z,
            vars,
        ) && plain_at(code, imm, point_of(*a, x, y, z, vars), point_of(*b, x, y, z, vars)),
    }
}

/// On the region that holds one point alone, the interval of a term holds
/// the value of the term at that point alone, if every operation of the
/// term is plain there.
pub proof fn one_point_interval_of_term(t: Term, x: u32, y: u32, z: u32, vars: Seq<u32>)
    requires
        plain_term(t, x, y, z, vars),
    ensures
        interval_of(t, single(x), single(y), single(z), vars) == single(point_of(t, x, y, z, vars)),
    decreases t,
{
    match t {
        Term::Blank => {},
        Term::Node(code, imm, _, a, b) => {
            one_point_interval_of_term(*a, x, y, z, vars);
            one_point_interval_of_term(*b, x, y, z, vars);
            let pa = point_of(*a, x, y, z, vars);
            let pb = point_of(*b, x, y, z, vars);
            if spec_is_choice(code) {
                assert(chosen_of_term(code, imm, single(pa), single(pb)).value == single(
                    crate::point::choice_of_term(code, imm, pa, pb).value,
                ));
            } else {
                assert(crate::interval::plain_interval(
                    crate::point::shape(code, imm),
                    single(pa),
                    single(pb),
                    single(x),
                    single(y),
                    single(z),
                    vars,
                ) == single(
                    crate::point::plain_value(crate::point::shape(code, imm), pa, pb, x, y, z, vars),
                ));
            }
        },
    }
}

/// On the region that holds one point alone, an interval evaluation of a
/// tape gives the interval that holds the value of the tape at that point
/// alone, if every operation of the term of the root is plain there.
pub proof fn one_point_interval(tape: &Tape, x: u32, y: u32, z: u32, vars: Seq<u32>)
    requires
        plain_term(slot_term(tape.ssa_view(), 0), x, y, z, vars),
    ensures
        interval_value(tape, single(x), single(y), single(z), vars) == single(
            crate::point::point_value(tape, x, y, z, vars),
        ),
{
    one_point_interval_of_term(slot_term(tape.ssa_view(), 0), x, y, z, vars);
}

/// The choices of a specialised tape.  Let a tape be specialised by the
/// choices that an interval evaluation recorded on a region.  A choice that
/// the new tape still has is one for which both operands were recorded, so
/// the new tape has at most as many choices as there are such bytes; it has
/// exactly as many if every such choice is still the choice of an operation
/// of the new tape.  It has fewer where a choice of which both operands
/// were recorded belongs to an operand that another choice left out.
pub proof fn kept_choices_are_both(
    ops: Seq<SsaOp>,
    count: int,
    x: Interval,
    y: Interval,
    z: Interval,
    vars: Seq<u32>,
)
    requires
        ssa_ok(ops),
        0 < ops.len() <= usize::MAX,
        0 <= count,
        ssa_choices_ok(ops, count),
    ensures
        recorded_on(ops, count, x, y, z, vars).len() == count,
        forall|k: int|
            0 <= k < count && #[trigger] crate::simplify::choice_used(
                ops,
                recorded_on(ops, count, x, y, z, vars),
                k,
                ops.len() as int,
            ) ==> choice_of(recorded_on(ops, count, x, y, z, vars)[k]) == Choice::Both,
        simplified_choices(ops, recorded_on(ops, count, x, y, z, vars))
            <= crate::simplify::both_below(recorded_on(ops, count, x, y, z, vars), count),
        (forall|k: int|
            0 <= k < count && choice_of(recorded_on(ops, count, x, y, z, vars)[k]) == Choice::Both
                ==> #[trigger] crate::simplify::choice_used(
                ops,
                recorded_on(ops, count, x, y, z, vars),
                k,
                ops.len() as int,
            )) ==> simplified_choices(ops, recorded_on(ops, count, x, y, z, vars))
            == crate::simplify::both_below(recorded_on(ops, count, x, y, z, vars), count),
{
    let log = slot_events(ops, 0);
    let blank = blank_choices(count);
    let c1 = recorded_on(ops, count, x, y, z, vars);
    let len = ops.len() as int;
    events_have_choices(ops, count, 0);
    replay_keeps_length(log, blank, x, y, z, vars);
    assert forall|k: int|
        0 <= k < count && #[trigger] crate::simplify::choice_used(ops, c1, k, len) implies choice_of(
        c1[k],
    ) == Choice::Both by {
        let i = crate::simplify::used_choice_op(ops, c1, k, len);
        crate::simplify::rewritten_reads(ops, c1, i);
        crate::simplify::target_range(ops, c1, i);
        let op = ops[i];
        assert(ssa_op_ok(op, i, len));
        if spec_arity(op.code) >= 1 {
            crate::simplify::target_range(ops, c1, op.lhs as int);
        }
        if spec_arity(op.code) >= 2 {
            crate::simplify::target_range(ops, c1, op.rhs as int);
        }
        assert(verdict(op, c1) == Choice::Both);
        let e = event_of(ops, i, 0);
        replay_covers(log, blank, x, y, z, vars, e);
    }
    crate::simplify::choices_left_are_at_most_both(ops, c1, count);
    if forall|k: int|
        0 <= k < count && choice_of(c1[k]) == Choice::Both ==> #[trigger] crate::simplify::choice_used(
            ops,
            c1,
            k,
            len,
        ) {
        crate::simplify::choices_left_are_both(ops, c1, count);
    }
}

/// Specialising by the choices that an interval evaluation recorded on the
/// region that holds one point alone keeps the value at that point, if
/// every operation of the tape is plain there.
pub proof fn specialised_at_a_point(
    ops: Seq<SsaOp>,
    count: int,
    x: u32,
    y: u32,
    z: u32,
    vars: Seq<u32>,
)
    requires
        ssa_ok(ops),
        0 < ops.len() <= usize::MAX,
        0 <= count,
        ssa_choices_ok(ops, count),
        forall|i: int| 0 <= i < ops.len() ==> plain_term(#[trigger] slot_term(ops, i), x, y, z, vars),
    ensures
        point_of(
            slot_term(
                simplified(ops, recorded_on(ops, count, single(x), single(y), single(z), vars)),
                0,
            ),
            x,
            y,
            z,
            vars,
        ) == point_of(slot_term(ops, 0), x, y, z, vars),
{
    let c1 = recorded_on(ops, count, single(x), single(y), single(z), vars);
    recorded_choices_hold(ops, count, single(x), single(y), single(z), vars);
    assert(crate::simplify::hold_at_point(ops, c1, x, y, z, vars)) by {
        let ev = |t: Term| point_of(t, x, y, z, vars);
        let f = crate::simplify::point_made(x, y, z, vars);
        assert forall|i: int| 0 <= i < ops.len() implies match #[trigger] verdict(ops[i], c1) {
            Choice::Left => ev(slot_term(ops, i)) == ev(slot_term(ops, ops[i].lhs as int)),
            Choice::Right => ev(slot_term(ops, i)) == (if two_slots(ops[i].code) {
                ev(slot_term(ops, ops[i].rhs as int))
            } else {
                f(OpCode::CopyImm, ops[i].imm, ev(Term::Blank), ev(Term::Blank))
            }),
            _ => true,
        } by {
            assert(ssa_op_ok(ops[i], i, ops.len() as int));
            one_point_interval_of_term(slot_term(ops, i), x, y, z, vars);
            if verdict(ops[i], c1) == Choice::Left {
                one_point_interval_of_term(slot_term(ops, ops[i].lhs as int), x, y, z, vars);
            }
            if verdict(ops[i], c1) == Choice::Right && two_slots(ops[i].code) {
                one_point_interval_of_term(slot_term(ops, ops[i].rhs as int), x, y, z, vars);
            }
        }
    }
    crate::simplify::specialised_point_is_same(ops, c1, x, y, z, vars);
}

} // verus!
