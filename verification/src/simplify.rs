//! Specialisation of a tape by recorded choices.
//!
//! Where the choices say that one operand alone gives the value of a
//! minimum or maximum, every user of that operation reads the operand
//! instead.  What the root then no longer reaches is dropped, and the slots
//! and the choices that are left are numbered anew, in their old order.

use crate::choice::{choice_of, decode, Choice};
use crate::op::{
    arity, is_choice, loads_follow_stores, regs_ok, spec_arity, spec_is_choice, ssa_ok, ssa_op_ok,
    OpCode, SsaOp,
};
use crate::interval::{chosen_of_term, interval_of, plain_interval, Interval};
use crate::point::{choice_of_term, lacks_var, plain_value, point_of, shape};
use crate::tape::{lowered_reads_same_vars, ssa_choices_ok, ssa_lacks_var, Tape};
use crate::term::{made, slot_term, tag, Term};
use vstd::prelude::*;

verus! {

/// Whether the byte records that one operand alone decided.
pub open spec fn one_sided(byte: u8) -> bool {
    choice_of(byte) == Choice::Left || choice_of(byte) == Choice::Right
}

/// Whether one of the first `count` bytes records that one operand alone
/// decided.
pub open spec fn decided_below(choices: Seq<u8>, count: int) -> bool
    decreases count,
{
    count > 0 && (one_sided(choices[count - 1]) || decided_below(choices, count - 1))
}

/// Whether some byte records that one operand alone decided.
pub open spec fn any_decided(choices: Seq<u8>) -> bool {
    decided_below(choices, choices.len() as int)
}

/// What the choices say of an operation with the code `code` and the
/// choice `choice`: `Left` or `Right` for a minimum or maximum that one
/// operand alone decided, else `Both`.
pub open spec fn verdict_at(code: OpCode, choice: usize, choices: Seq<u8>) -> Choice {
    if spec_is_choice(code) && choice < choices.len() && one_sided(choices[choice as int]) {
        choice_of(choices[choice as int])
    } else {
        Choice::Both
    }
}

/// What the choices say of an operation.
pub open spec fn verdict(op: SsaOp, choices: Seq<u8>) -> Choice {
    verdict_at(op.code, op.choice, choices)
}

/// Whether the operation is a minimum or maximum of two slots.
pub open spec fn two_slots(code: OpCode) -> bool {
    code == OpCode::MinRegReg || code == OpCode::MaxRegReg
}

/// The slot whose value the slot `i` takes: the slot itself, unless its
/// operation is a minimum or maximum that a slot operand alone decided, in
/// which case it is what that operand takes its value from.
pub open spec fn target(ops: Seq<SsaOp>, choices: Seq<u8>, i: int) -> int
    decreases
        (if i < ops.len() {
            ops.len() - i
        } else {
            0
        }),
{
    if 0 <= i < ops.len() {
        let op = ops[i];
        let v = verdict(op, choices);
        if v == Choice::Left && i < op.lhs {
            target(ops, choices, op.lhs as int)
        } else if v == Choice::Right && two_slots(op.code) && i < op.rhs {
            target(ops, choices, op.rhs as int)
        } else {
            i
        }
    } else {
        i
    }
}

/// The operation that stands for slot `i` in the new tape, still on the old
/// slots.  The root that takes its value from another slot copies it; a
/// minimum or maximum that its immediate operand alone decided copies that;
/// any other operation reads, for each of its operands, the slot from which
/// that operand takes its value.
pub open spec fn rewritten(ops: Seq<SsaOp>, choices: Seq<u8>, i: int) -> SsaOp {
    let op = ops[i];
    let v = verdict(op, choices);
    let blank = SsaOp { code: OpCode::CopyImm, out: i as usize, lhs: 0, rhs: 0, imm: 0, choice: 0 };
    if v == Choice::Right && !two_slots(op.code) {
        SsaOp { code: OpCode::CopyImm, imm: op.imm, ..blank }
    } else if target(ops, choices, i) != i {
        SsaOp { code: OpCode::CopyReg, lhs: target(ops, choices, i) as usize, ..blank }
    } else {
        SsaOp {
            lhs: if spec_arity(op.code) >= 1 {
                target(ops, choices, op.lhs as int) as usize
            } else {
                op.lhs
            },
            rhs: if spec_arity(op.code) >= 2 {
                target(ops, choices, op.rhs as int) as usize
            } else {
                op.rhs
            },
            ..op
        }
    }
}

/// Whether an operation reads the slot `s`.
pub open spec fn reads(op: SsaOp, s: int) -> bool {
    (spec_arity(op.code) >= 1 && op.lhs == s) || (spec_arity(op.code) >= 2 && op.rhs == s)
}

/// Whether the new tape has an operation for slot `i`: the root has one, and
/// so has every slot that takes its value from no other and that an
/// operation of the new tape reads.
pub open spec fn kept(ops: Seq<SsaOp>, choices: Seq<u8>, i: int) -> bool
    decreases
        (if i >= 0 {
            i
        } else {
            0
        }),
        (if i >= 0 {
            i + 1
        } else {
            0
        }),
{
    i == 0 || (0 < i < ops.len() && target(ops, choices, i) == i && needed(
        ops,
        choices,
        i,
        i - 1,
    ))
}

/// Whether one of the operations from slot 0 to slot `j` that the new tape
/// has reads the slot `s`.
pub open spec fn needed(ops: Seq<SsaOp>, choices: Seq<u8>, s: int, j: int) -> bool
    decreases
        (if s >= 0 {
            s
        } else {
            0
        }),
        (if j >= 0 {
            j + 1
        } else {
            0
        }),
{
    0 <= j < s && ((kept(ops, choices, j) && reads(rewritten(ops, choices, j), s)) || needed(
        ops,
        choices,
        s,
        j - 1,
    ))
}

/// The number of slots below `i` for which the new tape has an operation:
/// the new number of slot `i`.
pub open spec fn rank(ops: Seq<SsaOp>, choices: Seq<u8>, i: int) -> nat
    decreases i,
{
    if i <= 0 {
        0
    } else {
        rank(ops, choices, i - 1) + if kept(ops, choices, i - 1) {
            1nat
        } else {
            0nat
        }
    }
}

/// Whether one of the operations below slot `j` that the new tape has is a
/// minimum or maximum with the choice `k`.
pub open spec fn choice_used(ops: Seq<SsaOp>, choices: Seq<u8>, k: int, j: int) -> bool
    decreases j,
{
    j > 0 && ((kept(ops, choices, j - 1) && spec_is_choice(rewritten(ops, choices, j - 1).code)
        && rewritten(ops, choices, j - 1).choice == k) || choice_used(ops, choices, k, j - 1))
}

/// The number of choices below `k` that the new tape still has: the new
/// number of choice `k`.
pub open spec fn choice_rank(ops: Seq<SsaOp>, choices: Seq<u8>, k: int) -> nat
    decreases k,
{
    if k <= 0 {
        0
    } else {
        choice_rank(ops, choices, k - 1) + if choice_used(
            ops,
            choices,
            k - 1,
            ops.len() as int,
        ) {
            1nat
        } else {
            0nat
        }
    }
}

/// An operation on the new numbers of its slots and of its choice.
pub open spec fn renumbered(ops: Seq<SsaOp>, choices: Seq<u8>, op: SsaOp) -> SsaOp {
    SsaOp {
        out: rank(ops, choices, op.out as int) as usize,
        lhs: if spec_arity(op.code) >= 1 {
            rank(ops, choices, op.lhs as int) as usize
        } else {
            0
        },
        rhs: if spec_arity(op.code) >= 2 {
            rank(ops, choices, op.rhs as int) as usize
        } else {
            0
        },
        choice: if spec_is_choice(op.code) {
            choice_rank(ops, choices, op.choice as int) as usize
        } else {
            0
        },
        ..op
    }
}

/// The operations of the new tape for the slots below `i`.
pub open spec fn simplified_below(ops: Seq<SsaOp>, choices: Seq<u8>, i: int) -> Seq<SsaOp>
    decreases i,
{
    if i <= 0 {
        Seq::<SsaOp>::empty()
    } else if kept(ops, choices, i - 1) {
        simplified_below(ops, choices, i - 1).push(
            renumbered(ops, choices, rewritten(ops, choices, i - 1)),
        )
    } else {
        simplified_below(ops, choices, i - 1)
    }
}

/// The new tape on symbolic slots.
pub open spec fn simplified(ops: Seq<SsaOp>, choices: Seq<u8>) -> Seq<SsaOp> {
    simplified_below(ops, choices, ops.len() as int)
}

/// The number of choices of the new tape.
pub open spec fn simplified_choices(ops: Seq<SsaOp>, choices: Seq<u8>) -> nat {
    choice_rank(ops, choices, choices.len() as int)
}

/// Whether some byte records that one operand alone decided.
pub fn decided(choices: &Vec<u8>) -> (r: bool)
    ensures
        r == any_decided(choices@),
{
    let mut i: usize = 0;
    while i < choices.len()
        invariant
            i <= choices.len(),
            !decided_below(choices@, i as int),
        decreases choices.len() - i,
    {
        match decode(choices[i]) {
            Choice::Left | Choice::Right => {
                assert(decided_below(choices@, i + 1));
                proof {
                    decided_grows(choices@, i + 1, choices.len() as int);
                }
                return true;
            },
            _ => {},
        }
        i = i + 1;
    }
    false
}

proof fn decided_grows(choices: Seq<u8>, lo: int, hi: int)
    requires
        0 <= lo <= hi,
        decided_below(choices, lo),
    ensures
        decided_below(choices, hi),
    decreases hi - lo,
{
    if lo < hi {
        decided_grows(choices, lo, hi - 1);
    }
}

/// What the choices say of an operation.
fn verdict_of(op: &SsaOp, choices: &Vec<u8>) -> (r: Choice)
    ensures
        r == verdict(*op, choices@),
{
    if is_choice(op.code) && op.choice < choices.len() {
        match decode(choices[op.choice]) {
            Choice::Left => Choice::Left,
            Choice::Right => Choice::Right,
            _ => Choice::Both,
        }
    } else {
        Choice::Both
    }
}

/// For every slot the slot from which it takes its value.
fn targets(ops: &Vec<SsaOp>, choices: &Vec<u8>) -> (r: Vec<usize>)
    requires
        ssa_ok(ops@),
    ensures
        r.len() == ops.len(),
        forall|i: int| 0 <= i < r.len() ==> #[trigger] r[i] == target(ops@, choices@, i),
        forall|i: int| 0 <= i < r.len() ==> i <= #[trigger] r[i] < r.len(),
{
    let len = ops.len();
    let mut table: Vec<usize> = Vec::new();
    let mut k: usize = 0;
    while k < len
        invariant
            k <= len,
            table.len() == k,
            forall|i: int| 0 <= i < k ==> #[trigger] table[i] == i,
        decreases len - k,
    {
        table.push(k);
        k = k + 1;
    }
    let mut i: usize = len;
    while i > 0
        invariant
            len == ops.len(),
            table.len() == len,
            i <= len,
            ssa_ok(ops@),
            forall|j: int| i <= j < len ==> #[trigger] table[j] == target(ops@, choices@, j),
            forall|j: int| i <= j < len ==> j <= #[trigger] table[j] < len,
            forall|j: int| 0 <= j < i ==> #[trigger] table[j] == j,
        decreases i,
    {
        i = i - 1;
        let op = ops[i];
        assert(ssa_op_ok(ops@[i as int], i as int, len as int));
        let v = verdict_of(&op, choices);
        let two = match op.code {
            OpCode::MinRegReg | OpCode::MaxRegReg => true,
            _ => false,
        };
        match v {
            Choice::Left => {
                if i < op.lhs {
                    let t = table[op.lhs];
                    table.set(i, t);
                }
            },
            Choice::Right => {
                if two && i < op.rhs {
                    let t = table[op.rhs];
                    table.set(i, t);
                }
            },
            _ => {},
        }
    }
    table
}

/// The operation that stands for slot `i` in the new tape, on the old slots.
fn rewrite(ops: &Vec<SsaOp>, choices: &Vec<u8>, table: &Vec<usize>, i: usize) -> (r: SsaOp)
    requires
        ssa_ok(ops@),
        i < ops.len(),
        table.len() == ops.len(),
        forall|j: int| 0 <= j < table.len() ==> #[trigger] table[j] == target(ops@, choices@, j),
    ensures
        r == rewritten(ops@, choices@, i as int),
{
    let op = ops[i];
    assert(ssa_op_ok(ops@[i as int], i as int, ops.len() as int));
    let v = verdict_of(&op, choices);
    let two = match op.code {
        OpCode::MinRegReg | OpCode::MaxRegReg => true,
        _ => false,
    };
    let blank = SsaOp { code: OpCode::CopyImm, out: i, lhs: 0, rhs: 0, imm: 0, choice: 0 };
    let right = match v {
        Choice::Right => true,
        _ => false,
    };
    if right && !two {
        SsaOp { code: OpCode::CopyImm, imm: op.imm, ..blank }
    } else if table[i] != i {
        SsaOp { code: OpCode::CopyReg, lhs: table[i], ..blank }
    } else {
        let n = arity(op.code);
        SsaOp {
            lhs: if n >= 1 {
                table[op.lhs]
            } else {
                op.lhs
            },
            rhs: if n >= 2 {
                table[op.rhs]
            } else {
                op.rhs
            },
            ..op
        }
    }
}

/// For every slot whether the new tape has an operation for it, and the
/// operations themselves, on the old slots.
fn keep(ops: &Vec<SsaOp>, choices: &Vec<u8>, table: &Vec<usize>) -> (r: (Vec<bool>, Vec<SsaOp>))
    requires
        ssa_ok(ops@),
        table.len() == ops.len(),
        forall|j: int| 0 <= j < table.len() ==> #[trigger] table[j] == target(ops@, choices@, j),
    ensures
        r.0.len() == ops.len(),
        r.1.len() == ops.len(),
        forall|i: int| 0 <= i < ops.len() ==> #[trigger] r.0[i] == kept(ops@, choices@, i),
        forall|i: int| 0 <= i < ops.len() ==> #[trigger] r.1[i] == rewritten(ops@, choices@, i),
{
    let len = ops.len();
    let mut need: Vec<bool> = Vec::new();
    let mut k: usize = 0;
    while k < len
        invariant
            k <= len,
            need.len() == k,
            forall|i: int| 0 <= i < k ==> !#[trigger] need[i],
        decreases len - k,
    {
        need.push(false);
        k = k + 1;
    }
    let mut flags: Vec<bool> = Vec::new();
    let mut news: Vec<SsaOp> = Vec::new();
    let mut i: usize = 0;
    while i < len
        invariant
            len == ops.len(),
            table.len() == len,
            need.len() == len,
            ssa_ok(ops@),
            forall|j: int|
                0 <= j < table.len() ==> #[trigger] table[j] == target(ops@, choices@, j),
            i <= len,
            flags.len() == i,
            news.len() == i,
            forall|j: int| 0 <= j < i ==> #[trigger] flags[j] == kept(ops@, choices@, j),
            forall|j: int| 0 <= j < i ==> #[trigger] news[j] == rewritten(ops@, choices@, j),
            forall|s: int|
                i <= s < len ==> #[trigger] need[s] == needed(ops@, choices@, s, i as int - 1),
        decreases len - i,
    {
        let op = rewrite(ops, choices, table, i);
        let keep = i == 0 || (table[i] == i && need[i]);
        assert(keep == kept(ops@, choices@, i as int));
        let ghost before = need@;
        if keep {
            let n = arity(op.code);
            if n >= 1 && op.lhs < len {
                need.set(op.lhs, true);
            }
            if n >= 2 && op.rhs < len {
                need.set(op.rhs, true);
            }
        }
        assert forall|s: int| i + 1 <= s < len implies #[trigger] need[s] == needed(
            ops@,
            choices@,
            s,
            i as int,
        ) by {
            assert(before[s] == needed(ops@, choices@, s, i as int - 1));
        }
        flags.push(keep);
        news.push(op);
        i = i + 1;
    }
    (flags, news)
}

/// For every choice its new number, and the number of choices that are
/// left.
fn number_choices(
    ops: &Vec<SsaOp>,
    choices: &Vec<u8>,
    flags: &Vec<bool>,
    news: &Vec<SsaOp>,
) -> (r: (Vec<usize>, usize))
    requires
        flags.len() == ops.len(),
        news.len() == ops.len(),
        forall|i: int| 0 <= i < ops.len() ==> #[trigger] flags[i] == kept(ops@, choices@, i),
        forall|i: int| 0 <= i < ops.len() ==> #[trigger] news[i] == rewritten(ops@, choices@, i),
    ensures
        r.0.len() == choices.len(),
        forall|k: int|
            0 <= k < choices.len() ==> #[trigger] r.0[k] == choice_rank(ops@, choices@, k),
        r.1 == simplified_choices(ops@, choices@),
{
    let count = choices.len();
    let len = ops.len();
    let mut used: Vec<bool> = Vec::new();
    let mut k: usize = 0;
    while k < count
        invariant
            k <= count,
            used.len() == k,
            forall|i: int| 0 <= i < k ==> !#[trigger] used[i],
        decreases count - k,
    {
        used.push(false);
        k = k + 1;
    }
    let mut i: usize = 0;
    while i < len
        invariant
            len == ops.len(),
            count == choices.len(),
            flags.len() == len,
            news.len() == len,
            used.len() == count,
            i <= len,
            forall|j: int| 0 <= j < len ==> #[trigger] flags[j] == kept(ops@, choices@, j),
            forall|j: int| 0 <= j < len ==> #[trigger] news[j] == rewritten(ops@, choices@, j),
            forall|k: int|
                0 <= k < count ==> #[trigger] used[k] == choice_used(ops@, choices@, k, i as int),
        decreases len - i,
    {
        let ghost before = used@;
        if flags[i] && is_choice(news[i].code) && news[i].choice < count {
            used.set(news[i].choice, true);
        }
        assert forall|k: int| 0 <= k < count implies #[trigger] used[k] == choice_used(
            ops@,
            choices@,
            k,
            i + 1,
        ) by {
            assert(before[k] == choice_used(ops@, choices@, k, i as int));
        }
        i = i + 1;
    }
    let mut ranks: Vec<usize> = Vec::new();
    let mut total: usize = 0;
    let mut c: usize = 0;
    while c < count
        invariant
            count == choices.len(),
            used.len() == count,
            c <= count,
            ranks.len() == c,
            total == choice_rank(ops@, choices@, c as int),
            total <= c,
            forall|k: int|
                0 <= k < count ==> #[trigger] used[k] == choice_used(
                    ops@,
                    choices@,
                    k,
                    ops.len() as int,
                ),
            forall|k: int| 0 <= k < c ==> #[trigger] ranks[k] == choice_rank(ops@, choices@, k),
        decreases count - c,
    {
        ranks.push(total);
        if used[c] {
            total = total + 1;
        }
        c = c + 1;
    }
    (ranks, total)
}

/// A slot takes its value from a slot that is not before it and that takes
/// its value from no other.
pub proof fn target_range(ops: Seq<SsaOp>, choices: Seq<u8>, i: int)
    requires
        ssa_ok(ops),
        0 <= i < ops.len(),
    ensures
        i <= target(ops, choices, i) < ops.len(),
        target(ops, choices, target(ops, choices, i)) == target(ops, choices, i),
    decreases ops.len() - i,
{
    let op = ops[i];
    assert(ssa_op_ok(op, i, ops.len() as int));
    let v = verdict(op, choices);
    if v == Choice::Left && i < op.lhs {
        target_range(ops, choices, op.lhs as int);
    } else if v == Choice::Right && two_slots(op.code) && i < op.rhs {
        target_range(ops, choices, op.rhs as int);
    }
}

/// An operation of the new tape is no transfer; it reads only later slots
/// that take their values from no other; and if it is a minimum or maximum,
/// so was the old operation, with the same choice.
pub proof fn rewritten_reads(ops: Seq<SsaOp>, choices: Seq<u8>, i: int)
    requires
        ssa_ok(ops),
        0 <= i < ops.len(),
    ensures
        !crate::op::spec_is_transfer(rewritten(ops, choices, i).code),
        rewritten(ops, choices, i).out == i,
        spec_arity(rewritten(ops, choices, i).code) >= 1 ==> i < rewritten(ops, choices, i).lhs
            < ops.len() && target(ops, choices, rewritten(ops, choices, i).lhs as int)
            == rewritten(ops, choices, i).lhs,
        spec_arity(rewritten(ops, choices, i).code) >= 2 ==> i < rewritten(ops, choices, i).rhs
            < ops.len() && target(ops, choices, rewritten(ops, choices, i).rhs as int)
            == rewritten(ops, choices, i).rhs,
        spec_is_choice(rewritten(ops, choices, i).code) ==> spec_is_choice(ops[i].code)
            && rewritten(ops, choices, i).choice == ops[i].choice,
{
    let op = ops[i];
    assert(ssa_op_ok(op, i, ops.len() as int));
    target_range(ops, choices, i);
    if spec_arity(op.code) >= 1 {
        target_range(ops, choices, op.lhs as int);
    }
    if spec_arity(op.code) >= 2 {
        target_range(ops, choices, op.rhs as int);
    }
}

/// A slot that an operation of the new tape reads is needed from that
/// operation on.
pub proof fn needed_from(ops: Seq<SsaOp>, choices: Seq<u8>, t: int, i: int, j: int)
    requires
        0 <= i <= j < t,
        kept(ops, choices, i),
        reads(rewritten(ops, choices, i), t),
    ensures
        needed(ops, choices, t, j),
    decreases j - i,
{
    if i < j {
        needed_from(ops, choices, t, i, j - 1);
    }
}

/// The new number of a slot is not above its old number.
pub proof fn rank_is_below(ops: Seq<SsaOp>, choices: Seq<u8>, i: int)
    requires
        0 <= i,
    ensures
        rank(ops, choices, i) <= i,
    decreases i,
{
    if i > 0 {
        rank_is_below(ops, choices, i - 1);
    }
}

/// The new numbers of the slots do not fall.
pub proof fn rank_grows(ops: Seq<SsaOp>, choices: Seq<u8>, a: int, b: int)
    requires
        a <= b,
    ensures
        rank(ops, choices, a) <= rank(ops, choices, b),
    decreases b - a,
{
    if a < b {
        rank_grows(ops, choices, a, b - 1);
    }
}

/// The new numbers of the choices do not fall.
pub proof fn choice_rank_grows(ops: Seq<SsaOp>, choices: Seq<u8>, a: int, b: int)
    requires
        a <= b,
    ensures
        choice_rank(ops, choices, a) <= choice_rank(ops, choices, b),
    decreases b - a,
{
    if a < b {
        choice_rank_grows(ops, choices, a, b - 1);
    }
}

/// The choice of a minimum or maximum of the new tape is one of the choices
/// that the new tape has.
pub proof fn used_from(ops: Seq<SsaOp>, choices: Seq<u8>, k: int, i: int, j: int)
    requires
        0 <= i < j,
        kept(ops, choices, i),
        spec_is_choice(rewritten(ops, choices, i).code),
        rewritten(ops, choices, i).choice == k,
    ensures
        choice_used(ops, choices, k, j),
    decreases j - i,
{
    if i + 1 < j {
        used_from(ops, choices, k, i, j - 1);
    }
}

/// The new tape on symbolic slots, and the number of its choices.
fn respecify(ops: &Vec<SsaOp>, choices: &Vec<u8>) -> (r: (Vec<SsaOp>, usize))
    requires
        ssa_ok(ops@),
        ops.len() > 0,
        ssa_choices_ok(ops@, choices.len() as int),
        coherent(ops@),
    ensures
        r.0@ == simplified(ops@, choices@),
        r.1 == simplified_choices(ops@, choices@),
        0 < r.0.len() <= ops.len(),
        ssa_ok(r.0@),
        ssa_choices_ok(r.0@, r.1 as int),
        coherent(r.0@),
{
    proof {
        simplified_is_coherent(ops@, choices@);
    }
    let len = ops.len();
    let table = targets(ops, choices);
    let (flags, news) = keep(ops, choices, &table);
    let (choice_ranks, total) = number_choices(ops, choices, &flags, &news);
    let mut ranks: Vec<usize> = Vec::new();
    let mut seen: usize = 0;
    let mut c: usize = 0;
    while c < len
        invariant
            len == ops.len(),
            flags.len() == len,
            c <= len,
            ranks.len() == c,
            seen == rank(ops@, choices@, c as int),
            seen <= c,
            forall|i: int| 0 <= i < len ==> #[trigger] flags[i] == kept(ops@, choices@, i),
            forall|k: int| 0 <= k < c ==> #[trigger] ranks[k] == rank(ops@, choices@, k),
        decreases len - c,
    {
        ranks.push(seen);
        if flags[c] {
            seen = seen + 1;
        }
        c = c + 1;
    }
    proof {
        assert(kept(ops@, choices@, 0));
        rank_grows(ops@, choices@, 1, len as int);
    }
    let mut out: Vec<SsaOp> = Vec::new();
    let mut i: usize = 0;
    while i < len
        invariant
            len == ops.len(),
            flags.len() == len,
            news.len() == len,
            ranks.len() == len,
            choice_ranks.len() == choices.len(),
            i <= len,
            ssa_ok(ops@),
            seen == rank(ops@, choices@, len as int),
            total == simplified_choices(ops@, choices@),
            forall|j: int| 0 <= j < len ==> #[trigger] flags[j] == kept(ops@, choices@, j),
            forall|j: int| 0 <= j < len ==> #[trigger] news[j] == rewritten(ops@, choices@, j),
            forall|k: int| 0 <= k < len ==> #[trigger] ranks[k] == rank(ops@, choices@, k),
            forall|k: int|
                0 <= k < choices.len() ==> #[trigger] choice_ranks[k] == choice_rank(
                    ops@,
                    choices@,
                    k,
                ),
            ssa_choices_ok(ops@, choices.len() as int),
            out@ == simplified_below(ops@, choices@, i as int),
            out.len() == rank(ops@, choices@, i as int),
            forall|n: int| 0 <= n < out.len() ==> ssa_op_ok(#[trigger] out[n], n, seen as int),
            forall|n: int|
                0 <= n < out.len() && spec_is_choice((#[trigger] out[n]).code) ==> out[n].choice
                    < total,
        decreases len - i,
    {
        if flags[i] {
            let op = news[i];
            proof {
                rewritten_reads(ops@, choices@, i as int);
                rank_grows(ops@, choices@, i + 1, len as int);
                if spec_arity(op.code) >= 1 {
                    let t = op.lhs as int;
                    needed_from(ops@, choices@, t, i as int, t - 1);
                    rank_grows(ops@, choices@, i + 1, t);
                    rank_grows(ops@, choices@, t + 1, len as int);
                }
                if spec_arity(op.code) >= 2 {
                    let t = op.rhs as int;
                    needed_from(ops@, choices@, t, i as int, t - 1);
                    rank_grows(ops@, choices@, i + 1, t);
                    rank_grows(ops@, choices@, t + 1, len as int);
                }
                if spec_is_choice(op.code) {
                    let k = op.choice as int;
                    assert(spec_is_choice(ops@[i as int].code));
                    used_from(ops@, choices@, k, i as int, len as int);
                    choice_rank_grows(ops@, choices@, k + 1, choices.len() as int);
                }
            }
            let n = arity(op.code);
            let lowered = SsaOp {
                out: ranks[op.out],
                lhs: if n >= 1 {
                    ranks[op.lhs]
                } else {
                    0
                },
                rhs: if n >= 2 {
                    ranks[op.rhs]
                } else {
                    0
                },
                choice: if is_choice(op.code) {
                    choice_ranks[op.choice]
                } else {
                    0
                },
                ..op
            };
            out.push(lowered);
        }
        i = i + 1;
    }
    (out, total)
}

/// Every operation of the new tape stands for an operation of the old one.
pub proof fn origin(ops: Seq<SsaOp>, choices: Seq<u8>, i: int, m: int) -> (j: int)
    requires
        0 <= m < simplified_below(ops, choices, i).len(),
    ensures
        0 <= j < i,
        kept(ops, choices, j),
        m == rank(ops, choices, j),
        simplified_below(ops, choices, i)[m] == renumbered(
            ops,
            choices,
            rewritten(ops, choices, j),
        ),
    decreases i,
{
    below_has_rank(ops, choices, i);
    below_has_rank(ops, choices, i - 1);
    if kept(ops, choices, i - 1) && m == simplified_below(ops, choices, i).len() - 1 {
        i - 1
    } else {
        origin(ops, choices, i - 1, m)
    }
}

/// The new tape is in single-assignment form, its choices are below their
/// new number, and it has an operation for the root.
pub proof fn simplified_is_ok(ops: Seq<SsaOp>, choices: Seq<u8>)
    requires
        ssa_ok(ops),
        0 < ops.len() <= usize::MAX,
        ssa_choices_ok(ops, choices.len() as int),
    ensures
        simplified(ops, choices).len() > 0,
        simplified(ops, choices).len() <= ops.len(),
        ssa_ok(simplified(ops, choices)),
        ssa_choices_ok(simplified(ops, choices), simplified_choices(ops, choices) as int),
{
    let new = simplified(ops, choices);
    let len = ops.len() as int;
    below_has_rank(ops, choices, len);
    rank_is_below(ops, choices, len);
    assert(kept(ops, choices, 0));
    rank_grows(ops, choices, 1, len);
    assert forall|m: int| 0 <= m < new.len() implies ssa_op_ok(
        #[trigger] new[m],
        m,
        new.len() as int,
    ) && (spec_is_choice(new[m].code) ==> new[m].choice < simplified_choices(ops, choices)) by {
        let j = origin(ops, choices, len, m);
        let r = rewritten(ops, choices, j);
        rewritten_reads(ops, choices, j);
        rank_is_below(ops, choices, j);
        assert(rank(ops, choices, j + 1) == rank(ops, choices, j) + 1);
        if spec_arity(r.code) >= 1 {
            let t = r.lhs as int;
            needed_from(ops, choices, t, j, t - 1);
            rank_grows(ops, choices, j + 1, t);
            rank_grows(ops, choices, t + 1, len);
            rank_is_below(ops, choices, t);
        }
        if spec_arity(r.code) >= 2 {
            let t = r.rhs as int;
            needed_from(ops, choices, t, j, t - 1);
            rank_grows(ops, choices, j + 1, t);
            rank_grows(ops, choices, t + 1, len);
            rank_is_below(ops, choices, t);
        }
        if spec_is_choice(r.code) {
            let k = r.choice as int;
            used_from(ops, choices, k, j, len);
            choice_rank_grows(ops, choices, k + 1, choices.len() as int);
            choices_do_not_grow(ops, choices, k);
        }
    }
}

/// The new tape reads no variable that the old one does not read.
pub proof fn simplified_reads_no_more(ops: Seq<SsaOp>, choices: Seq<u8>, count: int)
    requires
        ssa_lacks_var(simplified(ops, choices), count),
    ensures
        ssa_lacks_var(ops, count),
{
    let new = simplified(ops, choices);
    let m = choose|m: int|
        0 <= m < new.len() && (#[trigger] new[m]).code == OpCode::Var && new[m].imm >= count;
    let j = origin(ops, choices, ops.len() as int, m);
    assert(ops[j].code == OpCode::Var && ops[j].imm >= count);
}

/// The term in the new tape of what has the term `t` in the old one: a
/// minimum or maximum that one operand alone decided is the term of that
/// operand, and the choices that are left have their new numbers.
pub open spec fn respecified(ops: Seq<SsaOp>, choices: Seq<u8>, t: Term) -> Term
    decreases t,
{
    match t {
        Term::Blank => Term::Blank,
        Term::Node(code, imm, choice, a, b) => {
            let v = verdict_at(code, choice, choices);
            if v == Choice::Left {
                respecified(ops, choices, *a)
            } else if v == Choice::Right {
                if two_slots(code) {
                    respecified(ops, choices, *b)
                } else {
                    made(OpCode::CopyImm, imm, 0, Term::Blank, Term::Blank)
                }
            } else {
                Term::Node(
                    code,
                    imm,
                    if spec_is_choice(code) {
                        choice_rank(ops, choices, choice as int) as usize
                    } else {
                        0
                    },
                    Box::new(respecified(ops, choices, *a)),
                    Box::new(respecified(ops, choices, *b)),
                )
            }
        },
    }
}

/// The slot from which a slot takes its value has in the new tape the
/// respecified term of the slot.
pub proof fn slot_is_respecified(ops: Seq<SsaOp>, choices: Seq<u8>, i: int)
    requires
        ssa_ok(ops),
        0 < ops.len() <= usize::MAX,
        0 <= i < ops.len(),
        kept(ops, choices, target(ops, choices, i)),
    ensures
        slot_term(simplified(ops, choices), rank(ops, choices, target(ops, choices, i)) as int)
            == respecified(ops, choices, slot_term(ops, i)),
    decreases ops.len() - i,
{
    let new = simplified(ops, choices);
    let len = ops.len() as int;
    let op = ops[i];
    let v = verdict(op, choices);
    assert(ssa_op_ok(op, i, len));
    target_range(ops, choices, i);
    let oa = if spec_arity(op.code) >= 1 {
        slot_term(ops, op.lhs as int)
    } else {
        Term::Blank
    };
    let ob = if spec_arity(op.code) >= 2 {
        slot_term(ops, op.rhs as int)
    } else {
        Term::Blank
    };
    assert(slot_term(ops, i) == Term::Node(
        op.code,
        op.imm,
        tag(op.code, op.choice),
        Box::new(oa),
        Box::new(ob),
    ));
    assert(verdict_at(op.code, tag(op.code, op.choice), choices) == v);
    if v == Choice::Left {
        slot_is_respecified(ops, choices, op.lhs as int);
        assert(target(ops, choices, i) == target(ops, choices, op.lhs as int));
        assert(respecified(ops, choices, slot_term(ops, i)) == respecified(ops, choices, oa));
    } else if v == Choice::Right && two_slots(op.code) {
        slot_is_respecified(ops, choices, op.rhs as int);
        assert(target(ops, choices, i) == target(ops, choices, op.rhs as int));
        assert(respecified(ops, choices, slot_term(ops, i)) == respecified(ops, choices, ob));
    } else {
        assert(target(ops, choices, i) == i);
        let r = rewritten(ops, choices, i);
        let n = renumbered(ops, choices, r);
        let at = rank(ops, choices, i) as int;
        kept_at(ops, choices, i, len);
        rewritten_reads(ops, choices, i);
        assert(new[at] == n);
        assert(rank(ops, choices, i + 1) == rank(ops, choices, i) + 1);
        let a = if spec_arity(n.code) >= 1 && at < n.lhs {
            slot_term(new, n.lhs as int)
        } else {
            Term::Blank
        };
        let b = if spec_arity(n.code) >= 2 && at < n.rhs {
            slot_term(new, n.rhs as int)
        } else {
            Term::Blank
        };
        assert(slot_term(new, at) == made(n.code, n.imm, n.choice, a, b));
        if v == Choice::Both {
            if spec_arity(op.code) >= 1 {
                let t = r.lhs as int;
                target_range(ops, choices, op.lhs as int);
                needed_from(ops, choices, t, i, t - 1);
                rank_grows(ops, choices, i + 1, t);
                rank_is_below(ops, choices, t);
                slot_is_respecified(ops, choices, op.lhs as int);
                assert(n.lhs == rank(ops, choices, t));
            }
            if spec_arity(op.code) >= 2 {
                let t = r.rhs as int;
                target_range(ops, choices, op.rhs as int);
                needed_from(ops, choices, t, i, t - 1);
                rank_grows(ops, choices, i + 1, t);
                rank_is_below(ops, choices, t);
                slot_is_respecified(ops, choices, op.rhs as int);
                assert(n.rhs == rank(ops, choices, t));
            }
            if spec_is_choice(op.code) {
                choices_do_not_grow(ops, choices, op.choice as int);
            }
            let na = if spec_arity(n.code) >= 1 {
                a
            } else {
                Term::Blank
            };
            let nb = if spec_arity(n.code) >= 2 {
                b
            } else {
                Term::Blank
            };
            assert(slot_term(new, at) == Term::Node(
                n.code,
                n.imm,
                tag(n.code, n.choice),
                Box::new(na),
                Box::new(nb),
            ));
            assert(na == respecified(ops, choices, oa));
            assert(nb == respecified(ops, choices, ob));
            assert(n.code == op.code && n.imm == op.imm);
            assert(tag(n.code, n.choice) == (if spec_is_choice(op.code) {
                choice_rank(ops, choices, tag(op.code, op.choice) as int) as usize
            } else {
                0
            }));
        } else {
            assert(r.code == OpCode::CopyImm && r.imm == op.imm);
            assert(slot_term(new, at) == made(OpCode::CopyImm, op.imm, 0, Term::Blank, Term::Blank));
        }
    }
}

/// The new numbers of two choices that the new tape has differ.
pub proof fn choice_ranks_differ(ops: Seq<SsaOp>, choices: Seq<u8>, a: int, b: int)
    requires
        0 <= a < b,
        choice_used(ops, choices, a, ops.len() as int),
    ensures
        choice_rank(ops, choices, a) < choice_rank(ops, choices, b),
{
    choice_rank_grows(ops, choices, a + 1, b);
}

/// Whether the operations that share a choice are the same operation on
/// the same operands: their slots have the same term.
pub open spec fn coherent(ops: Seq<SsaOp>) -> bool {
    forall|i: int, j: int|
        0 <= i < ops.len() && 0 <= j < ops.len() && spec_is_choice(ops[i].code) && spec_is_choice(
            ops[j].code,
        ) && ops[i].choice == ops[j].choice ==> #[trigger] slot_term(ops, i) == #[trigger] slot_term(
            ops,
            j,
        )
}

/// The tape that is specialised from a coherent tape is coherent.
pub proof fn simplified_is_coherent(ops: Seq<SsaOp>, choices: Seq<u8>)
    requires
        ssa_ok(ops),
        0 < ops.len() <= usize::MAX,
        ssa_choices_ok(ops, choices.len() as int),
        coherent(ops),
    ensures
        coherent(simplified(ops, choices)),
{
    let new = simplified(ops, choices);
    let len = ops.len() as int;
    assert forall|n1: int, n2: int|
        0 <= n1 < new.len() && 0 <= n2 < new.len() && spec_is_choice(new[n1].code)
            && spec_is_choice(new[n2].code) && new[n1].choice
            == new[n2].choice implies #[trigger] slot_term(new, n1) == #[trigger] slot_term(
        new,
        n2,
    ) by {
        let j1 = origin(ops, choices, len, n1);
        let j2 = origin(ops, choices, len, n2);
        rewritten_reads(ops, choices, j1);
        rewritten_reads(ops, choices, j2);
        target_range(ops, choices, j1);
        target_range(ops, choices, j2);
        let k1 = ops[j1].choice as int;
        let k2 = ops[j2].choice as int;
        used_from(ops, choices, k1, j1, len);
        used_from(ops, choices, k2, j2, len);
        choices_do_not_grow(ops, choices, k1);
        choices_do_not_grow(ops, choices, k2);
        if k1 < k2 {
            choice_ranks_differ(ops, choices, k1, k2);
        }
        if k2 < k1 {
            choice_ranks_differ(ops, choices, k2, k1);
        }
        assert(k1 == k2);
        assert(slot_term(ops, j1) == slot_term(ops, j2));
        slot_is_respecified(ops, choices, j1);
        slot_is_respecified(ops, choices, j2);
    }
}

/// Whether `ev` gives every term a value that depends on the values of its
/// operands alone, as `f` says; a copy has the value of what it copies.
pub open spec fn by_operands<V>(ev: spec_fn(Term) -> V, f: spec_fn(OpCode, u32, V, V) -> V) -> bool {
    &&& forall|code: OpCode, imm: u32, choice: usize, a: Term, b: Term|
        #[trigger] ev(Term::Node(code, imm, choice, Box::new(a), Box::new(b))) == f(
            code,
            imm,
            ev(a),
            ev(b),
        )
    &&& forall|imm: u32, a: V, b: V| #[trigger] f(OpCode::CopyReg, imm, a, b) == a
}

/// Whether the recorded choices hold for the values that `ev` gives: every
/// minimum and maximum that one operand alone is said to decide has the
/// value of that operand.
pub open spec fn choices_hold<V>(
    ops: Seq<SsaOp>,
    choices: Seq<u8>,
    ev: spec_fn(Term) -> V,
    f: spec_fn(OpCode, u32, V, V) -> V,
) -> bool {
    forall|i: int|
        0 <= i < ops.len() ==> match #[trigger] verdict(ops[i], choices) {
            Choice::Left => ev(slot_term(ops, i)) == ev(slot_term(ops, ops[i].lhs as int)),
            Choice::Right => ev(slot_term(ops, i)) == (if two_slots(ops[i].code) {
                ev(slot_term(ops, ops[i].rhs as int))
            } else {
                f(OpCode::CopyImm, ops[i].imm, ev(Term::Blank), ev(Term::Blank))
            }),
            _ => true,
        }
}

/// Where the choices hold, a slot has the value of the slot from which it
/// takes its value.
pub proof fn target_has_value<V>(
    ops: Seq<SsaOp>,
    choices: Seq<u8>,
    ev: spec_fn(Term) -> V,
    f: spec_fn(OpCode, u32, V, V) -> V,
    i: int,
)
    requires
        ssa_ok(ops),
        choices_hold(ops, choices, ev, f),
        0 <= i < ops.len(),
    ensures
        ev(slot_term(ops, i)) == ev(slot_term(ops, target(ops, choices, i))),
    decreases ops.len() - i,
{
    let op = ops[i];
    assert(ssa_op_ok(op, i, ops.len() as int));
    let v = verdict(op, choices);
    if v == Choice::Left && i < op.lhs {
        target_has_value(ops, choices, ev, f, op.lhs as int);
    } else if v == Choice::Right && two_slots(op.code) && i < op.rhs {
        target_has_value(ops, choices, ev, f, op.rhs as int);
    }
}

/// The operation of the new tape for a slot that it keeps stands at the new
/// number of that slot.
pub proof fn kept_at(ops: Seq<SsaOp>, choices: Seq<u8>, i: int, upto: int)
    requires
        0 <= i < upto,
        kept(ops, choices, i),
    ensures
        simplified_below(ops, choices, upto).len() == rank(ops, choices, upto),
        rank(ops, choices, i) < rank(ops, choices, upto),
        simplified_below(ops, choices, upto)[rank(ops, choices, i) as int] == renumbered(
            ops,
            choices,
            rewritten(ops, choices, i),
        ),
    decreases upto - i,
{
    below_has_rank(ops, choices, upto);
    below_has_rank(ops, choices, upto - 1);
    if i + 1 < upto {
        kept_at(ops, choices, i, upto - 1);
    }
}

/// The new tape has as many operations below a slot as the new number of
/// the slot says.
pub proof fn below_has_rank(ops: Seq<SsaOp>, choices: Seq<u8>, upto: int)
    ensures
        simplified_below(ops, choices, upto).len() == rank(ops, choices, upto),
    decreases upto,
{
    if upto > 0 {
        below_has_rank(ops, choices, upto - 1);
    }
}

/// Where the choices hold, a slot that the new tape keeps has the same
/// value in the new tape as in the old one.
pub proof fn kept_has_value<V>(
    ops: Seq<SsaOp>,
    choices: Seq<u8>,
    ev: spec_fn(Term) -> V,
    f: spec_fn(OpCode, u32, V, V) -> V,
    i: int,
)
    requires
        ssa_ok(ops),
        ops.len() <= usize::MAX,
        by_operands(ev, f),
        choices_hold(ops, choices, ev, f),
        0 <= i < ops.len(),
        kept(ops, choices, i),
    ensures
        ev(slot_term(simplified(ops, choices), rank(ops, choices, i) as int)) == ev(
            slot_term(ops, i),
        ),
    decreases ops.len() - i,
{
    let new = simplified(ops, choices);
    let len = ops.len() as int;
    let op = ops[i];
    let r = rewritten(ops, choices, i);
    let n = renumbered(ops, choices, r);
    let at = rank(ops, choices, i) as int;
    assert(ssa_op_ok(op, i, len));
    kept_at(ops, choices, i, len);
    rewritten_reads(ops, choices, i);
    target_has_value(ops, choices, ev, f, i);
    assert(new[at] == n);
    let a = if spec_arity(n.code) >= 1 && at < n.lhs {
        slot_term(new, n.lhs as int)
    } else {
        Term::Blank
    };
    let b = if spec_arity(n.code) >= 2 && at < n.rhs {
        slot_term(new, n.rhs as int)
    } else {
        Term::Blank
    };
    assert(slot_term(new, at) == made(n.code, n.imm, n.choice, a, b));
    let oa = if spec_arity(op.code) >= 1 && i < op.lhs {
        slot_term(ops, op.lhs as int)
    } else {
        Term::Blank
    };
    let ob = if spec_arity(op.code) >= 2 && i < op.rhs {
        slot_term(ops, op.rhs as int)
    } else {
        Term::Blank
    };
    assert(slot_term(ops, i) == made(op.code, op.imm, op.choice, oa, ob));
    assert(rank(ops, choices, i + 1) == rank(ops, choices, i) + 1);
    if spec_arity(r.code) >= 1 {
        let t = r.lhs as int;
        needed_from(ops, choices, t, i, t - 1);
        rank_grows(ops, choices, i + 1, t);
        kept_has_value(ops, choices, ev, f, t);
        rank_is_below(ops, choices, t);
        assert(n.lhs == rank(ops, choices, t));
        assert(ev(a) == ev(slot_term(ops, t)));
    }
    if spec_arity(r.code) >= 2 {
        let t = r.rhs as int;
        needed_from(ops, choices, t, i, t - 1);
        rank_grows(ops, choices, i + 1, t);
        kept_has_value(ops, choices, ev, f, t);
        rank_is_below(ops, choices, t);
        assert(n.rhs == rank(ops, choices, t));
        assert(ev(b) == ev(slot_term(ops, t)));
    }
    if spec_arity(op.code) >= 1 {
        target_has_value(ops, choices, ev, f, op.lhs as int);
    }
    if spec_arity(op.code) >= 2 {
        target_has_value(ops, choices, ev, f, op.rhs as int);
    }
    let na = if spec_arity(n.code) >= 1 {
        a
    } else {
        Term::Blank
    };
    let nb = if spec_arity(n.code) >= 2 {
        b
    } else {
        Term::Blank
    };
    assert(slot_term(new, at) == Term::Node(
        n.code,
        n.imm,
        tag(n.code, n.choice),
        Box::new(na),
        Box::new(nb),
    ));
    assert(ev(slot_term(new, at)) == f(n.code, n.imm, ev(na), ev(nb)));
    let pa = if spec_arity(op.code) >= 1 {
        oa
    } else {
        Term::Blank
    };
    let pb = if spec_arity(op.code) >= 2 {
        ob
    } else {
        Term::Blank
    };
    assert(slot_term(ops, i) == Term::Node(
        op.code,
        op.imm,
        tag(op.code, op.choice),
        Box::new(pa),
        Box::new(pb),
    ));
    assert(ev(slot_term(ops, i)) == f(op.code, op.imm, ev(pa), ev(pb)));
    let v = verdict(op, choices);
    if v == Choice::Right && !two_slots(op.code) {
        assert(n.code == OpCode::CopyImm && n.imm == op.imm);
    } else if target(ops, choices, i) != i {
        target_range(ops, choices, i);
        assert(n.code == OpCode::CopyReg);
        assert(r.lhs == target(ops, choices, i));
    } else {
        assert(n.code == op.code && n.imm == op.imm);
        if spec_arity(op.code) >= 1 {
            target_range(ops, choices, op.lhs as int);
            assert(r.lhs == target(ops, choices, op.lhs as int));
            assert(ev(na) == ev(pa));
        }
        if spec_arity(op.code) >= 2 {
            target_range(ops, choices, op.rhs as int);
            assert(r.rhs == target(ops, choices, op.rhs as int));
            assert(ev(nb) == ev(pb));
        }
    }
}

/// Where the recorded choices hold, the new tape has the value of the old
/// one: if every minimum and maximum that one operand alone is said to
/// decide has the value of that operand, the term of the root of the new
/// tape has the value of the term of the root of the old tape.
pub proof fn specialised_has_same_value<V>(
    ops: Seq<SsaOp>,
    choices: Seq<u8>,
    ev: spec_fn(Term) -> V,
    f: spec_fn(OpCode, u32, V, V) -> V,
)
    requires
        ssa_ok(ops),
        0 < ops.len() <= usize::MAX,
        by_operands(ev, f),
        choices_hold(ops, choices, ev, f),
    ensures
        ev(slot_term(simplified(ops, choices), 0)) == ev(slot_term(ops, 0)),
{
    kept_has_value(ops, choices, ev, f, 0);
}

/// What an operation makes of the values of its operands at a point.
pub open spec fn point_made(x: u32, y: u32, z: u32, vars: Seq<u32>) -> spec_fn(
    OpCode,
    u32,
    u32,
    u32,
) -> u32 {
    |code: OpCode, imm: u32, a: u32, b: u32|
        if spec_is_choice(code) {
            choice_of_term(code, imm, a, b).value
        } else {
            plain_value(shape(code, imm), a, b, x, y, z, vars)
        }
}

/// Whether the recorded choices hold at a point: every minimum and maximum
/// that one operand alone is said to decide has, at that point, the value of
/// that operand.
pub open spec fn hold_at_point(
    ops: Seq<SsaOp>,
    choices: Seq<u8>,
    x: u32,
    y: u32,
    z: u32,
    vars: Seq<u32>,
) -> bool {
    choices_hold(
        ops,
        choices,
        |t: Term| point_of(t, x, y, z, vars),
        point_made(x, y, z, vars),
    )
}

/// At every point at which the recorded choices hold, the specialised tape
/// has the value of the tape that it was made from.
pub proof fn specialised_point_is_same(
    ops: Seq<SsaOp>,
    choices: Seq<u8>,
    x: u32,
    y: u32,
    z: u32,
    vars: Seq<u32>,
)
    requires
        ssa_ok(ops),
        0 < ops.len() <= usize::MAX,
        hold_at_point(ops, choices, x, y, z, vars),
    ensures
        point_of(slot_term(simplified(ops, choices), 0), x, y, z, vars) == point_of(
            slot_term(ops, 0),
            x,
            y,
            z,
            vars,
        ),
{
    let ev = |t: Term| point_of(t, x, y, z, vars);
    let f = point_made(x, y, z, vars);
    assert(by_operands(ev, f)) by {
        assert forall|code: OpCode, imm: u32, choice: usize, a: Term, b: Term|
            #[trigger] ev(Term::Node(code, imm, choice, Box::new(a), Box::new(b))) == f(
                code,
                imm,
                ev(a),
                ev(b),
            ) by {}
    }
    specialised_has_same_value(ops, choices, ev, f);
}

/// What an operation makes of the intervals of its operands on a region.
pub open spec fn interval_made(x: Interval, y: Interval, z: Interval, vars: Seq<u32>) -> spec_fn(
    OpCode,
    u32,
    Interval,
    Interval,
) -> Interval {
    |code: OpCode, imm: u32, a: Interval, b: Interval|
        if spec_is_choice(code) {
            chosen_of_term(code, imm, a, b).value
        } else {
            plain_interval(shape(code, imm), a, b, x, y, z, vars)
        }
}

/// Whether the recorded choices hold on a region: every minimum and maximum
/// that one operand alone is said to decide has, on that region, the
/// interval of that operand.
pub open spec fn hold_on_region(
    ops: Seq<SsaOp>,
    choices: Seq<u8>,
    x: Interval,
    y: Interval,
    z: Interval,
    vars: Seq<u32>,
) -> bool {
    choices_hold(
        ops,
        choices,
        |t: Term| interval_of(t, x, y, z, vars),
        interval_made(x, y, z, vars),
    )
}

/// On every region on which the recorded choices hold, the specialised tape
/// has the interval of the tape that it was made from.
pub proof fn specialised_interval_is_same(
    ops: Seq<SsaOp>,
    choices: Seq<u8>,
    x: Interval,
    y: Interval,
    z: Interval,
    vars: Seq<u32>,
)
    requires
        ssa_ok(ops),
        0 < ops.len() <= usize::MAX,
        hold_on_region(ops, choices, x, y, z, vars),
    ensures
        interval_of(slot_term(simplified(ops, choices), 0), x, y, z, vars) == interval_of(
            slot_term(ops, 0),
            x,
            y,
            z,
            vars,
        ),
{
    let ev = |t: Term| interval_of(t, x, y, z, vars);
    let f = interval_made(x, y, z, vars);
    assert(by_operands(ev, f)) by {
        assert forall|code: OpCode, imm: u32, choice: usize, a: Term, b: Term|
            #[trigger] ev(Term::Node(code, imm, choice, Box::new(a), Box::new(b))) == f(
                code,
                imm,
                ev(a),
                ev(b),
            ) by {}
    }
    specialised_has_same_value(ops, choices, ev, f);
}

/// The number of bytes below `count` that record both operands.
pub open spec fn both_below(choices: Seq<u8>, count: int) -> nat
    decreases count,
{
    if count <= 0 {
        0
    } else {
        both_below(choices, count - 1) + if choice_of(choices[count - 1]) == Choice::Both {
            1nat
        } else {
            0nat
        }
    }
}

/// The new tape has no more choices than the old one had.
pub proof fn choices_do_not_grow(ops: Seq<SsaOp>, choices: Seq<u8>, k: int)
    requires
        0 <= k,
    ensures
        choice_rank(ops, choices, k) <= k,
    decreases k,
{
    if k > 0 {
        choices_do_not_grow(ops, choices, k - 1);
    }
}

/// A choice that the new tape has below slot `j` is the choice of an
/// operation that the new tape keeps.
pub proof fn used_choice_op(ops: Seq<SsaOp>, choices: Seq<u8>, k: int, j: int) -> (i: int)
    requires
        choice_used(ops, choices, k, j),
    ensures
        0 <= i < j,
        kept(ops, choices, i),
        spec_is_choice(rewritten(ops, choices, i).code),
        rewritten(ops, choices, i).choice == k,
    decreases j,
{
    if kept(ops, choices, j - 1) && spec_is_choice(rewritten(ops, choices, j - 1).code)
        && rewritten(ops, choices, j - 1).choice == k {
        j - 1
    } else {
        used_choice_op(ops, choices, k, j - 1)
    }
}

/// Every new number below the new number of choice `upto` is the new number
/// of a choice that the new tape has.
pub proof fn ranked_choice(ops: Seq<SsaOp>, choices: Seq<u8>, upto: int, m: int) -> (k: int)
    requires
        0 <= m < choice_rank(ops, choices, upto),
    ensures
        0 <= k < upto,
        choice_used(ops, choices, k, ops.len() as int),
        choice_rank(ops, choices, k) == m,
    decreases upto,
{
    if choice_used(ops, choices, upto - 1, ops.len() as int) && choice_rank(
        ops,
        choices,
        upto - 1,
    ) == m {
        upto - 1
    } else {
        ranked_choice(ops, choices, upto - 1, m)
    }
}

/// Where every choice that the new tape still has is one whose byte records
/// both operands, the new tape has at most as many choices as there are
/// such bytes.
pub proof fn choices_left_are_at_most_both(ops: Seq<SsaOp>, choices: Seq<u8>, k: int)
    requires
        0 <= k <= choices.len(),
        forall|j: int|
            0 <= j < choices.len() && #[trigger] choice_used(ops, choices, j, ops.len() as int)
                ==> choice_of(choices[j]) == Choice::Both,
    ensures
        choice_rank(ops, choices, k) <= both_below(choices, k),
    decreases k,
{
    if k > 0 {
        choices_left_are_at_most_both(ops, choices, k - 1);
    }
}

/// Where the choices that the new tape still has are exactly those whose
/// bytes record both operands, the new tape has as many choices as there
/// are such bytes.
pub proof fn choices_left_are_both(ops: Seq<SsaOp>, choices: Seq<u8>, k: int)
    requires
        0 <= k <= choices.len(),
        forall|j: int|
            0 <= j < choices.len() ==> (#[trigger] choice_used(ops, choices, j, ops.len() as int)
                <==> choice_of(choices[j]) == Choice::Both),
    ensures
        choice_rank(ops, choices, k) == both_below(choices, k),
    decreases k,
{
    if k > 0 {
        choices_left_are_both(ops, choices, k - 1);
    }
}

/// Specialises the tape by the choices that an interval evaluation has
/// recorded in `choices`.  Where no byte records that one operand alone
/// decided, there is nothing to gain, and the result is `None`.  Else the
/// result is the tape in which every minimum and maximum that one operand
/// alone decided is replaced by that operand, without the operations that
/// the root then no longer reaches, and with its slots and choices numbered
/// anew.
pub fn simplify(tape: &Tape, choices: &Vec<u8>) -> (r: Option<Tape>)
    requires
        choices.len() == tape.choices(),
    ensures
        r is Some <==> any_decided(choices@),
        r is Some ==> r->Some_0.ssa_view() == simplified(tape.ssa_view(), choices@)
            && r->Some_0.choices() == simplified_choices(tape.ssa_view(), choices@)
            && r->Some_0.choices() <= tape.choices() && r->Some_0.limit() == tape.limit(),
        r is Some ==> regs_ok(r->Some_0@, tape.limit(), r->Some_0.slots()) && loads_follow_stores(
            r->Some_0@,
        ) && crate::op::slots_are_needed(r->Some_0@, tape.limit(), r->Some_0.slots()),
        r is Some ==> tape.limit() <= u8::MAX && r->Some_0@ == crate::policy::allocated_ops(
            simplified(tape.ssa_view(), choices@),
            tape.limit() as u8,
        ) && r->Some_0.slots() == crate::policy::allocated_slots(
            simplified(tape.ssa_view(), choices@),
            tape.limit() as u8,
        ),
        r is Some ==> forall|count: int|
            #[trigger] lacks_var(r->Some_0@, count) ==> lacks_var(tape@, count),
{
    if !decided(choices) {
        return None;
    }
    tape.well_formed();
    let (ssa, total) = respecify(tape.ssa(), choices);
    proof {
        choices_do_not_grow(tape.ssa_view(), choices@, choices.len() as int);
    }
    match Tape::allocate(ssa, total, tape.reg_limit()) {
        Ok(t) => {
            proof {
                assert forall|count: int| #[trigger] lacks_var(t@, count) implies lacks_var(
                    tape@,
                    count,
                ) by {
                    lowered_reads_same_vars(t.ssa_view(), t@, count);
                    simplified_reads_no_more(tape.ssa_view(), choices@, count);
                    lowered_reads_same_vars(tape.ssa_view(), tape@, count);
                }
            }
            Some(t)
        },
        Err(_) => {
            assert(false);
            None
        },
    }
}

} // verus!
