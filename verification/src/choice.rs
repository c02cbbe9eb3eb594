//! What an evaluation records at a minimum or maximum.
//!
//! Each choice owns one byte: bit 0 says that a value was written, bit 1 that
//! the left operand contributed, bit 2 that the right operand did.

use vstd::prelude::*;

verus! {

/// Which operands of a minimum or maximum contributed to its value.
#[derive(Clone, Copy, PartialEq, Eq, Structural, Debug)]
pub enum Choice {
    Unknown,
    Left,
    Right,
    Both,
}

/// Bit 0 of a choice byte: a value was written.
pub const HAS_VALUE: u8 = 1;

/// Bit 1 of a choice byte: the left operand contributed.
pub const CHOICE_LEFT: u8 = 2;

/// Bit 2 of a choice byte: the right operand contributed.
pub const CHOICE_RIGHT: u8 = 4;

/// Bits 1 and 2 together: the outcome was ambiguous.
pub const CHOICE_BOTH: u8 = 6;

/// The bits 1 and 2 of a byte, as a number from 0 to 3.
pub open spec fn sides(byte: u8) -> int {
    (byte as int / 2) % 4
}

/// The choice that a byte records.
pub open spec fn choice_of(byte: u8) -> Choice {
    if sides(byte) == 1 {
        Choice::Left
    } else if sides(byte) == 2 {
        Choice::Right
    } else if sides(byte) == 3 {
        Choice::Both
    } else {
        Choice::Unknown
    }
}

/// The bits that mark a choice.
pub open spec fn mark_of(choice: Choice) -> u8 {
    match choice {
        Choice::Unknown => 0,
        Choice::Left => CHOICE_LEFT,
        Choice::Right => CHOICE_RIGHT,
        Choice::Both => CHOICE_BOTH,
    }
}

/// The union of two choices: what a byte records after both were marked.
pub open spec fn joined(a: Choice, b: Choice) -> Choice {
    match (a, b) {
        (Choice::Unknown, _) => b,
        (_, Choice::Unknown) => a,
        (Choice::Left, Choice::Left) => Choice::Left,
        (Choice::Right, Choice::Right) => Choice::Right,
        _ => Choice::Both,
    }
}

/// Whether bit 0 of the byte is set.
pub open spec fn has_value(byte: u8) -> bool {
    byte as int % 2 == 1
}

/// The byte with the bits 1 and 2 replaced by those of `choice`; the other
/// bits stay.
pub open spec fn with_choice(byte: u8, choice: Choice) -> u8 {
    (byte - 2 * sides(byte) + mark_of(choice)) as u8
}

/// Reads the choice that a byte records.
pub fn decode(byte: u8) -> (c: Choice)
    ensures
        c == choice_of(byte),
{
    let s: u8 = (byte / 2) % 4;
    if s == 1 {
        Choice::Left
    } else if s == 2 {
        Choice::Right
    } else if s == 3 {
        Choice::Both
    } else {
        Choice::Unknown
    }
}

/// Marks `choice` in a byte, in addition to what the byte records already.
pub fn mark(byte: u8, choice: Choice) -> (r: u8)
    ensures
        r == with_choice(byte, joined(choice_of(byte), choice)),
        choice_of(r) == joined(choice_of(byte), choice),
        has_value(r) == has_value(byte),
{
    let now = match (decode(byte), choice) {
        (Choice::Unknown, _) => choice,
        (old, Choice::Unknown) => old,
        (Choice::Left, Choice::Left) => Choice::Left,
        (Choice::Right, Choice::Right) => Choice::Right,
        _ => Choice::Both,
    };
    replace(byte, now)
}

/// Replaces what the byte records by `choice`.
pub fn replace(byte: u8, choice: Choice) -> (r: u8)
    ensures
        r == with_choice(byte, choice),
        choice_of(r) == choice,
        has_value(r) == has_value(byte),
{
    let s: u8 = (byte / 2) % 4;
    let m: u8 = match choice {
        Choice::Unknown => 0,
        Choice::Left => CHOICE_LEFT,
        Choice::Right => CHOICE_RIGHT,
        Choice::Both => CHOICE_BOTH,
    };
    byte - 2 * s + m
}

/// Sets bit 0 of a byte.
pub fn set_has_value(byte: u8) -> (r: u8)
    ensures
        has_value(r),
        choice_of(r) == choice_of(byte),
        r == if has_value(byte) {
            byte
        } else {
            (byte + 1) as u8
        },
{
    if byte % 2 == 1 {
        byte
    } else {
        byte + 1
    }
}

/// Whether bit 0 of a byte is set.
pub fn value_written(byte: u8) -> (r: bool)
    ensures
        r == has_value(byte),
{
    byte % 2 == 1
}

} // verus!
