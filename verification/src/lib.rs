//! Implicit-surface expressions compiled to register tapes, evaluated on
//! points and intervals, and specialised by the choices an interval
//! evaluation records.
//!
//! An expression is built in a `context`.  `plan` schedules it: `schedule`
//! finds what is reachable, inline, and a choice; `groups` and `members`
//! group the nodes by the conditions under which they are needed; `order`
//! orders the groups.  `ssa` lowers the schedule to operations on symbolic
//! slots, and `allocator` rewrites those to operations on registers, by the
//! rules that `policy` writes down; `sound` shows that the rewriting keeps
//! what is computed, which `term` defines.  `tape` holds the result, and
//! `straight` shows that an expression without a minimum or maximum always
//! has one, and `unique` that an expression has no more than one.  `point`,
//! `interval` and `grad` evaluate a tape; `simplify` specialises it by
//! recorded choices, and `laws` says what evaluation and specialisation have
//! to do with each other.  `render` draws a tape, tile by tile.  Values are
//! binary32 bit patterns, with the arithmetic of `scalar` and `root`.

pub mod allocator;
pub mod choice;
pub mod closure;
pub mod context;
pub mod error;
pub mod family;
pub mod grad;
pub mod groups;
pub mod interval;
pub mod laws;
pub mod members;
pub mod mesh;
pub mod op;
pub mod order;
pub mod plan;
pub mod policy;
pub mod point;
pub mod render;
pub mod root;
pub mod scalar;
pub mod simplify;
pub mod sound;
pub mod schedule;
pub mod ssa;
pub mod straight;
pub mod tape;
pub mod term;
pub mod unique;
