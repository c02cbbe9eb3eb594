//! The ways in which an operation of the library can fail.

use vstd::prelude::*;

verus! {

/// Outcome of an operation that could not be carried out.
#[derive(Clone, Copy, PartialEq, Eq, Structural, Debug)]
pub enum Error {
    /// A node handle does not belong to the context it was used with.
    InvalidNode,
    /// The groups of an expression depend on each other in a cycle, or a
    /// sequence of operations uses a value that is never produced.
    MalformedExpr,
    /// Fewer than four registers were asked for.
    BadRegisterLimit,
    /// A tape reads a variable that the caller did not supply.
    VarBindingMissing,
}

} // verus!
