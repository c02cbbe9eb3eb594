//! Settings of octree construction and meshing.

use vstd::prelude::*;

verus! {

/// Settings when building an octree and mesh.
#[derive(Copy, Clone, Debug)]
pub struct Settings {
    /// Number of threads to use.
    ///
    /// 0 indicates to use the single-threaded evaluator; other values will
    /// spin up that many threads to perform octree construction in parallel.
    pub threads: u8,
    /// Minimum depth to recurse in the octree.
    pub min_depth: u8,
    /// Maximum depth to recurse in the octree.
    ///
    /// If this is above `min_depth`, then after the octree is initially built
    /// (recursing to `min_depth`), cells with escaped vertices are subdivided
    /// recursively up to a limit of `max_depth`.
    pub max_depth: u8,
}

} // verus!
