//! An automatic-differentiation core built around a bipartite dependency
//! graph: tensor-valued data nodes connected through operator nodes, backed by
//! a generation-tagged handle arena, evaluated by a readiness-driven walk that
//! drives both forward evaluation and reverse-mode gradient propagation.

pub mod collection;
pub mod compute_graph;
pub mod op;
pub mod tensor;
pub mod var;

use vstd::prelude::*;

verus! {

/// Failures surfaced by the network and arena layer.
#[derive(Clone, Copy, PartialEq, Eq, Structural, Debug)]
pub enum AutoDiffError {
    /// A lookup or removal against a stale or out-of-range handle.
    InvalidHandle,
    /// A node handle was registered twice in the same node set.
    DuplicateNode,
    /// A node handle was not registered in the expected node set.
    UnknownNode,
    /// A gradient was requested before a backward pass recorded one.
    NoGradient,
    /// A walk could not drain all ready data nodes.
    WalkIncomplete,
}

} // verus!
