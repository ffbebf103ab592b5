//! Stopping conditions for a search and the clock budget for one move.
//! Times are whole microseconds.
use vstd::prelude::*;
use crate::lattice_engine::MAX_PLY;

verus! {

/// Stopping conditions for a search; it halts as soon as any configured
/// limit is hit.
#[derive(Debug, Clone, Copy, Default, PartialEq, Eq, Structural)]
pub struct Limits {
    /// Hard cap on iterative-deepening depth.
    pub depth: Option<u32>,
    /// Node budget.
    pub nodes: Option<u64>,
    /// Wall-clock budget for the whole search, in microseconds.
    pub move_time: Option<u64>,
}

impl Limits {
    /// A pure depth limit: search exactly `depth` plies.
    pub fn to_depth(depth: u32) -> (l: Limits)
        ensures
            l == (Limits { depth: Some(depth), nodes: None, move_time: None }),
    {
        Limits { depth: Some(depth), nodes: None, move_time: None }
    }

    /// A pure node budget.
    pub fn to_nodes(nodes: u64) -> (l: Limits)
        ensures
            l == (Limits { depth: None, nodes: Some(nodes), move_time: None }),
    {
        Limits { depth: None, nodes: Some(nodes), move_time: None }
    }

    /// A pure wall-clock budget, in microseconds.
    pub fn to_move_time(move_time: u64) -> (l: Limits)
        ensures
            l == (Limits { depth: None, nodes: None, move_time: Some(move_time) }),
    {
        Limits { depth: None, nodes: None, move_time: Some(move_time) }
    }

    /// Depth at which to stop iterative deepening: the explicit cap, or
    /// [`MAX_PLY`] when only a node or time budget bounds the search.
    pub fn max_depth(&self) -> (d: u32)
        ensures
            d == (match self.depth {
                Some(x) => x,
                None => MAX_PLY,
            }),
    {
        match self.depth {
            Some(x) => x,
            None => MAX_PLY,
        }
    }
}

/// Time to allot one move given the clock left and the per-move increment
/// (microseconds): `remaining / 20 + increment / 2`.
pub fn budget(remaining: u64, increment: u64) -> (b: u64)
    ensures
        b == remaining / 20 + increment / 2,
{
    remaining / 20 + increment / 2
}

} // verus!
