//! The engine side: transposition table, search limits and benchmark
//! bookkeeping.

pub mod bench;
pub mod limits;
pub mod tt;

pub use bench::{nps, BenchEntry, BenchReport};
pub use limits::{budget, Limits};
pub use tt::{Bound, Entry, TranspositionTable};

use vstd::prelude::*;

verus! {

/// A position score in centipawns.
pub type Score = i32;

/// Score of being checkmated at this node; a mate `n` plies away is `MATE - n`.
pub const MATE: i32 = 30_000;

/// Upper bound on iterative-deepening depth when no explicit depth is given.
pub const MAX_PLY: u32 = 64;

} // verus!
