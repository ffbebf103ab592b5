//! Search limits and the score arithmetic the search relies on: mate scores
//! and their distance shifts, the time budget, and late-move reductions.

use vstd::prelude::*;
use crate::board::{Board, Color};

pub mod clock;
pub mod minimax;
pub mod tree;

pub use tree::{Iteration, SearchListener, SearchResult, search, search_inner};

verus! {

/// The score of delivering mate at the root.
pub const MATE: i32 = 30_000;

/// A score beyond the reach of any search.
pub const INFINITY: i32 = 31_000;

/// The score of a draw.
pub const DRAW: i32 = 0;

/// Scores beyond this in magnitude are mate scores.
pub const MATE_BOUND: i32 = 29_000;

/// Late-move reductions apply from this depth on.
pub const LMR_MIN_DEPTH: u32 = 3;

/// Late-move reductions apply from this move number on.
pub const LMR_MIN_INDEX: usize = 4;

/// Constraints on a single search.
#[derive(Debug, Clone, Copy, Default, PartialEq, Eq)]
pub struct Limits {
    /// Stop after completing this depth.
    pub depth: Option<u32>,
    /// Stop once this many nodes have been searched.
    pub nodes: Option<u64>,
    /// Fixed time for this move, in milliseconds.
    pub movetime: Option<u64>,
    /// White's remaining clock, in milliseconds.
    pub wtime: Option<u64>,
    /// Black's remaining clock, in milliseconds.
    pub btime: Option<u64>,
    /// White's increment, in milliseconds.
    pub winc: u64,
    /// Black's increment, in milliseconds.
    pub binc: u64,
    /// Search until told to stop.
    pub infinite: bool,
}

/// `score` moved `distance` plies further from the mate it encodes; scores
/// outside the mate band stay.
pub open spec fn shifted(score: int, distance: int) -> int {
    if score > MATE_BOUND {
        score + distance
    } else if score < -MATE_BOUND {
        score - distance
    } else {
        score
    }
}

/// Moves a mate score `distance` plies further from the mate, leaving ordinary
/// scores alone. A positive score means we mate, so it shifts the other way.
pub fn shift_mate(score: i32, distance: i32) -> (r: i32)
    requires
        i32::MIN <= shifted(score as int, distance as int) <= i32::MAX,
    ensures
        r == shifted(score as int, distance as int),
{
    if score > MATE_BOUND {
        score + distance
    } else if score < -MATE_BOUND {
        score - distance
    } else {
        score
    }
}

/// Rewrites a mate score to be relative to the node it is stored at rather
/// than the root, so probing it at another ply reports the right distance.
pub fn score_to_tt(score: i32, ply: u32) -> (r: i32)
    requires
        ply <= i32::MAX,
        i32::MIN <= shifted(score as int, ply as int) <= i32::MAX,
    ensures
        r == shifted(score as int, ply as int),
{
    shift_mate(score, ply as i32)
}

/// Inverse of [`score_to_tt`].
pub fn score_from_tt(score: i32, ply: u32) -> (r: i32)
    requires
        ply <= i32::MAX,
        i32::MIN <= shifted(score as int, -(ply as int)) <= i32::MAX,
    ensures
        r == shifted(score as int, -(ply as int)),
{
    shift_mate(score, -(ply as i32))
}

/// Shifting a score away from its mate and back by the same nonnegative
/// distance gives it back; scores inside the mate band never move.
pub proof fn lemma_shift_round_trip(score: int, distance: int)
    requires
        distance >= 0,
    ensures
        shifted(shifted(score, distance), -distance) == score,
        -MATE_BOUND <= score <= MATE_BOUND ==> shifted(score, distance) == score,
{
}

/// A score stored at a ply and read back at the same ply is the score that
/// was stored: [`score_from_tt`] undoes [`score_to_tt`].
pub proof fn lemma_tt_round_trip(score: int, ply: int)
    requires
        ply >= 0,
    ensures
        shifted(shifted(score, ply), -ply) == score,
{
    lemma_shift_round_trip(score, ply);
}

/// The moves to mate a score encodes, negative when getting mated.
pub open spec fn mate_moves(score: int) -> Option<int> {
    let a = if score < 0 {
        -score
    } else {
        score
    };
    if a > MATE_BOUND {
        let n = MATE - a + 1;
        // halved rounding toward zero, as integer division does
        let moves = if n >= 0 {
            n / 2
        } else {
            -((-n) / 2)
        };
        Some(
            if score < 0 {
                -moves
            } else {
                moves
            },
        )
    } else {
        None
    }
}

/// A mate score reads as moves to mate with the score's sign: getting
/// mated (a score below `-MATE_BOUND`) gives minus the moves left, half the
/// plies to mate rounded up, and mating gives the moves themselves; a score
/// within the bounds reads as no mate.
pub proof fn mate_moves_follow_the_score(score: int)
    requires
        -MATE <= score <= MATE,
    ensures
        score < -MATE_BOUND ==> mate_moves(score) == Some(-((MATE + score + 1) / 2)) && mate_moves(score)->0 <= 0,
        score > MATE_BOUND ==> mate_moves(score) == Some((MATE - score + 1) / 2) && mate_moves(score)->0 >= 0,
        -MATE_BOUND <= score <= MATE_BOUND ==> mate_moves(score) is None,
        -MATE < score < -MATE_BOUND ==> mate_moves(score)->0 < 0,
        MATE_BOUND < score < MATE ==> mate_moves(score)->0 > 0,
        MATE_BOUND < score ==> mate_moves(-score) == Some(-(mate_moves(score)->0)),
{
}

/// Moves to mate if the score encodes one, negative when getting mated.
pub fn mate_in(score: i32) -> (m: Option<i32>)
    requires
        score > i32::MIN,
    ensures
        m matches Some(v) ==> mate_moves(score as int) == Some(v as int),
        m is None <==> mate_moves(score as int) is None,
        -MATE <= score < -MATE_BOUND ==> m == Some((-((MATE + score + 1) / 2)) as i32),
        MATE_BOUND < score <= MATE ==> m == Some(((MATE - score + 1) / 2) as i32),
        -MATE_BOUND <= score <= MATE_BOUND ==> m is None,
{
    let a = if score < 0 {
        -score
    } else {
        score
    };
    if a > MATE_BOUND {
        let moves = (MATE - a + 1) / 2;
        Some(
            if score < 0 {
                -moves
            } else {
                moves
            },
        )
    } else {
        None
    }
}

/// The time to spend on the move, in milliseconds: none for an infinite
/// search, the fixed move time (at least 1) when given, else a twentieth of
/// the side's clock plus half its increment, kept 50 ms inside the clock and
/// at least 1; none when the side's clock is not given.
pub open spec fn budget_for(side: Color, limits: Limits) -> Option<u64> {
    if limits.infinite {
        None
    } else if limits.movetime is Some {
        let t = limits.movetime->0;
        Some(
            if t < 1 {
                1
            } else {
                t
            },
        )
    } else {
        let clock = if side == Color::White {
            limits.wtime
        } else {
            limits.btime
        };
        let inc = if side == Color::White {
            limits.winc
        } else {
            limits.binc
        };
        match clock {
            None => None,
            Some(remaining) => {
                let budget = remaining / 20 + inc / 2;
                let margin = if remaining < 50 {
                    0
                } else {
                    remaining - 50
                };
                let capped = if budget < margin {
                    budget
                } else {
                    margin
                };
                Some(
                    if capped < 1 {
                        1
                    } else {
                        capped as u64
                    },
                )
            },
        }
    }
}

/// The budget a clock of `remaining` ms with increment `inc` gives: a
/// twentieth of the clock plus half the increment, at most the clock less
/// 50 ms, and at least 1.
pub open spec fn clock_share(remaining: u64, inc: u64) -> int {
    let share = remaining / 20 + inc / 2;
    let room = if remaining < 50 {
        0
    } else {
        remaining - 50
    };
    let capped = if share < room {
        share
    } else {
        room
    };
    if capped < 1 {
        1
    } else {
        capped
    }
}

/// The budget of the side to move depends on its own clock and increment
/// only: two sets of limits that agree on the mode (infinite, fixed move
/// time) and on that side's clock and increment give the same budget,
/// whatever the other side's clock and increment; without a fixed move
/// time the budget is the side's share of its clock, and none without it.
pub proof fn budget_follows_own_clock(side: Color, a: Limits, b: Limits)
    requires
        a.infinite == b.infinite,
        a.movetime == b.movetime,
        side == Color::White ==> a.wtime == b.wtime && a.winc == b.winc,
        side == Color::Black ==> a.btime == b.btime && a.binc == b.binc,
    ensures
        budget_for(side, a) == budget_for(side, b),
        !a.infinite && a.movetime is None && side == Color::Black ==> budget_for(side, a) == match a.btime {
            Some(t) => Some(clock_share(t, a.binc) as u64),
            None => None,
        },
        !a.infinite && a.movetime is None && side == Color::White ==> budget_for(side, a) == match a.wtime {
            Some(t) => Some(clock_share(t, a.winc) as u64),
            None => None,
        },
{
}

/// The time to spend on the move in `board` under `limits` (see
/// [`budget_for`]).
pub fn time_budget(board: &Board, limits: Limits) -> (t: Option<u64>)
    ensures
        t == budget_for(board.spec_state().spec_side(), limits),
        !limits.infinite && limits.movetime is None ==> t == match (if board.spec_state().spec_side() == Color::White {
            limits.wtime
        } else {
            limits.btime
        }) {
            Some(r) => Some(clock_share(r, if board.spec_state().spec_side() == Color::White {
                limits.winc
            } else {
                limits.binc
            }) as u64),
            None => None,
        },
        board.spec_state().spec_side() == Color::Black && !limits.infinite && limits.movetime is None
            ==> t == match limits.btime {
            Some(r) => Some(clock_share(r, limits.binc) as u64),
            None => None,
        },
{
    if limits.infinite {
        return None;
    }
    if let Some(movetime) = limits.movetime {
        return Some(
            if movetime < 1 {
                1
            } else {
                movetime
            },
        );
    }
    let (clock, increment) = match board.state().side_to_move() {
        Color::White => (limits.wtime, limits.winc),
        Color::Black => (limits.btime, limits.binc),
    };
    let remaining = match clock {
        Some(r) => r,
        None => {
            return None;
        },
    };
    let budget = remaining / 20 + increment / 2;
    let margin = remaining.saturating_sub(50);
    let capped = if budget < margin {
        budget
    } else {
        margin
    };
    Some(
        if capped < 1 {
            1
        } else {
            capped
        },
    )
}

/// The reduction for a quiet move: the table entry for the depth and move
/// number (each clamped to the table), kept between 1 and `depth - 2` (or 1).
pub open spec fn reduction_of(entry: u8, depth: u32) -> u32 {
    let hi = if depth < 3 {
        1
    } else {
        (depth - 2) as u32
    };
    if entry < 1 {
        1
    } else if entry > hi {
        hi
    } else {
        entry as u32
    }
}

/// The late-move reduction for the move at `index` in a `depth`-ply search,
/// read from `table` (by depth, then move number, each clamped to 63).
pub fn lmr_reduction(table: &[[u8; 64]; 64], depth: u32, index: usize) -> (r: u32)
    ensures
        r == reduction_of(
            table@[if depth > 63 {
                63int
            } else {
                depth as int
            }]@[if index > 63 {
                63int
            } else {
                index as int
            }],
            depth,
        ),
{
    let d: usize = if depth > 63 {
        63
    } else {
        depth as usize
    };
    let i: usize = if index > 63 {
        63
    } else {
        index
    };
    let entry = table[d][i];
    let hi: u32 = if depth < 3 {
        1
    } else {
        depth - 2
    };
    if entry < 1 {
        1
    } else if entry as u32 > hi {
        hi
    } else {
        entry as u32
    }
}

/// A reduced move is reduced by at least one ply and never into quiescence:
/// from [`LMR_MIN_DEPTH`] on, at least one ply of main search remains.
pub proof fn lemma_reduction_leaves_a_ply(entry: u8, depth: u32)
    requires
        depth >= LMR_MIN_DEPTH,
    ensures
        reduction_of(entry, depth) >= 1,
        depth - 1 - reduction_of(entry, depth) >= 1,
{
}

} // verus!
