use lattice::search::{
    lmr_reduction, score_from_tt, score_to_tt, shift_mate, LMR_MIN_DEPTH, LMR_MIN_INDEX, MATE,
    MATE_BOUND,
};

/// The reduction table the engine builds at startup, by depth then move
/// number: `0.10 + 0.40 * ln(depth) * ln(index)`, floored at zero.
fn lmr_table() -> [[u8; 64]; 64] {
    let mut table = [[0u8; 64]; 64];
    for (depth, row) in table.iter_mut().enumerate().skip(1) {
        for (index, slot) in row.iter_mut().enumerate().skip(1) {
            let reduction = 0.10 + (depth as f64).ln() * (index as f64).ln() * 0.40;
            *slot = reduction.max(0.0) as u8;
        }
    }
    table
}

#[test]
fn the_reduction_grows_with_depth_and_move_number() {
    let table = lmr_table();
    let lmr = |depth: u32, index: usize| lmr_reduction(&table, depth, index);
    for index in [4, 8, 16, 32] {
        for depth in 4..40u32 {
            assert!(
                lmr(depth + 1, index) >= lmr(depth, index),
                "depth {depth} -> {} but {} -> {} at index {index}",
                lmr(depth, index),
                depth + 1,
                lmr(depth + 1, index),
            );
        }
    }
    for depth in [4, 8, 16, 32] {
        for index in 4..40usize {
            assert!(
                lmr(depth, index + 1) >= lmr(depth, index),
                "index {index} -> {} but {} -> {} at depth {depth}",
                lmr(depth, index),
                index + 1,
                lmr(depth, index + 1),
            );
        }
    }
    assert!(
        lmr(32, 32) > lmr(4, 4),
        "a late move at high depth must reduce more than an early one at low depth"
    );
    assert!(
        lmr(32, 8) > lmr(4, 8),
        "reduction must grow with depth at a fixed move number"
    );
    assert!(
        lmr(8, 32) > lmr(8, 4),
        "reduction must grow with move number at a fixed depth"
    );
}

#[test]
fn a_reduction_never_reaches_quiescence() {
    let table = lmr_table();
    for depth in LMR_MIN_DEPTH..64 {
        for index in LMR_MIN_INDEX..64 {
            let reduction = lmr_reduction(&table, depth, index);
            assert!(
                reduction >= 1,
                "an eligible move must be reduced: depth {depth} index {index}"
            );
            assert!(
                depth.saturating_sub(1 + reduction) >= 1,
                "depth {depth} index {index} reduced by {reduction} lands in quiescence"
            );
        }
    }
}

#[test]
fn mate_score_shifts_are_inverses_and_spare_ordinary_scores() {
    for distance in [0, 1, 5, 30] {
        for score in [-MATE + 3, -MATE + 40, 0, 250, -700, MATE - 40, MATE - 3] {
            assert_eq!(shift_mate(shift_mate(score, distance), -distance), score);
        }
    }
    assert_eq!(shift_mate(MATE_BOUND, 7), MATE_BOUND);
    assert_eq!(shift_mate(-MATE_BOUND, 7), -MATE_BOUND);
    assert_eq!(shift_mate(MATE_BOUND + 1, 7), MATE_BOUND + 8);
    assert_eq!(shift_mate(-MATE_BOUND - 1, 7), -MATE_BOUND - 8);
}

#[test]
fn tt_scores_survive_a_ply_shift() {
    for ply in [0, 1, 5, 30] {
        for score in [-MATE + 3, -MATE + 40, 0, 250, -700, MATE - 40, MATE - 3] {
            assert_eq!(
                score_from_tt(score_to_tt(score, ply), ply),
                score,
                "score {score} at ply {ply}"
            );
        }
    }
    assert_eq!(score_to_tt(250, 7), 250);
    assert_eq!(score_to_tt(MATE - 3, 7), MATE + 4);
    assert_eq!(score_to_tt(-MATE + 3, 7), -MATE - 4);
}
