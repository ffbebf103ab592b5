use std::sync::atomic::AtomicBool;
use std::time::Instant;

use lattice::board::Board;
use lattice::eval::position::evaluate;
use lattice::movegen::{generate_captures, generate_legal, MoveList};
use lattice::search::tree::{in_check, negamax_root, qsearch, searchable, see, terminal_score, Ctx, MAX_QPLY};
use lattice::search::{mate_in, Limits, INFINITY, LMR_MIN_DEPTH};
use lattice::tt::TranspositionTable;

/// The reduction table the engine builds at startup.
fn lmr_table() -> &'static [[u8; 64]; 64] {
    let mut table = [[0u8; 64]; 64];
    for (depth, row) in table.iter_mut().enumerate().skip(1) {
        for (index, slot) in row.iter_mut().enumerate().skip(1) {
            let reduction = 0.10 + (depth as f64).ln() * (index as f64).ln() * 0.40;
            *slot = reduction.max(0.0) as u8;
        }
    }
    Box::leak(Box::new(table))
}

/// A fresh search state for the iteration `depth`, every feature on.
fn test_ctx(depth: u32) -> Ctx<'static> {
    let stop: &'static AtomicBool = Box::leak(Box::new(AtomicBool::new(false)));
    let mut ctx = Ctx::new(Limits::default(), stop, Instant::now(), None, lmr_table());
    ctx.set_iteration(depth);
    ctx
}

/// A search state whose leaves are the static evaluation, with null-move
/// pruning, reverse futility, check extensions and late-move reductions off,
/// matching `plain_negamax`.
fn static_leaf_ctx(depth: u32) -> Ctx<'static> {
    let mut ctx = test_ctx(depth);
    ctx.set_quiesce_leaves(false);
    ctx.set_null_move(false);
    ctx.set_reverse_futility(false);
    ctx.set_check_extension(false);
    ctx.set_late_move_reductions(false);
    ctx
}

fn board(fen: &str) -> Board {
    fen.parse().unwrap()
}

/// Unpruned negamax with a static-evaluation leaf: the oracle the pruned
/// search is compared with.
fn plain_negamax(board: &mut Board, depth: u32, ply: u32, nodes: &mut u64) -> i32 {
    *nodes += 1;
    if depth == 0 {
        return evaluate(board);
    }
    let mut moves = MoveList::new();
    generate_legal(board, &mut moves);
    if moves.is_empty() {
        return terminal_score(board, ply);
    }
    let mut best = -INFINITY;
    for &mv in moves.as_slice().iter() {
        board.make(mv);
        let score = -plain_negamax(board, depth - 1, ply + 1, nodes);
        board.unmake(mv);
        best = best.max(score);
    }
    best
}

fn root(board: &mut Board, depth: u32, ctx: &mut Ctx<'static>, tt: &mut TranspositionTable) -> (Option<lattice::board::Move>, i32) {
    negamax_root(board, tt, depth, -INFINITY, INFINITY, ctx).ok().unwrap()
}

const STARTPOS: &str = "rnbqkbnr/pppppppp/8/8/8/8/PPPPPPPP/RNBQKBNR w KQkq - 0 1";
const KIWIPETE: &str = "r3k2r/p1ppqpb1/bn2pnp1/3PN3/1p2P3/2N2Q1p/PPPBBPPP/R3K2R w KQkq - 0 1";
const POSITION3: &str = "8/2p5/3p4/KP5r/1R3p1k/8/4P1P1/8 w - - 0 1";
const POSITION4: &str = "r2q1rk1/pP1p2pp/Q4n2/bbp1p3/Np6/1B3NBn/pPPP1PPP/R3K2R b KQ - 0 1";

#[test]
fn bare_pawn_zugzwang_suppresses_null_move_pruning() {
    let fen = "8/5pk1/6p1/3p4/3P4/6P1/5PK1/8 w - - 0 1";
    let mut enabled = test_ctx(5);
    let enabled_score = root(&mut board(fen), 5, &mut enabled, &mut TranspositionTable::new()).1;
    let mut disabled = test_ctx(5);
    disabled.set_null_move(false);
    let disabled_score = root(&mut board(fen), 5, &mut disabled, &mut TranspositionTable::new()).1;
    assert_eq!(enabled_score, disabled_score);
    assert_eq!(enabled.nodes(), disabled.nodes());
}

#[test]
fn null_move_pruning_reduces_nodes() {
    let mut enabled = test_ctx(8);
    root(&mut board(STARTPOS), 8, &mut enabled, &mut TranspositionTable::new());
    let mut disabled = test_ctx(8);
    disabled.set_null_move(false);
    root(&mut board(STARTPOS), 8, &mut disabled, &mut TranspositionTable::new());
    assert!(
        enabled.nodes() < disabled.nodes(),
        "NMP did not reduce nodes: {} vs {}",
        enabled.nodes(),
        disabled.nodes()
    );
}

#[test]
fn late_move_reductions_reduce_nodes() {
    let mut enabled = test_ctx(5);
    root(&mut board(STARTPOS), 5, &mut enabled, &mut TranspositionTable::new());
    let mut disabled = test_ctx(5);
    disabled.set_late_move_reductions(false);
    root(&mut board(STARTPOS), 5, &mut disabled, &mut TranspositionTable::new());
    assert!(enabled.lmr_reductions() > 0, "LMR never fired");
    assert!(
        enabled.nodes() < disabled.nodes(),
        "LMR did not reduce nodes: {} vs {}",
        enabled.nodes(),
        disabled.nodes()
    );
}

#[test]
fn root_moves_are_not_reduced() {
    let mut ctx = test_ctx(LMR_MIN_DEPTH);
    root(&mut board(STARTPOS), LMR_MIN_DEPTH, &mut ctx, &mut TranspositionTable::new());
    assert_eq!(ctx.lmr_reductions(), 0, "LMR reached a root move");
}

#[test]
fn pvs_preserves_scores_and_reduces_nodes() {
    let mut alpha_beta_nodes = 0;
    let mut pvs_nodes = 0;
    for fen in [STARTPOS, KIWIPETE, POSITION3, POSITION4] {
        let mut b = board(fen);
        let mut alpha_beta_ctx = static_leaf_ctx(3);
        alpha_beta_ctx.set_pvs(false);
        let alpha_beta = root(&mut b, 3, &mut alpha_beta_ctx, &mut TranspositionTable::new()).1;
        alpha_beta_nodes += alpha_beta_ctx.nodes();
        let mut pvs_ctx = static_leaf_ctx(3);
        let pvs = root(&mut b, 3, &mut pvs_ctx, &mut TranspositionTable::new()).1;
        pvs_nodes += pvs_ctx.nodes();
        assert_eq!(pvs, alpha_beta, "PVS changed the score for {fen}");
    }
    assert!(
        pvs_nodes < alpha_beta_nodes,
        "PVS did not reduce nodes: {pvs_nodes} vs {alpha_beta_nodes}"
    );
}

#[test]
fn root_and_interior_agree_with_the_oracle_on_every_pvs_path() {
    let fens = [STARTPOS, KIWIPETE, POSITION3, "6k1/5ppp/8/8/8/8/5PPP/R5K1 w - - 0 1"];
    for fen in fens {
        for depth in 1..=3 {
            let mut b = board(fen);
            let mut nodes = 0;
            let expected = plain_negamax(&mut b, depth, 0, &mut nodes);
            let mut ctx = static_leaf_ctx(depth);
            let (_, score) = root(&mut b, depth, &mut ctx, &mut TranspositionTable::new());
            assert_eq!(score, expected, "{fen} at depth {depth}");
        }
    }
}

#[test]
fn pruning_preserves_scores() {
    for fen in [STARTPOS, KIWIPETE, POSITION3, POSITION4] {
        let mut b = board(fen);
        let mut plain_nodes = 0;
        let expected = plain_negamax(&mut b, 3, 0, &mut plain_nodes);
        let mut ctx = static_leaf_ctx(3);
        let (best_move, score) = root(&mut b, 3, &mut ctx, &mut TranspositionTable::new());
        assert_eq!(score, expected, "score changed for {fen}");
        assert!(best_move.is_some());
        assert!(ctx.nodes() < plain_nodes, "no pruning for {fen}: {} vs {plain_nodes}", ctx.nodes());
    }
}

#[test]
fn search_filters_legality_exactly_as_generate_legal_does() {
    let fens = [
        "8/8/8/K2pP2r/8/8/8/7k w - d6 0 1",
        "4k3/8/8/8/8/8/3n4/3KR3 b - - 0 1",
        "r3k2r/8/8/8/8/8/8/R3K2R w KQkq - 0 1",
        "4k3/8/8/8/8/2n5/3PPP2/r3K3 w - - 0 1",
        "7k/5Q2/6K1/8/8/8/8/8 b - - 0 1",
        "7k/6Q1/6K1/8/8/8/8/8 b - - 0 1",
    ];
    for fen in fens {
        for depth in 1..=3 {
            let mut b = board(fen);
            let mut nodes = 0;
            let expected = plain_negamax(&mut b, depth, 0, &mut nodes);
            let mut ctx = static_leaf_ctx(depth);
            let (_, score) = root(&mut b, depth, &mut ctx, &mut TranspositionTable::new());
            assert_eq!(score, expected, "{fen} at depth {depth}");
        }
    }
}

#[test]
fn ordering_reduces_the_tree() {
    // The kiwipete perft(4) count: leaves alone bound the unpruned tree.
    const UNPRUNED: u64 = 4_085_603;
    let mut ctx = static_leaf_ctx(4);
    root(&mut board(KIWIPETE), 4, &mut ctx, &mut TranspositionTable::new());
    assert!(
        ctx.nodes() * 64 < UNPRUNED,
        "ordering should cut the tree hard: {} vs {UNPRUNED}",
        ctx.nodes()
    );
}

#[test]
fn reverse_futility_does_not_change_a_mate_verdict() {
    let fen = "7k/7p/5R1R/8/8/8/8/6K1 b - - 0 1";
    let score = |rfp: bool| {
        let mut ctx = test_ctx(10);
        ctx.set_reverse_futility(rfp);
        root(&mut board(fen), 10, &mut ctx, &mut TranspositionTable::new()).1
    };
    let (with, without) = (score(true), score(false));
    assert!(mate_in(without).is_some(), "the position must be a mate: {without}");
    assert_eq!(with, without, "reverse futility changed a mate score");
}

#[test]
fn reverse_futility_does_not_prune_in_check() {
    let fen = "4k3/8/8/8/8/8/4r3/4K2Q w - - 0 1";
    let score = |rfp: bool| {
        let mut ctx = test_ctx(4);
        ctx.set_reverse_futility(rfp);
        root(&mut board(fen), 4, &mut ctx, &mut TranspositionTable::new()).1
    };
    assert_eq!(score(true), score(false), "reverse futility pruned a node in check");
}

#[test]
fn reverse_futility_prunes() {
    let nodes = |rfp: bool| {
        let mut ctx = test_ctx(6);
        ctx.set_reverse_futility(rfp);
        root(&mut board(KIWIPETE), 6, &mut ctx, &mut TranspositionTable::new());
        ctx.total()
    };
    let (on, off) = (nodes(true), nodes(false));
    assert!(on < off, "reverse futility did not prune: {on} vs {off}");
}

#[test]
fn checks_are_extended() {
    let nodes = |extend: bool| {
        let mut ctx = test_ctx(6);
        ctx.set_check_extension(extend);
        root(&mut board(KIWIPETE), 6, &mut ctx, &mut TranspositionTable::new());
        ctx.total()
    };
    let (on, off) = (nodes(true), nodes(false));
    assert!(on > off, "checks were not extended: {on} vs {off}");
}

#[test]
fn tt_does_not_change_scores() {
    for fen in [STARTPOS, KIWIPETE, POSITION3, POSITION4] {
        let mut b = board(fen);
        let mut plain_nodes = 0;
        let expected = plain_negamax(&mut b, 3, 0, &mut plain_nodes);
        let mut ctx = static_leaf_ctx(3);
        let mut tt = TranspositionTable::new();
        let cold = root(&mut b, 3, &mut ctx, &mut tt).1;
        assert_eq!(cold, expected, "cold TT changed the score for {fen}");
        let warm = root(&mut b, 3, &mut ctx, &mut tt).1;
        assert_eq!(warm, expected, "warm TT changed the score for {fen}");
    }
}

/// Quiescence spelled out without a window: stand pat out of check, every
/// legal move in check, and the legal captures that promote or do not lose
/// material otherwise.
fn plain_quiescence(board: &mut Board, qply: u32, ply: u32) -> i32 {
    if !searchable(board) {
        return 0;
    }
    if qply >= MAX_QPLY {
        return evaluate(board);
    }
    let us = board.state().side_to_move();
    let checked = in_check(board, us);
    let mut moves = MoveList::new();
    if checked {
        generate_legal(board, &mut moves);
        if moves.is_empty() {
            return terminal_score(board, ply);
        }
    } else {
        generate_captures(board, &mut moves);
    }
    let mut best = if checked { -INFINITY } else { evaluate(board) };
    for &mv in moves.as_slice().iter() {
        if !checked && !mv.is_promotion() && see(board, mv) < 0 {
            continue;
        }
        board.make(mv);
        if !checked && in_check(board, us) {
            board.unmake(mv);
            continue;
        }
        let score = -plain_quiescence(board, qply + 1, ply + 1);
        board.unmake(mv);
        best = best.max(score);
    }
    best
}

#[test]
fn root_with_the_table_off_matches_the_oracle_and_its_move_attains_the_score() {
    let fens = [STARTPOS, KIWIPETE, POSITION3, POSITION4, "6k1/5ppp/8/8/8/8/5PPP/R5K1 w - - 0 1"];
    for fen in fens {
        for depth in 1..=3 {
            let mut b = board(fen);
            let mut nodes = 0;
            let expected = plain_negamax(&mut b, depth, 0, &mut nodes);
            let mut ctx = static_leaf_ctx(depth);
            ctx.set_table(false);
            let (best_move, score) = root(&mut b, depth, &mut ctx, &mut TranspositionTable::new());
            assert_eq!(score, expected, "{fen} at depth {depth}");
            let mv = best_move.expect("a legal move exists");
            b.make(mv);
            let reply = -plain_negamax(&mut b, depth - 1, 1, &mut nodes);
            b.unmake(mv);
            assert_eq!(reply, score, "the move for {fen} at depth {depth} does not reach the score");
        }
    }
}

#[test]
fn the_mated_root_scores_its_terminal_value_with_the_table_off() {
    let mut b = board("R5k1/5ppp/8/8/8/8/8/6K1 b - - 0 1");
    let mut ctx = static_leaf_ctx(2);
    ctx.set_table(false);
    let (best_move, score) = root(&mut b, 2, &mut ctx, &mut TranspositionTable::new());
    assert!(best_move.is_none());
    assert_eq!(score, -30_000);
}

#[test]
fn quiescence_with_a_full_window_matches_the_oracle() {
    let fens = [
        STARTPOS,
        KIWIPETE,
        POSITION3,
        POSITION4,
        "R5k1/5ppp/8/8/8/8/8/6K1 b - - 0 1",
        "R5k1/5pp1/8/8/8/8/8/6K1 b - - 0 1",
        "4k3/8/8/3q4/4P3/8/8/4K3 w - - 0 1",
        "4k3/8/8/3p4/4Q3/8/8/4K3 w - - 0 1",
    ];
    for fen in fens {
        let mut b = board(fen);
        let expected = plain_quiescence(&mut b, 0, 0);
        let mut ctx = test_ctx(1);
        let score = qsearch(&mut b, 0, 0, -INFINITY, INFINITY, &mut ctx).ok().unwrap();
        assert_eq!(score, expected, "{fen}");
    }
}

/// Unpruned negamax whose leaves are the quiescence oracle.
fn plain_negamax_quiescent(board: &mut Board, depth: u32, ply: u32) -> i32 {
    if depth == 0 {
        return plain_quiescence(board, 0, ply);
    }
    let mut moves = MoveList::new();
    generate_legal(board, &mut moves);
    if moves.is_empty() {
        return terminal_score(board, ply);
    }
    let mut best = -INFINITY;
    for &mv in moves.as_slice().iter() {
        board.make(mv);
        let score = -plain_negamax_quiescent(board, depth - 1, ply + 1);
        board.unmake(mv);
        best = best.max(score);
    }
    best
}

#[test]
fn quiescent_leaves_match_the_oracle_with_pruning_and_the_table_off() {
    let fens = [STARTPOS, POSITION3, "6k1/5ppp/8/8/8/8/5PPP/R5K1 w - - 0 1", "4k3/8/8/3p4/4Q3/8/8/4K3 w - - 0 1"];
    for fen in fens {
        for depth in 1..=2 {
            let mut b = board(fen);
            let expected = plain_negamax_quiescent(&mut b, depth, 0);
            let mut ctx = test_ctx(depth);
            ctx.set_null_move(false);
            ctx.set_reverse_futility(false);
            ctx.set_check_extension(false);
            ctx.set_late_move_reductions(false);
            ctx.set_table(false);
            let (_, score) = root(&mut b, depth, &mut ctx, &mut TranspositionTable::new());
            assert_eq!(score, expected, "{fen} at depth {depth}");
        }
    }
}
