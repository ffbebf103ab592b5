use std::sync::atomic::AtomicBool;
use std::time::{Duration, Instant};

use lattice::board::{Board, Color, Move, MoveType, PieceType};
use lattice::eval::position::evaluate;
use lattice::eval::TEMPO;
use lattice::movegen::{generate_legal, is_attacked, MoveList};
use lattice::search::tree::{
    check_extension, in_check, lmr_eligible, negamax_root, order_key, order_moves, qsearch, see,
    terminal_score, Ctx, MAX_PLY, ORDER_VALUES,
};
use lattice::search::{
    mate_in, search_inner, time_budget, Limits, SearchResult, DRAW, INFINITY, LMR_MIN_DEPTH,
    LMR_MIN_INDEX, MATE, MATE_BOUND,
};
use lattice::tt::TranspositionTable;
use lattice::uci::{move_text, UciListener};

/// The reduction table the engine builds at startup.
fn lmr_table() -> [[u8; 64]; 64] {
    let mut table = [[0u8; 64]; 64];
    for (depth, row) in table.iter_mut().enumerate().skip(1) {
        for (index, slot) in row.iter_mut().enumerate().skip(1) {
            let reduction = 0.10 + (depth as f64).ln() * (index as f64).ln() * 0.40;
            *slot = reduction.max(0.0) as u8;
        }
    }
    table
}

fn board(fen: &str) -> Board {
    fen.parse().unwrap()
}

fn legal_moves(board: &mut Board) -> Vec<Move> {
    let mut moves = MoveList::new();
    generate_legal(board, &mut moves);
    moves.as_slice().to_vec()
}

fn find_move(board: &mut Board, text: &str) -> Move {
    legal_moves(board)
        .into_iter()
        .find(|mv| move_text(*mv) == text)
        .unwrap_or_else(|| panic!("{text} is not legal here"))
}

/// Searches the root of `fen` at `depth` with fresh tables.
fn root_score(fen: &str, depth: u32) -> (Option<Move>, i32, u64) {
    let stop = AtomicBool::new(false);
    let table = lmr_table();
    let mut tt = TranspositionTable::new();
    let mut ctx = Ctx::new(Limits::default(), &stop, Instant::now(), None, &table);
    ctx.set_iteration(depth);
    let mut board = board(fen);
    let (best, score) = negamax_root(&mut board, &mut tt, depth, -INFINITY, INFINITY, &mut ctx)
        .ok()
        .unwrap();
    (best, score, ctx.total())
}

fn quiesce(fen: &str) -> (i32, u64) {
    let stop = AtomicBool::new(false);
    let table = lmr_table();
    let mut ctx = Ctx::new(Limits::default(), &stop, Instant::now(), None, &table);
    let mut board = board(fen);
    let score = qsearch(&mut board, 0, 0, -INFINITY, INFINITY, &mut ctx)
        .ok()
        .unwrap();
    (score, ctx.qnodes())
}

fn run(fen: &str, depth: u32) -> (SearchResult, String) {
    let mut board = board(fen);
    let mut listener = UciListener::new(Vec::new());
    let table = lmr_table();
    let mut tt = TranspositionTable::new();
    let result = search_inner(
        &mut board,
        Limits {
            depth: Some(depth),
            ..Limits::default()
        },
        &AtomicBool::new(false),
        &mut tt,
        &table,
        &mut listener,
    );
    (result, String::from_utf8(listener.into_inner()).unwrap())
}

fn see_of(fen: &str, from: &str, to: &str) -> i32 {
    let mut board = board(fen);
    let mv = find_move(&mut board, &format!("{from}{to}"));
    see(&board, mv)
}

#[test]
fn fifty_move_rule_draws_a_won_position() {
    let winning = "7k/8/5K2/8/8/8/8/6Q1 w - - 0 1";
    let expired = "7k/8/5K2/8/8/8/8/6Q1 w - - 100 1";
    let (_, score, _) = root_score(winning, 4);
    assert!(score > MATE_BOUND, "expected a mate score, got {score}");
    let (_, score, _) = root_score(expired, 4);
    assert_eq!(score, DRAW, "an expired clock must draw a won position");
}

#[test]
fn repetition_outranks_material() {
    let fen = "4k3/8/8/8/8/8/8/Q3K3 w - - 0 1";
    let (_, fresh, _) = root_score(fen, 4);
    assert!(fresh > 500, "expected a winning score, got {fresh}");

    let mut board = board(fen);
    for mv in ["a1b1", "e8d8", "b1a1"] {
        let mv = find_move(&mut board, mv);
        board.make(mv);
    }
    assert!(!board.is_repetition(), "the root must not already be a repetition");
    let stop = AtomicBool::new(false);
    let table = lmr_table();
    let mut tt = TranspositionTable::new();
    let mut ctx = Ctx::new(Limits::default(), &stop, Instant::now(), None, &table);
    ctx.set_iteration(4);
    let score = negamax_root(&mut board, &mut tt, 4, -INFINITY, INFINITY, &mut ctx)
        .ok()
        .unwrap()
        .1;
    assert_eq!(score, DRAW, "black is a queen down and must take the repetition");
}

#[test]
fn null_moves_do_not_fabricate_a_repetition() {
    let mut board = board("4k3/8/8/3n4/8/8/4P3/4K3 w - - 4 1");
    assert!(!board.is_repetition());
    board.make_null();
    assert!(!board.is_repetition(), "one null move repeated nothing");
    board.make_null();
    assert!(!board.is_repetition(), "two null moves must not look like a repetition");
    board.unmake_null();
    board.unmake_null();
    assert!(!board.is_repetition());
}

#[test]
fn the_tempo_bonus_does_not_survive_a_null_move() {
    for fen in [
        "r1bqkbnr/pppp1ppp/2n5/4p3/2B1P3/5Q2/PPPP1PPP/RNB1K1NR w KQkq - 0 1",
        "8/2p5/3p4/KP5r/1R3p1k/8/4P1P1/8 w - - 0 1",
        "r3k2r/p1ppqpb1/bn2pnp1/3PN3/1p2P3/2N2Q1p/PPPBBPPP/R3K2R w KQkq - 0 1",
    ] {
        let mut board = board(fen);
        let before = evaluate(&board);
        board.make_null();
        let after = evaluate(&board);
        board.unmake_null();
        assert_eq!(before + after, 2 * TEMPO, "{fen}");
        assert_eq!((before - TEMPO) + (after - TEMPO), 0, "{fen}");
    }
}

#[test]
fn killer_moves_are_not_reduced() {
    let mut board = Board::startpos();
    let mv = find_move(&mut board, "e2e3");
    let stop = AtomicBool::new(false);
    let table = lmr_table();
    let mut ctx = Ctx::new(Limits::default(), &stop, Instant::now(), None, &table);
    ctx.set_iteration(LMR_MIN_DEPTH);
    ctx.store_killer(0, mv);
    board.make(mv);
    assert!(!lmr_eligible(LMR_MIN_DEPTH, LMR_MIN_INDEX, mv, 0, false, &ctx));
}

#[test]
fn moves_that_leave_the_child_in_check_are_not_reduced() {
    let mut board = board("4k3/8/8/8/8/8/R7/K7 w - - 0 1");
    let mv = find_move(&mut board, "a2e2");
    let stop = AtomicBool::new(false);
    let table = lmr_table();
    let ctx = Ctx::new(Limits::default(), &stop, Instant::now(), None, &table);
    board.make(mv);
    let them = board.state().side_to_move();
    let gives_check = is_attacked(&board, board.king_square(them), them.flip());
    assert!(gives_check);
    assert!(in_check(&board, them));
    assert!(!lmr_eligible(LMR_MIN_DEPTH, LMR_MIN_INDEX, mv, 0, gives_check, &ctx));
}

#[test]
fn captures_sort_before_quiets_by_mvv_lva() {
    let stop = AtomicBool::new(false);
    let table = lmr_table();
    let ctx = Ctx::new(Limits::default(), &stop, Instant::now(), None, &table);
    let mut board = board("4k3/8/8/1n1q4/4P3/2N5/8/4K3 w - - 0 1");
    let mut moves = MoveList::new();
    generate_legal(&mut board, &mut moves);
    order_moves(&board, &mut moves, 0, None, [None; 2], &ctx);
    let key = |mv: Move| order_key(&board, mv, None, [None; 2], &ctx);
    let keys: Vec<_> = moves.as_slice().iter().map(|&mv| key(mv)).collect();
    assert!(keys.windows(2).all(|w| w[0] <= w[1]), "not sorted: {keys:?}");

    let first = moves.get(0);
    assert!(first.is_capture());
    assert!(move_text(first).ends_with("d5"), "should take the queen, got {}", move_text(first));
    assert_eq!(board.piece_on(first.from()).unwrap().piece_type(), PieceType::Pawn);

    let quiets = moves.as_slice().iter().filter(|mv| key(**mv) == (0, 0)).count();
    let captures = moves.as_slice().iter().filter(|mv| mv.is_capture()).count();
    assert!(captures >= 2);
    assert!(quiets > 0, "position should have quiet moves too");
}

#[test]
fn killers_sort_between_captures_and_other_quiets() {
    let stop = AtomicBool::new(false);
    let table = lmr_table();
    let ctx = Ctx::new(Limits::default(), &stop, Instant::now(), None, &table);
    let mut board = board("4k3/8/8/1n1q4/4P3/2N5/8/4K3 w - - 0 1");
    let mut moves = MoveList::new();
    generate_legal(&mut board, &mut moves);
    let killer = *moves
        .as_slice()
        .iter()
        .find(|mv| !mv.is_capture() && !mv.is_promotion())
        .unwrap();
    let killers = [Some(killer), None];
    order_moves(&board, &mut moves, 0, None, killers, &ctx);
    let keys: Vec<_> = moves
        .as_slice()
        .iter()
        .map(|&mv| order_key(&board, mv, None, killers, &ctx))
        .collect();
    assert!(keys.windows(2).all(|w| w[0] <= w[1]), "not sorted: {keys:?}");
    let capture = *moves.as_slice().iter().find(|mv| mv.is_capture()).unwrap();
    let quiet = *moves
        .as_slice()
        .iter()
        .find(|mv| !mv.is_capture() && **mv != killer)
        .unwrap();
    assert!(order_key(&board, capture, None, killers, &ctx) < order_key(&board, killer, None, killers, &ctx));
    assert!(order_key(&board, killer, None, killers, &ctx) < order_key(&board, quiet, None, killers, &ctx));
}

#[test]
fn killer_slots_rotate_and_dedupe() {
    let mut board = Board::startpos();
    let moves = legal_moves(&mut board);
    let (a, b) = (moves[0], moves[1]);
    let stop = AtomicBool::new(false);
    let table = lmr_table();
    let mut ctx = Ctx::new(Limits::default(), &stop, Instant::now(), None, &table);
    ctx.store_killer(3, a);
    assert_eq!(ctx.killers_at(3), [Some(a), None]);
    ctx.store_killer(3, a);
    assert_eq!(ctx.killers_at(3), [Some(a), None], "duplicate should not shift");
    ctx.store_killer(3, b);
    assert_eq!(ctx.killers_at(3), [Some(b), Some(a)]);

    ctx.store_killer(MAX_PLY, a);
    ctx.store_killer(u32::MAX, a);
    assert_eq!(ctx.killers_at(MAX_PLY), [None; 2]);
    assert_eq!(ctx.killers_at(u32::MAX), [None; 2]);
}

#[test]
fn history_orders_the_remaining_quiets() {
    let stop = AtomicBool::new(false);
    let table = lmr_table();
    let mut ctx = Ctx::new(Limits::default(), &stop, Instant::now(), None, &table);
    let mut board = board("4k3/8/8/1n1q4/4P3/2N5/8/4K3 w - - 0 1");
    let moves = legal_moves(&mut board);
    let quiets: Vec<_> = moves
        .iter()
        .filter(|mv| !mv.is_capture() && !mv.is_promotion())
        .copied()
        .collect();
    let (killer, scored, unseen) = (quiets[0], quiets[1], quiets[2]);
    let killers = [Some(killer), None];
    // 36 + 4 + 1 + 1: the history count of 42 the ordering reads.
    for depth in [6, 2, 1, 1] {
        ctx.bump_history(Color::White, scored.from(), scored.to(), depth);
    }
    assert_eq!(ctx.history_at(Color::White, scored.from(), scored.to()), 42);

    let capture = *moves.iter().find(|mv| mv.is_capture()).unwrap();
    let key = |mv: Move| order_key(&board, mv, None, killers, &ctx);
    assert!(key(capture) < key(killer));
    assert!(key(killer) < key(scored));
    assert!(key(scored) < key(unseen));
    assert_eq!(key(unseen), (0, 0));
}

#[test]
fn history_bonus_scales_with_depth_and_saturates() {
    let mut board = board("4k3/8/8/8/8/8/4P3/4K3 w - - 0 1");
    let moves = legal_moves(&mut board);
    let (shallow, deep) = (moves[0], moves[1]);
    let stop = AtomicBool::new(false);
    let table = lmr_table();
    let mut ctx = Ctx::new(Limits::default(), &stop, Instant::now(), None, &table);
    ctx.bump_history(Color::White, shallow.from(), shallow.to(), 2);
    ctx.bump_history(Color::White, deep.from(), deep.to(), 5);
    assert_eq!(ctx.history_at(Color::White, shallow.from(), shallow.to()), 4);
    assert_eq!(ctx.history_at(Color::White, deep.from(), deep.to()), 25);

    while ctx.history_at(Color::White, deep.from(), deep.to()) < i32::MAX - 1_000_000 {
        ctx.bump_history(Color::White, deep.from(), deep.to(), 1000);
    }
    ctx.bump_history(Color::White, deep.from(), deep.to(), 1000);
    ctx.bump_history(Color::White, deep.from(), deep.to(), 8);
    assert_eq!(
        ctx.history_at(Color::White, deep.from(), deep.to()),
        i32::MAX,
        "should saturate, not wrap"
    );
}

#[test]
fn en_passant_is_scored_as_a_capture() {
    let stop = AtomicBool::new(false);
    let table = lmr_table();
    let ctx = Ctx::new(Limits::default(), &stop, Instant::now(), None, &table);
    let mut board = board("4k3/8/8/3pP3/8/8/8/4K3 w - d6 0 1");
    let moves = legal_moves(&mut board);
    let ep = *moves
        .iter()
        .find(|mv| mv.move_type() == MoveType::EnPassant)
        .expect("d6 en passant should be legal");
    let key = order_key(&board, ep, None, [None; 2], &ctx);
    assert_ne!(key, (0, 0), "ep scored as a quiet");
    assert_eq!(key.0, -ORDER_VALUES[PieceType::Pawn.index() as usize]);
}

#[test]
fn promotions_outrank_quiets_and_stack_with_capture_value() {
    let stop = AtomicBool::new(false);
    let table = lmr_table();
    let ctx = Ctx::new(Limits::default(), &stop, Instant::now(), None, &table);
    let mut board = board("3r3k/4P3/8/8/8/8/8/4K3 w - - 0 1");
    let moves = legal_moves(&mut board);
    let quiet_promo = *moves
        .iter()
        .find(|mv| mv.is_promotion() && !mv.is_capture() && mv.promoted_piece() == Some(PieceType::Queen))
        .unwrap();
    let promo_capture = *moves
        .iter()
        .find(|mv| mv.is_promotion() && mv.is_capture() && mv.promoted_piece() == Some(PieceType::Queen))
        .unwrap();
    let king_move = *moves.iter().find(|mv| !mv.is_promotion()).unwrap();
    let key = |mv: Move| order_key(&board, mv, None, [None; 2], &ctx);
    assert!(key(promo_capture) < key(quiet_promo));
    assert!(key(quiet_promo) < key(king_move));
    assert_eq!(key(king_move), (0, 0));
}

#[test]
fn cutoffs_populate_the_tables() {
    let stop = AtomicBool::new(false);
    let table = lmr_table();
    let mut tt = TranspositionTable::new();
    let mut ctx = Ctx::new(Limits::default(), &stop, Instant::now(), None, &table);
    ctx.set_iteration(5);
    let mut board = board("8/5pk1/6p1/3p4/3P4/6P1/5PK1/8 w - - 0 1");
    assert!(negamax_root(&mut board, &mut tt, 5, -INFINITY, INFINITY, &mut ctx).is_ok());

    let killers = (0..MAX_PLY)
        .flat_map(|ply| ctx.killers_at(ply))
        .filter(|k| k.is_some())
        .count();
    assert!(killers > 0, "no killer was stored by any cutoff");
    let squares: Vec<_> = (0..64u8)
        .map(|i| lattice::board::Square::from_index(i).unwrap())
        .collect();
    let mut history = 0;
    for side in [Color::White, Color::Black] {
        for &from in &squares {
            for &to in &squares {
                if ctx.history_at(side, from, to) > 0 {
                    history += 1;
                }
            }
        }
    }
    assert!(history > 0, "no history bonus was recorded");
}

#[test]
fn resolves_a_hanging_capture_that_static_eval_misreads() {
    let fen = "4k3/8/1p6/2p5/3Q4/8/8/4K3 w - - 0 1";
    let stand_pat = evaluate(&board(fen));
    assert!(stand_pat > 0, "white is up a queen for two pawns");
    let (score, _) = quiesce(fen);
    assert_eq!(score, stand_pat, "qsearch should decline the capture");
    let (best, _, _) = root_score(fen, 2);
    assert_ne!(
        best.map(move_text).as_deref(),
        Some("d4c5"),
        "should not grab a defended pawn with the queen"
    );
}

#[test]
fn stands_pat_in_a_quiet_position() {
    let fen = "4k3/8/8/8/8/8/4P3/4K3 w - - 0 1";
    let (score, qnodes) = quiesce(fen);
    assert_eq!(score, evaluate(&board(fen)), "no captures, so score is stand-pat");
    assert_eq!(qnodes, 1);
}

#[test]
fn the_ply_bound_terminates_a_check_sequence() {
    let (_, _, nodes) = root_score("7k/8/8/8/8/8/5RR1/6K1 w - - 0 1", 6);
    assert!(nodes < 5_000_000, "the ply bound did not contain the check sequence");
}

#[test]
fn a_losing_check_is_not_extended() {
    let mut board = board("1b2k3/2p1p3/3p4/1N6/8/8/8/4K3 w - - 0 1");
    let moves = legal_moves(&mut board);
    let mut checks = 0;
    for mv in moves {
        let losing = see(&board, mv) < 0;
        board.make(mv);
        let them = board.state().side_to_move();
        let gives_check = is_attacked(&board, board.king_square(them), them.flip());
        board.unmake(mv);
        if !gives_check {
            continue;
        }
        checks += 1;
        assert!(losing, "test position must have only losing checks: {mv:?}");
        assert_eq!(check_extension(gives_check, losing, 0), 0, "{mv:?}");
    }
    assert!(checks > 0, "position has no checks to decline");
}

#[test]
fn qply_bound_terminates_a_long_exchange() {
    let (_, qnodes) = quiesce("3rr1k1/8/8/3pp3/3PP3/8/8/3RR1K1 w - - 0 1");
    assert!(qnodes > 1, "position has captures to search");
    assert!(qnodes < 100_000, "qply bound should contain it: {qnodes}");
}

#[test]
fn searches_evasions_and_finds_mate_in_check() {
    let (score, _) = quiesce("R5k1/5ppp/8/8/8/8/8/6K1 b - - 0 1");
    assert_eq!(score, -MATE, "checkmate should score as mate at ply 0");
    let (score, _) = quiesce("R5k1/5pp1/8/8/8/8/8/6K1 b - - 0 1");
    assert!(score > -MATE + 1000, "king has an escape, got {score}");
}

#[test]
fn see_values_a_simple_exchange() {
    assert_eq!(see_of("4k3/8/8/3p4/8/8/8/3RK3 w - - 0 1", "d1", "d5"), 100);
    assert_eq!(
        see_of("4k3/8/2p5/3p4/8/8/8/3RK3 w - - 0 1", "d1", "d5"),
        100 - ORDER_VALUES[PieceType::Rook.index() as usize]
    );
    assert_eq!(see_of("4k3/8/2p5/3p4/4P3/8/8/4K3 w - - 0 1", "e4", "d5"), 0);
}

#[test]
fn see_stops_a_losing_exchange_early() {
    let value = see_of("3rk3/8/2p5/3p4/4P3/8/8/3RK3 w - - 0 1", "e4", "d5");
    assert_eq!(value, 0, "pxp then rxp is a trade, not a loss: {value}");
}

#[test]
fn see_sees_through_an_x_ray_battery() {
    let doubled = see_of("3rk3/8/8/3p4/8/8/3R4/3RK3 w - - 0 1", "d2", "d5");
    let single = see_of("3rk3/8/8/3p4/8/8/8/3RK3 w - - 0 1", "d1", "d5");
    assert!(doubled > single, "the backup rook must count: doubled {doubled} vs single {single}");
    assert_eq!(doubled, 100, "RxP, RxR, RxR wins the pawn");
}

#[test]
fn see_prunes_a_losing_capture_from_quiescence() {
    let fen = "4k3/8/1p6/2p5/3Q4/8/8/4K3 w - - 0 1";
    assert!(see_of(fen, "d4", "c5") < 0, "QxP is a losing capture");
    let (score, qnodes) = quiesce(fen);
    assert_eq!(score, evaluate(&board(fen)));
    assert_eq!(qnodes, 1, "the losing capture should never be searched");
}

#[test]
fn finds_mate_and_scores_stalemate() {
    let (mate, info) = run("7k/5Q2/6K1/8/8/8/8/8 w - - 0 1", 2);
    assert!(mate.best_move.is_some());
    assert!(info.contains("score mate 1"), "{info}");
    let (stalemate, info) = run("7k/5Q2/6K1/8/8/8/8/8 b - - 0 1", 2);
    assert_eq!(stalemate.best_move, None);
    assert!(info.contains("score cp 0"), "{info}");
}

#[test]
fn mate_distance_prefers_shorter_mates() {
    let checkmate = board("7k/6Q1/6K1/8/8/8/8/8 b - - 0 1");
    let mate_in_two = -terminal_score(&checkmate, 3);
    let mate_in_four = -terminal_score(&checkmate, 7);
    assert!(mate_in_two > mate_in_four);
    assert_eq!(mate_in(mate_in_two), Some(2));
    assert_eq!(mate_in(mate_in_four), Some(4));
}

#[test]
fn tt_reports_a_stable_mate_distance_across_depths() {
    let stop = AtomicBool::new(false);
    let table = lmr_table();
    let mut tt = TranspositionTable::new();
    let mut ctx = Ctx::new(Limits::default(), &stop, Instant::now(), None, &table);
    let mut board = board("6k1/5ppp/8/8/8/8/5PPP/R5K1 w - - 0 1");
    for depth in 1..=5 {
        ctx.set_iteration(depth);
        let (best, score) = negamax_root(&mut board, &mut tt, depth, -INFINITY, INFINITY, &mut ctx)
            .ok()
            .unwrap();
        assert_eq!(mate_in(score), Some(1), "depth {depth} scored {score}");
        assert_eq!(best.map(move_text).as_deref(), Some("a1a8"), "depth {depth} missed the mate");
    }
}

#[test]
fn tt_move_sorts_first() {
    let stop = AtomicBool::new(false);
    let table = lmr_table();
    let ctx = Ctx::new(Limits::default(), &stop, Instant::now(), None, &table);
    let mut board = board("r1bqkbnr/pppp1ppp/2n5/4p3/2B1P3/5Q2/PPPP1PPP/RNB1K1NR w KQkq - 0 1");
    let mut moves = MoveList::new();
    generate_legal(&mut board, &mut moves);
    order_moves(&board, &mut moves, 0, None, [None; 2], &ctx);
    let quiet = *moves
        .as_slice()
        .iter()
        .find(|mv| !mv.is_capture() && !mv.is_promotion())
        .expect("position has a quiet move");
    order_moves(&board, &mut moves, 0, Some(quiet), [None; 2], &ctx);
    assert_eq!(moves.as_slice().first(), Some(&quiet), "the TT move must sort ahead of captures");
    assert!(
        order_key(&board, quiet, Some(quiet), [None; 2], &ctx)
            < order_key(&board, quiet, None, [None; 2], &ctx)
    );
}

#[test]
fn a_warm_table_still_searches_every_iteration() {
    let mut tt = TranspositionTable::new();
    let stop = AtomicBool::new(false);
    let table = lmr_table();
    let mut first = Board::startpos();
    search_inner(
        &mut first,
        Limits {
            depth: Some(7),
            ..Limits::default()
        },
        &stop,
        &mut tt,
        &table,
        &mut (),
    );
    let mut second = Board::startpos();
    let warm = tt.probe(second.state().zobrist());
    assert!(
        warm.is_some_and(|entry| entry.depth >= 5),
        "test needs a deep stored entry to be meaningful, got {warm:?}"
    );
    let mut counts = Vec::new();
    for depth in 1..=5 {
        let result = search_inner(
            &mut second,
            Limits {
                depth: Some(depth),
                ..Limits::default()
            },
            &stop,
            &mut tt,
            &table,
            &mut (),
        );
        counts.push(result.nodes + result.qnodes);
    }
    let (first_count, last_count) = (counts[0], counts[counts.len() - 1]);
    assert!(last_count > first_count * 4, "depth 5 did not outwork depth 1, got {counts:?}");
}

#[test]
fn tt_reduces_the_tree_across_iterations() {
    let stop = AtomicBool::new(false);
    let table = lmr_table();
    let mut tt = TranspositionTable::new();
    let mut ctx = Ctx::new(Limits::default(), &stop, Instant::now(), None, &table);
    ctx.set_iteration(4);
    let mut board = board("r1bq1rk1/ppp2ppp/2np1n2/4p3/2B1P3/2NP1N2/PPP2PPP/R1BQ1RK1 w - - 0 8");
    assert!(negamax_root(&mut board, &mut tt, 4, -INFINITY, INFINITY, &mut ctx).is_ok());
    let cold = ctx.total();
    let before = ctx.total();
    assert!(negamax_root(&mut board, &mut tt, 4, -INFINITY, INFINITY, &mut ctx).is_ok());
    let warm = ctx.total() - before;
    assert!(warm < cold, "warm search {warm} was not cheaper than {cold}");
}

#[test]
fn depth_search_is_legal_and_deterministic() {
    let fen = "r3k2r/p1ppqpb1/bn2pnp1/3PN3/1p2P3/2N2Q1p/PPPBBPPP/R3K2R w KQkq - 0 1";
    let (first, _) = run(fen, 2);
    let (second, _) = run(fen, 2);
    assert_eq!(first.nodes, second.nodes);
    assert_eq!(first.qnodes, second.qnodes);
    assert_eq!(first.best_move, second.best_move);
    let mut board = board(fen);
    assert!(legal_moves(&mut board).iter().any(|&mv| Some(mv) == first.best_move));
}

#[test]
fn clock_budget_honors_tolerance_and_low_time() {
    let board = Board::startpos();
    assert!(
        time_budget(
            &board,
            Limits {
                wtime: Some(1000),
                ..Limits::default()
            }
        )
        .unwrap()
            < 950
    );
    assert_eq!(
        time_budget(
            &board,
            Limits {
                wtime: Some(60),
                ..Limits::default()
            }
        ),
        Some(3)
    );
}

#[test]
fn respects_a_short_budget() {
    let mut board = Board::startpos();
    let table = lmr_table();
    let mut tt = TranspositionTable::new();
    let start = Instant::now();
    let result = search_inner(
        &mut board,
        Limits {
            wtime: Some(100),
            btime: Some(100),
            ..Limits::default()
        },
        &AtomicBool::new(false),
        &mut tt,
        &table,
        &mut (),
    );
    let elapsed = start.elapsed();
    assert!(result.best_move.is_some());
    assert!(elapsed < Duration::from_millis(150), "took {elapsed:?}");
}

#[test]
fn depth_one_completes_despite_stop() {
    let mut board = Board::startpos();
    let table = lmr_table();
    let mut tt = TranspositionTable::new();
    let result = search_inner(
        &mut board,
        Limits {
            depth: Some(1),
            movetime: Some(1),
            ..Limits::default()
        },
        &AtomicBool::new(true),
        &mut tt,
        &table,
        &mut (),
    );
    assert!(result.best_move.is_some());
    assert_eq!(result.nodes, 24);
    assert!(result.qnodes > 0, "each leaf runs quiescence");
}

#[test]
fn an_en_passant_square_no_pawn_can_reach_is_searched() {
    let position = board("4k3/8/8/8/8/8/8/4K3 w - e6 0 1");
    assert!(lattice::search::tree::searchable(&position));
    let (result, _) = run("4k3/8/8/8/8/8/8/4K3 w - e6 0 1", 2);
    assert!(result.best_move.is_some());
}

#[test]
fn an_unreachable_en_passant_square_does_not_screen_in_a_capture() {
    // A king standing where a capturing pawn would stand is no pawn.
    let position = board("4k3/8/8/4K3/8/8/8/8 w - e6 0 1");
    let ghost_capture = Move::new(
        lattice::board::Square::new(4, 4).unwrap(),
        lattice::board::Square::new(4, 5).unwrap(),
        MoveType::EnPassant,
    );
    assert!(!lattice::search::tree::is_pseudo_legal(&position, ghost_capture));
}
