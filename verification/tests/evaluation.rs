use std::str::FromStr;

use lattice::board::{Board, Color, PieceType, Square};
use lattice::eval::position::{evaluate, mobility, pawn_structure, rook_files, scan};
use lattice::eval::{
    blend, DOUBLED_MG, ISOLATED_EG, ISOLATED_MG, MOBILITY_MG, PASSED_EG, PASSED_MG, ROOK_OPEN_MG,
    ROOK_SEMI_MG, TEMPO, TOTAL_PHASE,
};

fn board(fen: &str) -> Board {
    Board::from_str(fen).unwrap()
}

fn mirror(fen: &str) -> String {
    let fields: Vec<&str> = fen.split_whitespace().collect();
    let swap = |c: char| {
        if c.is_ascii_uppercase() {
            c.to_ascii_lowercase()
        } else if c.is_ascii_lowercase() {
            c.to_ascii_uppercase()
        } else {
            c
        }
    };
    let ranks: Vec<String> = fields[0].split('/').rev().map(|rank| rank.chars().map(swap).collect()).collect();
    let side = if fields[1] == "w" { "b" } else { "w" };
    let castling: String = fields[2].chars().map(swap).collect();
    let en_passant = if fields[3] == "-" {
        "-".to_owned()
    } else {
        let bytes = fields[3].as_bytes();
        format!("{}{}", bytes[0] as char, 9 - (bytes[1] - b'0'))
    };
    format!("{} {side} {castling} {en_passant} {} {}", ranks.join("/"), fields[4], fields[5])
}

fn placement(b: &Board) -> i32 {
    let acc = scan(b);
    let score = blend(acc.mg, acc.eg, acc.phase);
    if b.state().side_to_move() == Color::White {
        score
    } else {
        -score
    }
}

#[test]
fn evaluation_is_color_symmetric() {
    let fens = [
        "rnbqkbnr/pppppppp/8/8/8/8/PPPPPPPP/RNBQKBNR w KQkq - 0 1",
        "r3k2r/p1ppqpb1/bn2pnp1/3PN3/1p2P3/2N2Q1p/PPPBBPPP/R3K2R w KQkq - 0 1",
        "8/2p5/3p4/KP5r/1R3p1k/8/4P1P1/8 w - - 0 1",
        "r2q1rk1/pP1p2pp/Q4n2/bbp1p3/Np6/1B3NBn/pPPP1PPP/R3K2R b KQ - 0 1",
        "rnbq1k1r/pp1Pbppp/2p5/8/2B5/8/PPP1NnPP/RNBQK2R w KQ - 0 1",
        "8/5pk1/6p1/3p4/3P4/6P1/5PK1/8 w - - 0 1",
        "4k3/8/8/3pP3/8/8/8/4K3 w - d6 0 1",
    ];
    for fen in fens {
        let position = board(fen);
        let mirrored = board(&mirror(fen));
        assert_eq!(evaluate(&position), evaluate(&mirrored), "asymmetric for {fen} (mirror {})", mirror(fen));
    }
}

#[test]
fn symmetric_positions_score_the_tempo_bonus_for_either_side() {
    assert_eq!(evaluate(&Board::startpos()), TEMPO);
    let white = board("4k3/8/8/8/8/8/8/4K3 w - - 0 1");
    let black = board("4k3/8/8/8/8/8/8/4K3 b - - 0 1");
    assert_eq!(evaluate(&white), TEMPO);
    assert_eq!(evaluate(&black), TEMPO);
    assert_eq!(evaluate(&white) - TEMPO, 0);
}

#[test]
fn phase_runs_from_the_start_position_down_to_bare_kings() {
    assert_eq!(scan(&Board::startpos()).phase, TOTAL_PHASE);
    assert_eq!(scan(&board("4k3/8/8/8/8/8/8/4K3 w - - 0 1")).phase, 0);
}

#[test]
fn extra_queens_do_not_extrapolate_past_the_midgame() {
    let many = board("qqqqk3/8/8/8/8/8/8/QQQQK3 w - - 0 1");
    assert!(scan(&many).phase > TOTAL_PHASE, "raw phase should overflow");
    assert_eq!(scan(&many).phase.min(TOTAL_PHASE), TOTAL_PHASE);
    assert_eq!(placement(&many), 0);
}

#[test]
fn placement_beats_material_alone() {
    let centre = board("4k3/8/8/8/4N3/8/8/4K3 w - - 0 1");
    let corner = board("4k3/8/8/8/8/8/8/N3K3 w - - 0 1");
    assert!(evaluate(&centre) > evaluate(&corner));
}

#[test]
fn material_delta_is_relative_to_side_to_move() {
    let white = board("rnbqkbnr/pppppppp/8/8/8/8/PPPPPPPP/RNB1KBNR w KQkq - 0 1");
    let black = board("rnbqkbnr/pppppppp/8/8/8/8/PPPPPPPP/RNB1KBNR b KQkq - 0 1");
    assert!(evaluate(&white) < 0, "white is a queen down");
    assert_eq!(placement(&white), -placement(&black));
    assert_eq!(evaluate(&white) + evaluate(&black), 2 * TEMPO);
}

#[test]
fn mobility_counts_only_squares_a_piece_can_actually_use() {
    let count = |fen: &str, color| mobility(&board(fen), color);
    let knight = MOBILITY_MG[PieceType::Knight.index() as usize];
    assert_eq!(count("4k3/8/8/8/4N3/8/8/4K3 w - - 0 1", Color::White).0, 8 * knight);
    assert_eq!(count("4k3/8/3P1P2/8/4N3/8/8/4K3 w - - 0 1", Color::White).0, 6 * knight);
    assert_eq!(count("4k3/8/3p1p2/8/4N3/8/8/4K3 w - - 0 1", Color::White).0, 6 * knight);
    assert_eq!(count("4k3/3p4/8/8/3N4/8/8/4K3 w - - 0 1", Color::White).0, 6 * knight);
    assert_eq!(count("4k3/4p3/8/8/8/8/4P3/4K3 w - - 0 1", Color::White), (0, 0));
    assert_ne!(knight, 0);
}

#[test]
fn rook_files_separates_open_from_semi_open_from_blocked() {
    let score = |fen: &str| rook_files(&board(fen), Color::White).0;
    assert_eq!(score("4k3/8/8/8/8/8/8/3RK3 w - - 0 1"), ROOK_OPEN_MG);
    assert_eq!(score("4k3/3p4/8/8/8/8/8/3RK3 w - - 0 1"), ROOK_SEMI_MG);
    assert_eq!(score("4k3/3p4/8/8/8/8/3P4/3RK3 w - - 0 1"), 0);
    assert_eq!(score("4k3/8/8/8/8/8/8/R2RK3 w - - 0 1"), 2 * ROOK_OPEN_MG);
    assert_eq!(score("3rk3/8/8/8/3R4/8/8/3R1K2 w - - 0 1"), 2 * ROOK_OPEN_MG);
    assert_eq!(score("4k3/8/8/8/8/8/P7/3RK3 w - - 0 1"), ROOK_OPEN_MG);
}

#[test]
fn pawn_structure_scores_passers_isolanis_and_doubled_pawns() {
    let score = |fen: &str, color| pawn_structure(&board(fen), color);
    assert_eq!(
        score("4k3/8/8/4P3/8/8/8/4K3 w - - 0 1", Color::White),
        (PASSED_MG[4] + ISOLATED_MG, PASSED_EG[4] + ISOLATED_EG)
    );
    assert_eq!(score("4k3/3p4/8/4P3/8/8/8/4K3 w - - 0 1", Color::White).0, ISOLATED_MG);
    assert_eq!(score("4k3/8/8/3pP3/8/8/8/4K3 w - - 0 1", Color::White).0, PASSED_MG[4] + ISOLATED_MG);
    let two = score("4k3/8/8/4P3/4P3/8/8/4K3 w - - 0 1", Color::White).0;
    let three = score("4k3/8/8/4P3/4P3/4P3/8/4K3 w - - 0 1", Color::White).0;
    assert_eq!(two, PASSED_MG[4] + 2 * ISOLATED_MG + DOUBLED_MG);
    assert_eq!(three, PASSED_MG[4] + 3 * ISOLATED_MG + 2 * DOUBLED_MG);
    assert_eq!(score("4k3/7p/8/8/8/8/P7/4K3 w - - 0 1", Color::White).0, ISOLATED_MG + PASSED_MG[1]);
    assert_eq!(score("4k3/p7/8/8/8/8/7P/4K3 w - - 0 1", Color::White).0, ISOLATED_MG + PASSED_MG[1]);
    assert_eq!(score("4k3/8/8/8/8/8/PP6/4K3 w - - 0 1", Color::White).0, 2 * PASSED_MG[1]);
    assert_eq!(score("4k3/8/8/8/8/8/3p4/4K3 w - - 0 1", Color::Black).0, PASSED_MG[6] + ISOLATED_MG);
    assert_ne!(PASSED_EG[6], 0);
}

#[test]
fn white_and_black_index_mirrored_squares() {
    let a1 = Square::new(0, 0).unwrap();
    let a8 = Square::new(0, 7).unwrap();
    assert_eq!(a1.flip_rank(), a8);
    assert_eq!(a8.flip_rank(), a1);
}

#[test]
fn evaluation_adds_the_tempo_to_the_blended_terms() {
    let b = board("4k3/8/8/3pP3/8/8/8/R3K3 w - - 0 1");
    let acc = scan(&b);
    let (wm, we) = (
        mobility(&b, Color::White).0 + rook_files(&b, Color::White).0 + pawn_structure(&b, Color::White).0,
        mobility(&b, Color::White).1 + rook_files(&b, Color::White).1 + pawn_structure(&b, Color::White).1,
    );
    let (bm, be) = (
        mobility(&b, Color::Black).0 + rook_files(&b, Color::Black).0 + pawn_structure(&b, Color::Black).0,
        mobility(&b, Color::Black).1 + rook_files(&b, Color::Black).1 + pawn_structure(&b, Color::Black).1,
    );
    assert_eq!(evaluate(&b), blend(acc.mg + wm - bm, acc.eg + we - be, acc.phase) + TEMPO);
}
