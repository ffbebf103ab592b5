use std::str::FromStr;

use lattice::board::{Board, Color, Move, MoveType, Square};
use lattice::movegen::{generate_legal, generate_pseudo, is_attacked, perft, MoveList};
use lattice::search::tree::see;

fn board(fen: &str) -> Board {
    Board::from_str(fen).unwrap()
}

fn sq(s: &str) -> Square {
    let b = s.as_bytes();
    Square::new(b[0] - b'a', b[1] - b'1').unwrap()
}

fn pseudo_legal_moves(b: &Board) -> Vec<Move> {
    let mut list = MoveList::new();
    generate_pseudo(b, &mut list);
    list.as_slice().to_vec()
}

/// SEE of the capture `from`->`to` in `fen`, the move found among the
/// generated ones so its type (capture or en passant) is the real one.
fn see_of(fen: &str, from: &str, to: &str) -> i32 {
    let b = board(fen);
    let mv = pseudo_legal_moves(&b)
        .into_iter()
        .find(|m| m.from() == sq(from) && m.to() == sq(to))
        .unwrap_or_else(|| panic!("{from}{to} is not generated in {fen}"));
    see(&b, mv)
}

fn perft_of(fen: &str, depth: u32) -> u64 {
    let mut b = board(fen);
    perft(&mut b, depth)
}

#[test]
fn see_wins_an_undefended_pawn() {
    // d4 pawn takes an undefended e5 pawn: +100, no recapture.
    assert_eq!(see_of("4k3/8/8/4p3/3P4/8/8/4K3 w - - 0 1", "d4", "e5"), 100);
}

#[test]
fn see_loses_queen_for_a_defended_pawn() {
    // Qh2xe5 grabs a pawn defended by the d6 pawn: +100 - 900 = -800.
    assert_eq!(see_of("4k3/8/3p4/4p3/8/8/7Q/4K3 w - - 0 1", "h2", "e5"), -800);
}

#[test]
fn see_equal_trade_is_zero() {
    // d4xe5 pawn trade, recaptured by the f6 pawn: +100 - 100 = 0.
    assert_eq!(see_of("4k3/8/5p2/4p3/3P4/8/8/4K3 w - - 0 1", "d4", "e5"), 0);
}

#[test]
fn see_wins_a_defended_queen_with_a_pawn() {
    // d4 pawn takes a queen defended by the d6 pawn: +900 - 100 = +800.
    assert_eq!(see_of("4k3/8/3p4/4q3/3P4/8/8/4K3 w - - 0 1", "d4", "e5"), 800);
}

#[test]
fn see_sees_through_an_xray_battery() {
    // Re2xe5 with Re1 stacked behind it, against one e8 rook: +100.
    assert_eq!(see_of("4r1k1/8/8/4p3/8/8/4R3/4R1K1 w - - 0 1", "e2", "e5"), 100);
}

#[test]
fn see_handles_en_passant() {
    // e5xd6 e.p. removes the d5 pawn (undefended): +100.
    assert_eq!(see_of("4k3/8/8/3pP3/8/8/8/4K3 w - d6 0 1", "e5", "d6"), 100);
}

#[test]
fn see_resolves_a_bishop_queen_battery() {
    // Bxe5, Nxe5, Qxe5: +100 +320 -330 = +90.
    assert_eq!(see_of("6k1/8/2n5/4p3/8/8/1B6/Q5K1 w - - 0 1", "b2", "e5"), 90);
}

#[test]
fn see_resolves_a_triple_file_battery() {
    // Front-first on each side; the pawn plus an even rook swap: +100.
    assert_eq!(see_of("4r2k/4r3/8/4p3/8/4R3/4R3/4Q2K w - - 0 1", "e3", "e5"), 100);
}

#[test]
fn see_ignores_a_pin_against_the_king() {
    // The pinned d6 bishop still counts as a defender: -800.
    assert_eq!(see_of("3k4/8/3b4/4p3/8/8/7Q/3R3K w - - 0 1", "h2", "e5"), -800);
}

#[test]
fn lone_rook_sweeps_rank_and_file() {
    // Rook on d5: 7 along the rank + 7 along the file = 14. King on h1: 3.
    let moves = pseudo_legal_moves(&board("7k/8/8/3R4/8/8/8/7K w - - 0 1"));
    assert_eq!(moves.len(), 17);
    assert!(moves.iter().all(|m| !m.is_capture()));
}

#[test]
fn pawn_promotes_four_ways() {
    // White pawn on a7 can promote on a8 (empty) four ways, no capture.
    let moves = pseudo_legal_moves(&board("4k3/P7/8/8/8/8/8/4K3 w - - 0 1"));
    let promos = moves.iter().filter(|m| m.is_promotion()).count();
    assert_eq!(promos, 4);
    assert!(moves.iter().all(|m| !m.is_capture()));
}

#[test]
fn en_passant_is_flagged() {
    // Black just played ...c7-c5; white pawn on d5 can take ep on c6.
    let b = board("rnbqkbnr/pp1ppppp/8/2pP4/8/8/PPP1PPPP/RNBQKBNR w KQkq c6 0 2");
    let ep = pseudo_legal_moves(&b)
        .into_iter()
        .filter(|m| m.move_type() == MoveType::EnPassant)
        .collect::<Vec<_>>();
    assert_eq!(ep.len(), 1);
    assert_eq!(ep[0].to(), sq("c6"));
}

#[test]
fn attacks_by_each_piece_type() {
    let b = board("8/8/8/8/3NP3/8/8/3QK3 w - - 0 1");
    assert!(is_attacked(&b, sq("e6"), Color::White));
    assert!(is_attacked(&b, sq("c6"), Color::White));
    assert!(!is_attacked(&b, sq("e5"), Color::White)); // neither knight nor pawn
    assert!(is_attacked(&b, sq("d5"), Color::White)); // pawn e4
    assert!(is_attacked(&b, sq("f5"), Color::White)); // pawn e4
    assert!(is_attacked(&b, sq("d2"), Color::White)); // king e1 (and queen d1)
    assert!(is_attacked(&b, sq("a1"), Color::White)); // queen d1 along rank 1
    assert!(is_attacked(&b, sq("a4"), Color::White)); // queen d1 diagonal
}

#[test]
fn slider_attack_is_blocked_by_occupancy() {
    let open = board("7k/8/8/8/8/8/8/R6K w - - 0 1");
    assert!(is_attacked(&open, sq("a8"), Color::White));
    let blocked = board("7k/8/8/8/p7/8/8/R6K w - - 0 1");
    assert!(!is_attacked(&blocked, sq("a8"), Color::White));
    assert!(is_attacked(&blocked, sq("a4"), Color::White));
}

#[test]
fn attacker_color_is_respected() {
    let b = board("7k/8/8/8/3R4/8/8/7K w - - 0 1");
    assert!(is_attacked(&b, sq("d8"), Color::White));
    assert!(!is_attacked(&b, sq("d8"), Color::Black));
}

#[test]
fn castling_is_generated_when_legal() {
    let b = board("4k3/8/8/8/8/8/8/R3K2R w KQ - 0 1");
    let castles: Vec<_> = pseudo_legal_moves(&b)
        .into_iter()
        .filter(|m| matches!(m.move_type(), MoveType::KingCastle | MoveType::QueenCastle))
        .collect();
    assert_eq!(castles.len(), 2);
}

#[test]
fn castling_blocked_through_check_is_rejected() {
    // The f8 rook attacks f1: no O-O; the queenside path is clear.
    let b = board("4kr2/8/8/8/8/8/8/R3K2R w KQ - 0 1");
    let kinds: Vec<_> = pseudo_legal_moves(&b)
        .into_iter()
        .map(|m| m.move_type())
        .filter(|k| matches!(k, MoveType::KingCastle | MoveType::QueenCastle))
        .collect();
    assert_eq!(kinds, vec![MoveType::QueenCastle]);
}

const STARTPOS: &str = "rnbqkbnr/pppppppp/8/8/8/8/PPPPPPPP/RNBQKBNR w KQkq - 0 1";
const KIWIPETE: &str = "r3k2r/p1ppqpb1/bn2pnp1/3PN3/1p2P3/2N2Q1p/PPPBBPPP/R3K2R w KQkq - 0 1";
const POSITION3: &str = "8/2p5/3p4/KP5r/1R3p1k/8/4P1P1/8 w - - 0 1";

#[test]
fn perft_startpos() {
    assert_eq!(perft_of(STARTPOS, 1), 20);
    assert_eq!(perft_of(STARTPOS, 2), 400);
    assert_eq!(perft_of(STARTPOS, 3), 8902);
    assert_eq!(perft_of(STARTPOS, 4), 197_281);
}

#[test]
fn perft_kiwipete() {
    assert_eq!(perft_of(KIWIPETE, 1), 48);
    assert_eq!(perft_of(KIWIPETE, 2), 2039);
    assert_eq!(perft_of(KIWIPETE, 3), 97_862);
}

#[test]
fn perft_position3() {
    assert_eq!(perft_of(POSITION3, 1), 14);
    assert_eq!(perft_of(POSITION3, 2), 191);
    assert_eq!(perft_of(POSITION3, 3), 2812);
    assert_eq!(perft_of(POSITION3, 4), 43_238);
}

fn m(i: u8) -> Move {
    Move::new(Square::new(i % 8, i / 8).unwrap(), Square::new((i + 1) % 8, (i + 1) / 8).unwrap(), MoveType::Quiet)
}

#[test]
fn push_len_and_slice() {
    let mut l = MoveList::new();
    assert!(l.is_empty());
    l.push(m(0));
    l.push(m(2));
    assert_eq!(l.len(), 2);
    assert_eq!(l.get(0), m(0));
    assert_eq!(l.as_slice(), &[m(0), m(2)]);
    let via_ref: Vec<Move> = l.as_slice().iter().copied().collect();
    assert_eq!(via_ref, vec![m(0), m(2)]);
    l.clear();
    assert!(l.is_empty());
}

#[test]
fn holds_the_legal_maximum() {
    let mut l = MoveList::new();
    for _ in 0..218 {
        l.push(m(0));
    }
    assert_eq!(l.len(), 218);
}

#[test]
fn legal_generation_keeps_the_pseudo_legal_order() {
    // The legal moves are the pseudo-legal ones that keep the king safe, in
    // the same order: here the pinned e2 knight's moves drop out.
    let fen = "4k3/4r3/8/8/8/8/4N3/4K3 w - - 0 1";
    let mut b = board(fen);
    let pseudo = pseudo_legal_moves(&b);
    let mut list = MoveList::new();
    generate_legal(&mut b, &mut list);
    let kept: Vec<Move> = pseudo.into_iter().filter(|m| m.from() != sq("e2")).collect();
    assert_eq!(list.as_slice(), kept.as_slice());
}
