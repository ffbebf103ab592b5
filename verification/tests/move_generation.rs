use std::str::FromStr;

use lattice::board::{Board, Color, Move, MoveType, Square};
use lattice::movegen::{
    generate_captures, generate_legal, generate_pseudo, generate_quiets, is_attacked, perft,
    perft_divide, MoveList,
};

fn board(fen: &str) -> Board {
    Board::from_str(fen).unwrap()
}

fn sq(s: &str) -> Square {
    let b = s.as_bytes();
    Square::new(b[0] - b'a', b[1] - b'1').unwrap()
}

fn key(mv: &Move) -> u16 {
    mv.to_bits()
}

fn sorted(list: &MoveList) -> Vec<Move> {
    let mut moves: Vec<_> = list.as_slice().to_vec();
    moves.sort_unstable_by_key(key);
    moves
}

fn legal(fen: &str) -> Vec<Move> {
    let mut b = board(fen);
    let mut list = MoveList::new();
    generate_legal(&mut b, &mut list);
    sorted(&list)
}

fn has(fen: &str, from: &str, to: &str, kind: MoveType) -> bool {
    legal(fen)
        .iter()
        .any(|mv| mv.from() == sq(from) && mv.to() == sq(to) && mv.move_type() == kind)
}

fn fen_of(b: &Board) -> String {
    String::from_utf8(b.to_fen()).unwrap()
}

#[test]
fn pawn_pushes_respect_blockers() {
    assert!(has("4k3/8/8/8/8/8/4P3/4K3 w - - 0 1", "e2", "e4", MoveType::DoublePawnPush));
    assert!(!has("4k3/8/8/8/4n3/8/4P3/4K3 w - - 0 1", "e2", "e4", MoveType::DoublePawnPush));
    assert!(!has("4k3/8/8/8/8/4n3/4P3/4K3 w - - 0 1", "e2", "e3", MoveType::Quiet));
    assert!(!has("4k3/8/8/8/8/4n3/4P3/4K3 w - - 0 1", "e2", "e4", MoveType::DoublePawnPush));
    assert!(!has("4k3/8/8/8/8/4P3/8/4K3 w - - 0 1", "e3", "e5", MoveType::DoublePawnPush));
}

#[test]
fn en_passant_is_generated_with_its_own_move_type() {
    assert!(has("4k3/8/8/3pP3/8/8/8/4K3 w - d6 0 1", "e5", "d6", MoveType::EnPassant));
    assert!(!has("4k3/8/8/3pP3/8/8/8/4K3 w - - 0 1", "e5", "d6", MoveType::EnPassant));
    assert!(has("4k3/8/8/8/3pP3/8/8/4K3 b - e3 0 1", "d4", "e3", MoveType::EnPassant));
}

#[test]
fn pawn_captures_do_not_wrap_around_the_board() {
    assert!(!legal("4k3/8/8/8/8/8/P6n/4K3 w - - 0 1").iter().any(|mv| mv.is_capture()));
    assert!(!legal("4k3/8/8/8/8/n7/7P/4K3 w - - 0 1").iter().any(|mv| mv.is_capture()));
    assert!(!legal("4k3/8/8/8/8/8/n6p/4K3 b - - 0 1").iter().any(|mv| mv.is_capture()));
    assert!(has("4k3/8/8/8/8/1n6/P7/4K3 w - - 0 1", "a2", "b3", MoveType::Capture));
}

#[test]
fn promotions_generate_all_four_pieces_on_both_ranks() {
    let kinds = |fen: &str, from: &str, to: &str| {
        let mut k: Vec<_> = legal(fen)
            .iter()
            .filter(|mv| mv.from() == sq(from) && mv.to() == sq(to))
            .map(|mv| mv.move_type())
            .collect();
        k.sort_unstable_by_key(|t| t.code());
        k
    };
    assert_eq!(
        kinds("4k3/P7/8/8/8/8/8/4K3 w - - 0 1", "a7", "a8"),
        [MoveType::KnightPromo, MoveType::BishopPromo, MoveType::RookPromo, MoveType::QueenPromo]
    );
    assert_eq!(
        kinds("4k3/8/8/8/8/8/p7/4K3 b - - 0 1", "a2", "a1"),
        [MoveType::KnightPromo, MoveType::BishopPromo, MoveType::RookPromo, MoveType::QueenPromo]
    );
    assert_eq!(
        kinds("1n2k3/P7/8/8/8/8/8/4K3 w - - 0 1", "a7", "b8"),
        [
            MoveType::KnightPromoCap,
            MoveType::BishopPromoCap,
            MoveType::RookPromoCap,
            MoveType::QueenPromoCap
        ]
    );
}

#[test]
fn castling_legality_guards() {
    let ok = "r3k2r/8/8/8/8/8/8/R3K2R w KQkq - 0 1";
    assert!(has(ok, "e1", "g1", MoveType::KingCastle));
    assert!(has(ok, "e1", "c1", MoveType::QueenCastle));
    assert!(!has("r3k2r/8/8/8/8/8/8/R3K1NR w KQkq - 0 1", "e1", "g1", MoveType::KingCastle));
    assert!(!has("r3k2r/8/8/8/8/8/8/RN2K2R w KQkq - 0 1", "e1", "c1", MoveType::QueenCastle));
    assert!(!has("r3k2r/8/8/8/8/8/4r3/R3K2R w KQkq - 0 1", "e1", "g1", MoveType::KingCastle));
    assert!(!has("r3k2r/8/8/8/8/8/5r2/R3K2R w KQkq - 0 1", "e1", "g1", MoveType::KingCastle));
    assert!(!has("r3k2r/8/8/8/8/8/6r1/R3K2R w KQkq - 0 1", "e1", "g1", MoveType::KingCastle));
    assert!(!has(ok, "e1", "g1", MoveType::Quiet));
    assert!(!has("r3k2r/8/8/8/8/8/8/R3K2R w kq - 0 1", "e1", "g1", MoveType::KingCastle));
}

#[test]
fn is_attacked_covers_every_piece_type() {
    for (fen, square, by) in [
        ("4k3/8/8/8/8/5n2/8/4K3 w - - 0 1", "e1", Color::Black),
        ("4k3/8/8/8/8/8/3p4/4K3 w - - 0 1", "e1", Color::Black),
        ("4k3/8/8/8/8/8/8/r3K3 w - - 0 1", "e1", Color::Black),
        ("4k3/8/8/8/1b6/8/8/4K3 w - - 0 1", "e1", Color::Black),
        ("4k3/8/8/8/8/8/8/q3K3 w - - 0 1", "e1", Color::Black),
        ("4k3/8/8/8/1q6/8/8/4K3 w - - 0 1", "e1", Color::Black),
        ("8/8/8/8/8/8/4k3/K7 w - - 0 1", "d2", Color::Black),
    ] {
        assert!(is_attacked(&board(fen), sq(square), by), "{fen}");
    }
    let quiet = board("4k3/8/8/8/8/8/8/4K3 w - - 0 1");
    assert!(!is_attacked(&quiet, sq("e1"), Color::Black));
    assert!(!is_attacked(&quiet, sq("a1"), Color::Black));
}

#[test]
fn captures_are_exactly_the_capturing_legal_moves() {
    let fen = "r3k2r/p1ppqpb1/bn2pnp1/3PN3/1p2P3/2N2Q1p/PPPBBPPP/R3K2R w KQkq - 0 1";
    let mut b = board(fen);
    let us = b.state().side_to_move();
    let mut pseudo = MoveList::new();
    generate_captures(&b, &mut pseudo);
    let mut got = MoveList::new();
    for &mv in pseudo.as_slice() {
        b.make(mv);
        let ok = !is_attacked(&b, b.king_square(us), us.flip());
        b.unmake(mv);
        if ok {
            got.push(mv);
        }
    }
    let mut all = MoveList::new();
    generate_legal(&mut b, &mut all);
    let mut expected = MoveList::new();
    for &mv in all.as_slice().iter().filter(|mv| mv.is_capture()) {
        expected.push(mv);
    }
    assert!(!expected.is_empty());
    assert_eq!(sorted(&got), sorted(&expected));
}

#[test]
fn shallow_perft_reference_positions() {
    let cases = [
        ("rnbqkbnr/pppppppp/8/8/8/8/PPPPPPPP/RNBQKBNR w KQkq - 0 1", 3, 8_902),
        ("r3k2r/p1ppqpb1/bn2pnp1/3PN3/1p2P3/2N2Q1p/PPPBBPPP/R3K2R w KQkq - 0 1", 2, 2_039),
        ("8/2p5/3p4/KP5r/1R3p1k/8/4P1P1/8 w - - 0 1", 3, 2_812),
        ("r3k2r/Pppp1ppp/1b3nbN/nP6/BBP1P3/q4N2/Pp1P2PP/R2Q1RK1 w kq - 0 1", 2, 264),
        ("rnbq1k1r/pp1Pbppp/2p5/8/2B5/8/PPP1NnPP/RNBQK2R w KQ - 0 1", 2, 1_486),
    ];
    for (fen, depth, expected) in cases {
        let mut b = board(fen);
        assert_eq!(perft(&mut b, depth), expected, "{fen}");
    }
}

#[test]
fn generation_restores_the_board_exactly() {
    let fens = [
        "r3k2r/p1ppqpb1/bn2pnp1/3PN3/1p2P3/2N2Q1p/PPPBBPPP/R3K2R w KQkq - 0 1",
        "rnbq1k1r/pp1Pbppp/2p5/8/2B5/8/PPP1NnPP/RNBQK2R w KQ - 0 1",
        "8/2p5/3p4/KP5r/1R3p1k/8/4P1P1/8 w - - 0 1",
        "4k3/8/8/3pP3/8/8/8/4K3 w - d6 0 1",
    ];
    for fen in fens {
        let mut b = board(fen);
        let before = fen_of(&b);
        let zobrist = b.state().zobrist();
        perft(&mut b, 2);
        assert_eq!(fen_of(&b), before, "{fen}");
        assert_eq!(b.state().zobrist(), zobrist, "{fen}");
    }
}

#[test]
fn divide_sums_to_perft() {
    let mut b = Board::startpos();
    let split = perft_divide(&mut b, 3);
    assert_eq!(split.len(), 20);
    assert_eq!(split.iter().map(|(_, n)| n).sum::<u64>(), 8_902);
}

#[test]
fn divide_orders_by_type_then_origin_then_destination() {
    for fen in [
        "r3k2r/p1ppqpb1/bn2pnp1/3PN3/1p2P3/2N2Q1p/PPPBBPPP/R3K2R w KQkq - 0 1",
        "1n2k3/P7/8/8/8/8/8/4K3 w - - 0 1",
    ] {
        let mut b = board(fen);
        let got: Vec<_> = perft_divide(&mut b, 1)
            .iter()
            .map(|(mv, _)| (mv.move_type().code(), mv.from().index(), mv.to().index()))
            .collect();
        let mut want = got.clone();
        want.sort_unstable();
        assert_eq!(got, want, "{fen}");
    }
}

#[test]
fn base_cases_count_the_node_and_the_move_list() {
    let mut b = Board::startpos();
    assert_eq!(perft(&mut b, 0), 1);
    assert_eq!(perft(&mut b, 1), 20);
}

#[test]
fn detects_mate_and_stalemate() {
    let mut mate = board("rnb1kbnr/pppp1ppp/8/4p3/6Pq/5P2/PPPPP2P/RNBQKBNR w KQkq - 0 1");
    assert_eq!(perft(&mut mate, 1), 0);
    let mut stalemate = board("7k/5Q2/6K1/8/8/8/8/8 b - - 0 1");
    assert_eq!(perft(&mut stalemate, 1), 0);
}

#[test]
fn captures_and_quiets_partition_the_pseudo_legal_moves() {
    for fen in [
        "r3k2r/p1ppqpb1/bn2pnp1/3PN3/1p2P3/2N2Q1p/PPPBBPPP/R3K2R w KQkq - 0 1",
        "rnbqkbnr/pppppppp/8/8/8/8/PPPPPPPP/RNBQKBNR w KQkq - 0 1",
        "4k3/8/8/3pP3/8/8/8/4K3 w - d6 0 1",
    ] {
        let b = board(fen);
        let mut all = MoveList::new();
        generate_pseudo(&b, &mut all);
        let mut split = MoveList::new();
        generate_captures(&b, &mut split);
        let captures = split.len();
        generate_quiets(&b, &mut split);
        assert!(split.as_slice()[..captures].iter().all(|mv| mv.is_capture()));
        assert!(split.as_slice()[captures..].iter().all(|mv| !mv.is_capture()));
        assert_eq!(sorted(&all), sorted(&split), "{fen}");
    }
}

#[test]
fn startpos_has_twenty_moves() {
    let mut b = Board::startpos();
    let mut list = MoveList::new();
    generate_legal(&mut b, &mut list);
    assert_eq!(list.len(), 20);
    assert!(list.as_slice().iter().all(|mv| !mv.is_capture()));
}
