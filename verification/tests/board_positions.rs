use std::str::FromStr;

use lattice::board::{Bitboard, Board, CastlingRights, Color, Move, MoveType, Piece, PieceType, Square};

fn sq(s: &str) -> Square {
    Square::new_unchecked((s.as_bytes()[1] - b'1') * 8 + s.as_bytes()[0] - b'a')
}

fn fen_of(b: &Board) -> String {
    String::from_utf8(b.to_fen()).unwrap()
}

const VALID_MOVE_TYPES: [MoveType; 14] = [
    MoveType::Quiet,
    MoveType::DoublePawnPush,
    MoveType::KingCastle,
    MoveType::QueenCastle,
    MoveType::Capture,
    MoveType::EnPassant,
    MoveType::KnightPromo,
    MoveType::BishopPromo,
    MoveType::RookPromo,
    MoveType::QueenPromo,
    MoveType::KnightPromoCap,
    MoveType::BishopPromoCap,
    MoveType::RookPromoCap,
    MoveType::QueenPromoCap,
];

const COLORS: [Color; 2] = [Color::White, Color::Black];
const PIECE_TYPES: [PieceType; 6] = [
    PieceType::Pawn,
    PieceType::Knight,
    PieceType::Bishop,
    PieceType::Rook,
    PieceType::Queen,
    PieceType::King,
];

#[test]
fn operations_cover_all_squares() {
    let mut board = Bitboard::empty();
    assert!(board.is_empty());
    assert_eq!(board.lsb(), None);
    for i in 0..64 {
        let s = Square::new_unchecked(i);
        board.set(s);
        assert!(board.contains(s));
    }
    assert_eq!(board.count(), 64);
    let mut walk = board;
    let mut seen: Vec<u8> = Vec::new();
    while let Some(s) = walk.next() {
        seen.push(s.index());
    }
    assert_eq!(board.count() as usize, seen.len());
    assert_eq!(seen, (0..64).collect::<Vec<_>>());
    for i in 0..64 {
        let s = Square::new_unchecked(i);
        board.clear(s);
        assert!(!board.contains(s));
    }
    assert!(board.is_empty());
    assert_eq!(board.lsb(), None);
}

#[test]
fn moves_roundtrip_valid_domain_exhaustively() {
    for from_index in 0..64 {
        let from = Square::from_index(from_index).unwrap();
        for to_index in 0..64 {
            let to = Square::from_index(to_index).unwrap();
            if from == to {
                continue;
            }
            for move_type in VALID_MOVE_TYPES {
                let chess_move = Move::new(from, to, move_type);
                assert_eq!(chess_move.from(), from);
                assert_eq!(chess_move.to(), to);
                assert_eq!(chess_move.move_type(), move_type);
                assert_eq!(chess_move.is_capture(), move_type.is_capture());
                assert_eq!(chess_move.is_promotion(), move_type.is_promotion());
                assert_eq!(chess_move.promoted_piece(), move_type.promoted_piece());
                assert_eq!(Move::from_bits(chess_move.to_bits()), Some(chess_move));
            }
        }
    }
}

#[test]
fn pieces_roundtrip_exhaustively() {
    for color in COLORS {
        for piece_type in PIECE_TYPES {
            let piece = Piece::new(color, piece_type);
            assert_eq!(piece.color(), color);
            assert_eq!(piece.piece_type(), piece_type);
        }
    }
}

#[test]
fn flips_are_involutions() {
    for color in COLORS {
        assert_eq!(color.flip().flip(), color);
        for piece_type in PIECE_TYPES {
            let piece = Piece::new(color, piece_type);
            assert_eq!(piece.flip_color().flip_color(), piece);
        }
    }
}

#[test]
fn squares_roundtrip_exhaustively() {
    for index in 0..64 {
        let square = Square::from_index(index).unwrap();
        assert_eq!(square.index(), index);
        assert_eq!(Square::new(square.file(), square.rank()), Some(square));
    }
}

#[test]
fn rank_flip_is_an_involution() {
    for index in 0..64 {
        let square = Square::from_index(index).unwrap();
        assert_eq!(square.flip_rank().flip_rank(), square);
    }
}

#[test]
fn rejects_out_of_range_coordinates() {
    assert_eq!(Square::new(8, 0), None);
    assert_eq!(Square::from_index(64), None);
}

#[test]
fn fen_roundtrips_corpus() {
    let mut fens: Vec<String> = vec![
        "rnbqkbnr/pppppppp/8/8/8/8/PPPPPPPP/RNBQKBNR w KQkq - 0 1",
        "r3k2r/p1ppqpb1/bn2pnp1/3PN3/1p2P3/2N2Q1p/PPPBBPPP/R3K2R w KQkq - 0 1",
        "8/2p5/3p4/KP5r/1R3p1k/8/4P1P1/8 w - - 0 1",
        "r3k2r/Pppp1ppp/1b3nbN/nP6/BBP1P3/q4N2/Pp1P2PP/R2Q1RK1 w kq - 0 1",
        "rnbq1k1r/pp1Pbppp/2p2n2/8/8/6B1/PPP1NPPP/RN1QK2R w KQ - 1 8",
        "r4rk1/1pp1qppp/p1np1n2/8/2B1P3/2N1Q3/PPP2PPP/2KR3R w - - 0 10",
    ]
    .into_iter()
    .map(String::from)
    .collect();
    for mask in 0..16 {
        let mut r = String::new();
        for (b, c) in [(1, 'K'), (2, 'Q'), (4, 'k'), (8, 'q')] {
            if mask & b != 0 {
                r.push(c)
            }
        }
        if r.is_empty() {
            r.push('-')
        }
        fens.push(format!("4k3/8/8/8/8/8/8/4K3 w {r} - 0 1"));
    }
    fens.push(String::from("4k3/8/8/3pP3/8/8/8/4K3 w - d6 0 2"));
    for fen in &fens {
        assert_eq!(&fen_of(&Board::from_str(fen).unwrap()), fen);
    }
}

#[test]
fn all_move_types_roundtrip() {
    let cases = [
        ("4k3/8/8/8/8/8/4P3/4K3 w - - 0 1", "e2", "e3", MoveType::Quiet),
        ("4k3/8/8/8/8/8/4P3/4K3 w - - 0 1", "e2", "e4", MoveType::DoublePawnPush),
        ("4k3/8/8/8/8/8/8/4K2R w K - 0 1", "e1", "g1", MoveType::KingCastle),
        ("4k3/8/8/8/8/8/8/R3K3 w Q - 0 1", "e1", "c1", MoveType::QueenCastle),
        ("4k3/8/8/8/8/3p4/4P3/4K3 w - - 0 1", "e2", "d3", MoveType::Capture),
        ("4k3/8/8/3pP3/8/8/8/4K3 w - d6 0 1", "e5", "d6", MoveType::EnPassant),
        ("4k3/P7/8/8/8/8/8/4K3 w - - 0 1", "a7", "a8", MoveType::KnightPromo),
        ("4k3/P7/8/8/8/8/8/4K3 w - - 0 1", "a7", "a8", MoveType::BishopPromo),
        ("4k3/P7/8/8/8/8/8/4K3 w - - 0 1", "a7", "a8", MoveType::RookPromo),
        ("4k3/P7/8/8/8/8/8/4K3 w - - 0 1", "a7", "a8", MoveType::QueenPromo),
        ("1n2k3/P7/8/8/8/8/8/4K3 w - - 0 1", "a7", "b8", MoveType::KnightPromoCap),
        ("1r2k3/P7/8/8/8/8/8/4K3 w - - 0 1", "a7", "b8", MoveType::BishopPromoCap),
        ("1b2k3/P7/8/8/8/8/8/4K3 w - - 0 1", "a7", "b8", MoveType::RookPromoCap),
        ("1q2k3/P7/8/8/8/8/8/4K3 w - - 0 1", "a7", "b8", MoveType::QueenPromoCap),
    ];
    for (fen, a, b, t) in cases {
        let mut board = Board::from_str(fen).unwrap();
        let before = Board::from_str(fen).unwrap();
        let mv = Move::new(sq(a), sq(b), t);
        board.make(mv);
        assert_eq!(board.state().zobrist(), board.recompute_zobrist());
        board.unmake(mv);
        assert_eq!(board.occupied(), before.occupied(), "occupied {t:?}");
        assert_eq!(board.state(), before.state(), "state {t:?}");
        assert_eq!(board, before);
        assert_eq!(board.state().zobrist(), board.recompute_zobrist());
    }
}

#[test]
fn fen_rejects_malformed_input() {
    for bad in [
        "not a fen",
        "",
        "rnbqkbnr/pppppppp/8/8/8/8/PPPPPPPP/RNBQKBNR w KQkq - 0",
        "9/8/8/8/8/8/8/8 w - - 0 1",
        "4k3/8/8/8/8/8/8/4K3 x - - 0 1",
        "4k3/8/8/8/8/4K3 w - - 0 1",
        "4k3/8/8/8/8/8/8/4K3 w KK - 0 1",
        "4k3/8/8/8/8/8/8/4K3 w - - 0 0",
    ] {
        assert!(Board::from_str(bad).is_err(), "accepted {bad:?}");
    }
}

#[test]
fn multi_ply_sequence_unwinds() {
    let fen = "r3k2r/pppq1ppp/2np1n2/2b1p1B1/2B1P1b1/2NP1N2/PPPQ1PPP/R3K2R w KQkq - 0 1";
    let mut b = Board::from_str(fen).unwrap();
    let before = Board::from_str(fen).unwrap();
    let seq = [
        (sq("e1"), sq("g1"), MoveType::KingCastle),
        (sq("e8"), sq("c8"), MoveType::QueenCastle),
        (sq("g5"), sq("f6"), MoveType::Capture),
        (sq("g4"), sq("f3"), MoveType::Capture),
        (sq("g2"), sq("f3"), MoveType::Capture),
    ];
    let mvs: Vec<_> = seq.iter().map(|&(f, t, k)| Move::new(f, t, k)).collect();
    for m in &mvs {
        b.make(*m);
    }
    for m in mvs.iter().rev() {
        b.unmake(*m);
    }
    assert_eq!(b, before, "multi-ply unwind mismatch");
}

#[test]
fn make_updates_every_state_field() {
    let cases = [
        ("4k3/8/8/8/8/8/8/4K1N1 w - - 5 9", ("g1", "f3", MoveType::Quiet), "4k3/8/8/8/8/5N2/8/4K3 b - - 6 9"),
        ("4k1n1/8/8/8/8/8/8/4K3 b - - 5 9", ("g8", "f6", MoveType::Quiet), "4k3/8/5n2/8/8/8/8/4K3 w - - 6 10"),
        ("4k3/8/8/8/8/8/4P3/4K3 w - - 7 9", ("e2", "e3", MoveType::Quiet), "4k3/8/8/8/8/4P3/8/4K3 b - - 0 9"),
        ("4k3/8/8/8/8/8/4P3/4K3 w - - 7 9", ("e2", "e4", MoveType::DoublePawnPush), "4k3/8/8/8/4P3/8/8/4K3 b - e3 0 9"),
        ("4k3/8/8/8/8/5n2/8/4K1N1 w - - 7 9", ("g1", "f3", MoveType::Capture), "4k3/8/8/8/8/5N2/8/4K3 b - - 0 9"),
        ("4k3/8/8/8/8/8/8/R3K2R w KQ - 3 9", ("e1", "f1", MoveType::Quiet), "4k3/8/8/8/8/8/8/R4K1R b - - 4 9"),
        ("4k3/8/8/8/8/8/8/R3K2R w KQ - 3 9", ("e1", "g1", MoveType::KingCastle), "4k3/8/8/8/8/8/8/R4RK1 b - - 4 9"),
    ];
    for (fen, (from, to, kind), after) in cases {
        let mut b = Board::from_str(fen).unwrap();
        let m = Move::new(sq(from), sq(to), kind);
        b.make(m);
        assert_eq!(fen_of(&b), after, "make {from}{to} from {fen}");
        b.unmake(m);
        assert_eq!(fen_of(&b), fen, "unmake {from}{to} from {fen}");
    }
}

#[test]
fn en_passant_captures_the_pawn_beside_the_capturer() {
    for (fen, from, to, after) in [
        ("4k3/8/8/3pP3/8/8/8/4K3 w - d6 0 2", "e5", "d6", "4k3/8/3P4/8/8/8/8/4K3 b - - 0 2"),
        ("4k3/8/8/8/3Pp3/8/8/4K3 b - d3 0 2", "e4", "d3", "4k3/8/8/8/8/3p4/8/4K3 w - - 0 3"),
    ] {
        let mut b = Board::from_str(fen).unwrap();
        let m = Move::new(sq(from), sq(to), MoveType::EnPassant);
        b.make(m);
        assert_eq!(fen_of(&b), after, "ep {from}{to}");
        b.unmake(m);
        assert_eq!(fen_of(&b), fen, "ep unmake {from}{to}");
    }
}

#[test]
fn ep_right_is_restored_after_unrelated_move() {
    let fen = "4k3/8/8/3pP3/8/8/6P1/4K3 w - d6 0 2";
    let mut b = Board::from_str(fen).unwrap();
    let before = Board::from_str(fen).unwrap();
    let m = Move::new(sq("g2"), sq("g3"), MoveType::Quiet);
    b.make(m);
    assert_eq!(b.state().en_passant(), None, "ep must clear after a non-double-push");
    b.unmake(m);
    assert_eq!(b.state().en_passant(), Some(sq("d6")), "ep must be restored");
    assert_eq!(b, before);
}

#[test]
fn rook_capture_revokes_castling() {
    let fen = "r3k2r/8/8/8/8/8/8/R3K2R w KQkq - 0 1";
    let mut b = Board::from_str(fen).unwrap();
    let before = Board::from_str(fen).unwrap();
    let m = Move::new(sq("a1"), sq("a8"), MoveType::Capture);
    b.make(m);
    assert!(!b.state().castling().contains(CastlingRights::black_queen()), "captured rook keeps its right");
    assert!(!b.state().castling().contains(CastlingRights::white_queen()), "moved rook keeps its right");
    assert!(b.state().castling().contains(CastlingRights::white_king()));
    b.unmake(m);
    assert_eq!(b, before);
}

#[test]
fn startpos_matches_its_fen() {
    let b = Board::startpos();
    assert_eq!(fen_of(&b), "rnbqkbnr/pppppppp/8/8/8/8/PPPPPPPP/RNBQKBNR w KQkq - 0 1");
    assert_eq!(b, Board::from_fen(b"rnbqkbnr/pppppppp/8/8/8/8/PPPPPPPP/RNBQKBNR w KQkq - 0 1").unwrap());
    assert_eq!(b.king_square(Color::White), sq("e1"));
    assert_eq!(b.king_square(Color::Black), sq("e8"));
    assert_eq!(b.piece_on(sq("d8")), Some(Piece::new(Color::Black, PieceType::Queen)));
    assert_eq!(b.pieces(PieceType::Pawn).count(), 16);
    assert_eq!(b.color(Color::White).count(), 16);
    assert_eq!(b.state().zobrist(), b.recompute_zobrist());
}

#[test]
fn zobrist_tracks_every_make() {
    let mut b = Board::from_str("r3k2r/p1ppqpb1/bn2pnp1/3PN3/1p2P3/2N2Q1p/PPPBBPPP/R3K2R w KQkq - 0 1").unwrap();
    let start = b.state().zobrist();
    let seq = [
        Move::new(sq("e1"), sq("g1"), MoveType::KingCastle),
        Move::new(sq("h3"), sq("g2"), MoveType::Capture),
        Move::new(sq("d5"), sq("e6"), MoveType::Capture),
    ];
    for m in seq {
        b.make(m);
        assert_eq!(b.state().zobrist(), b.recompute_zobrist());
        assert_ne!(b.state().zobrist(), start);
    }
    for m in seq.iter().rev() {
        b.unmake(*m);
    }
    assert_eq!(b.state().zobrist(), start);
}
