use lattice::lattice_board::{
    Bitboard, Board, CastlingRights, Color, Move, MoveFlag, ParseFenError, Piece, PieceType, Square,
};

fn sq(s: &str) -> Square {
    Square::from_ascii(s.as_bytes()).unwrap()
}

fn ep(s: &str) -> Option<Square> {
    Some(sq(s))
}

fn mv(src: &str, dst: &str, flag: MoveFlag) -> Move {
    Move::new(sq(src), sq(dst), flag)
}

fn white(t: PieceType) -> Piece {
    Piece::new(Color::White, t)
}

fn black(t: PieceType) -> Piece {
    Piece::new(Color::Black, t)
}

#[test]
fn set_clear_contains() {
    let mut bb = Bitboard::empty();
    assert!(bb.is_empty());
    bb.set(sq("e4"));
    assert!(bb.contains(sq("e4")));
    assert!(!bb.contains(sq("e5")));
    assert_eq!(bb.count(), 1);
    bb.clear(sq("e4"));
    assert!(bb.is_empty());
}

#[test]
fn from_square_matches_set() {
    for i in 0..64u8 {
        let s = Square::from_index(i);
        let mut bb = Bitboard::empty();
        bb.set(s);
        assert_eq!(Bitboard::from_square(s), bb);
    }
}

#[test]
fn bit_ops() {
    let a = Bitboard::from_square(sq("a1")).or(Bitboard::from_square(sq("b1")));
    let b = Bitboard::from_square(sq("b1")).or(Bitboard::from_square(sq("c1")));
    assert_eq!(a.and(b).count(), 1);
    assert_eq!(a.or(b).count(), 3);
    assert_eq!(a.xor(b).count(), 2);
    assert_eq!(Bitboard::empty().complement().count(), 64);
}

#[test]
fn iterates_set_squares_in_order() {
    let squares = [sq("a1"), sq("e4"), sq("h8")];
    let mut bb = Bitboard::empty();
    for &s in &squares {
        bb.set(s);
    }
    let mut it = bb.iter();
    let mut collected: Vec<Square> = Vec::new();
    while let Some(s) = it.next() {
        collected.push(s);
    }
    assert_eq!(collected, squares);
    assert_eq!(bb.iter().len(), 3);
}

#[test]
fn file_and_rank_masks() {
    let file_a = Bitboard::file_mask(0);
    let file_h = Bitboard::file_mask(7);
    assert_eq!(file_a.bits(), 0x0101_0101_0101_0101);
    assert_eq!(file_h.bits(), 0x8080_8080_8080_8080);
    assert_eq!(file_a.count(), 8);
    assert_eq!(Bitboard::rank_mask(0).count(), 8);

    let a1 = sq("a1");
    assert!(file_a.contains(a1));
    assert!(Bitboard::rank_mask(0).contains(a1));
    assert!(!file_h.contains(a1));
    assert!(!Bitboard::rank_mask(7).contains(a1));

    let e4 = sq("e4");
    let inter = Bitboard::file_mask(e4.file()).and(Bitboard::rank_mask(e4.rank()));
    assert_eq!(inter.count(), 1);
    assert!(inter.contains(e4));
}

#[test]
fn null_move_is_recognized() {
    assert!(Move::null().is_null());
    assert_eq!(Move::null().from(), Move::null().to());
    let real = Move::new(Square::from_index(12), Square::from_index(28), MoveFlag::Quiet);
    assert!(!real.is_null());
    assert!(Some(Move::null()).is_some());
}

#[test]
fn test_move_creation_and_decompression() {
    let src_s = Square::new(1, 4);
    let dst_s = Square::new(3, 4);
    let quiet_move = Move::new(src_s, dst_s, MoveFlag::Quiet);
    assert_eq!(quiet_move.from(), src_s);
    assert_eq!(quiet_move.to(), dst_s);
    assert_eq!(quiet_move.flag(), MoveFlag::Quiet);
    let expected_u16 = (src_s.index() as u16)
        | ((dst_s.index() as u16) << 6)
        | ((MoveFlag::Quiet.as_u8() as u16) << 12);
    assert_eq!(quiet_move.as_u16(), expected_u16);
}

#[test]
fn test_move_capture_and_flagging() {
    let src = Square::new(6, 0);
    let dst = Square::new(7, 7);
    let capture_move = Move::new(src, dst, MoveFlag::Capture);
    assert_eq!(capture_move.from(), src);
    assert_eq!(capture_move.to(), dst);
    assert!(capture_move.flag().is_capture());

    let promo_move = Move::new(Square::new(6, 1), Square::new(7, 1), MoveFlag::PromoQueenCapture);
    assert!(promo_move.flag().is_promotion());
    assert!(promo_move.flag().is_capture());
}

#[test]
fn test_move_full_range_sanity_check() {
    let src_h8 = Square::new(7, 7);
    let dst_a1 = Square::new(0, 0);
    let quiet_move = Move::new(src_h8, dst_a1, MoveFlag::Quiet);
    assert_eq!(quiet_move.from(), src_h8);
    assert_eq!(quiet_move.to(), dst_a1);
    let capture_move = Move::new(src_h8, dst_a1, MoveFlag::Capture);
    assert!(capture_move.flag().is_capture());
}

const PIECE_INDICES: [(Color, PieceType); 12] = [
    (Color::White, PieceType::Pawn),
    (Color::Black, PieceType::Pawn),
    (Color::White, PieceType::Knight),
    (Color::Black, PieceType::Knight),
    (Color::White, PieceType::Bishop),
    (Color::Black, PieceType::Bishop),
    (Color::White, PieceType::Rook),
    (Color::Black, PieceType::Rook),
    (Color::White, PieceType::Queen),
    (Color::Black, PieceType::Queen),
    (Color::White, PieceType::King),
    (Color::Black, PieceType::King),
];

#[test]
fn test_piece_from_u8() {
    for (i, (color, piece)) in PIECE_INDICES.iter().enumerate() {
        let p = Piece::from_u8(i as u8);
        assert_eq!(p.color(), *color);
        assert_eq!(p.piece(), *piece);
    }
}

#[test]
fn test_piece_constructor() {
    for (i, (color, piece)) in PIECE_INDICES.iter().enumerate() {
        let p = Piece::new(*color, *piece);
        assert_eq!(p.color(), *color);
        assert_eq!(p.piece(), *piece);
        assert_eq!(p.as_u8(), i as u8);
    }
}

#[test]
fn const_startpos_matches_fen() {
    let from_fen =
        Board::from_fen(b"rnbqkbnr/pppppppp/8/8/8/8/PPPPPPPP/RNBQKBNR w KQkq - 0 1").unwrap();
    assert!(Board::starting_position() == from_fen);
}

#[test]
fn make_unmake_round_trips() {
    let cases: &[(&str, Move)] = &[
        ("rnbqkbnr/pppppppp/8/8/8/8/PPPPPPPP/RNBQKBNR w KQkq - 0 1", mv("b1", "c3", MoveFlag::Quiet)),
        ("rnbqkbnr/pppppppp/8/8/8/8/PPPPPPPP/RNBQKBNR w KQkq - 0 1", mv("e2", "e4", MoveFlag::DoublePawnPush)),
        ("rnbqkbnr/pppppppp/8/8/8/8/PPPPPPPP/RNBQKBNR b KQkq - 0 1", mv("b8", "c6", MoveFlag::Quiet)),
        ("4k3/8/8/3p4/4P3/8/8/4K3 w - - 0 1", mv("e4", "d5", MoveFlag::Capture)),
        ("4k3/8/8/3pP3/8/8/8/4K3 w - d6 0 1", mv("e5", "d6", MoveFlag::EnPassant)),
        ("4k3/P7/8/8/8/8/8/4K3 w - - 0 1", mv("a7", "a8", MoveFlag::PromoQueen)),
        ("1n2k3/P7/8/8/8/8/8/4K3 w - - 0 1", mv("a7", "b8", MoveFlag::PromoQueenCapture)),
        ("4k3/8/8/8/8/8/8/4K2R w K - 0 1", mv("e1", "g1", MoveFlag::KingCastle)),
        ("r3k3/8/8/8/8/8/8/R3K3 w Q - 0 1", mv("e1", "c1", MoveFlag::QueenCastle)),
    ];
    for (fen, m) in cases {
        let original = Board::from_fen(fen.as_bytes()).unwrap();
        let mut work = original.clone();
        let undo = work.make_move(*m);
        assert!(work != original, "make must change the board: {fen} {m:?}");
        work.unmake_move(*m, undo);
        assert!(work == original, "round trip must restore: {fen} {m:?}");
    }
}

#[test]
fn capture_removes_victim() {
    let mut b = Board::from_fen(b"4k3/8/8/3p4/4P3/8/8/4K3 w - - 0 1").unwrap();
    assert_eq!(b.occupied().count(), 4);
    let m = mv("e4", "d5", MoveFlag::Capture);
    let undo = b.make_move(m);
    assert_eq!(b.occupied().count(), 3);
    assert_eq!(b.occupied_by(Color::Black).count(), 1);
    assert_eq!(b.piece_at(sq("d5")), Some(white(PieceType::Pawn)));
    b.unmake_move(m, undo);
    assert_eq!(b.occupied().count(), 4);
    assert_eq!(b.piece_at(sq("d5")), Some(black(PieceType::Pawn)));
}

#[test]
fn make_move_updates_clocks_and_ep() {
    let mut b = Board::starting_position();
    let m1 = mv("e2", "e4", MoveFlag::DoublePawnPush);
    let u1 = b.make_move(m1);
    assert_eq!(b.side_to_move(), Color::Black);
    assert_eq!(b.en_passant(), ep("e3"));
    assert_eq!(b.piece_at(sq("e4")), Some(white(PieceType::Pawn)));
    assert_eq!(b.piece_at(sq("e2")), None);

    let m2 = mv("e7", "e5", MoveFlag::DoublePawnPush);
    let u2 = b.make_move(m2);
    assert_eq!(b.full_moves(), 2);
    assert_eq!(b.en_passant(), ep("e6"));
    assert_eq!(b.side_to_move(), Color::White);

    b.unmake_move(m2, u2);
    assert_eq!(b.full_moves(), 1);
    assert_eq!(b.en_passant(), ep("e3"));
    b.unmake_move(m1, u1);
    assert!(b == Board::starting_position());
}

#[test]
fn castling_rights_clear_and_restore() {
    let start = Board::from_fen(b"r3k2r/8/8/8/8/8/8/R3K2R w KQkq - 0 1").unwrap();
    let black_both = CastlingRights::black_kingside().union(CastlingRights::black_queenside());

    let mut b = start.clone();
    let m = mv("e1", "e2", MoveFlag::Quiet);
    let u = b.make_move(m);
    assert_eq!(b.castling_rights(), black_both);
    b.unmake_move(m, u);
    assert_eq!(b.castling_rights(), CastlingRights::all());

    let mut b = start.clone();
    let _ = b.make_move(mv("a1", "a4", MoveFlag::Quiet));
    assert!(!b.castling_rights().contains(CastlingRights::white_queenside()));
    assert!(b.castling_rights().contains(CastlingRights::white_kingside()));

    let mut b = start.clone();
    let _ = b.make_move(mv("a1", "a8", MoveFlag::Capture));
    assert_eq!(
        b.castling_rights(),
        CastlingRights::white_kingside().union(CastlingRights::black_kingside())
    );

    let mut b = start.clone();
    let _ = b.make_move(mv("e1", "g1", MoveFlag::KingCastle));
    assert_eq!(b.castling_rights(), black_both);
}

#[test]
fn board_occupancy_and_piece_at() {
    let board = Board::starting_position();
    assert_eq!(board.occupied().count(), 32);
    assert_eq!(board.occupied_by(Color::White).count(), 16);
    assert_eq!(board.occupied_by(Color::Black).count(), 16);
    assert_eq!(board.occupied_by(Color::White).and(board.occupied_by(Color::Black)), Bitboard::empty());
    assert_eq!(board.occupied_by(Color::White).or(board.occupied_by(Color::Black)), board.occupied());
    assert_eq!(board.piece_at(sq("e1")), Some(white(PieceType::King)));
    assert_eq!(board.piece_at(sq("e4")), None);
}

#[test]
fn parses_full_starting_position() {
    let fen = "rnbqkbnr/pppppppp/8/8/8/8/PPPPPPPP/RNBQKBNR w KQkq - 0 1";
    let board = Board::from_fen(fen.as_bytes()).expect("valid fen should parse");
    assert_eq!(board.side_to_move(), Color::White);
    assert_eq!(board.half_move_clock(), 0);
    assert_eq!(board.full_moves(), 1);
    assert_eq!(board.castling_rights(), CastlingRights::all());
    assert_eq!(board.en_passant(), None);
    let mut occupied: u32 = 0;
    for i in 0..12u8 {
        occupied += board.bitboard_for(Piece::from_u8(i)).count();
    }
    assert_eq!(occupied, 32);
    assert!(board.bitboard_for(white(PieceType::King)).contains(sq("e1")));
}

#[test]
fn parses_en_passant_and_clocks() {
    let fen = "rnbqkbnr/pppp1ppp/8/4p3/4P3/8/PPPP1PPP/RNBQKBNR w KQkq e6 1 2";
    let board = Board::from_fen(fen.as_bytes()).expect("valid fen should parse");
    assert_eq!(board.en_passant(), ep("e6"));
    assert_eq!(board.half_move_clock(), 1);
    assert_eq!(board.full_moves(), 2);

    let fen = "rnbqkbnr/pp1ppppp/8/2p5/4P3/5N2/PPPP1PPP/RNBQKB1R b Kq - 1 2";
    let board = Board::from_fen(fen.as_bytes()).expect("valid fen should parse");
    assert_eq!(
        board.castling_rights(),
        CastlingRights::white_kingside().union(CastlingRights::black_queenside())
    );
}

#[test]
fn lenient_truncation_uses_defaults() {
    let board = Board::from_fen(b"8/8/8/8/8/8/8/8 b").expect("partial fen should parse");
    assert_eq!(board.side_to_move(), Color::Black);
    assert_eq!(board.castling_rights(), CastlingRights::none());
    assert_eq!(board.en_passant(), None);
    assert_eq!(board.half_move_clock(), 0);
    assert_eq!(board.full_moves(), 1);
}

#[test]
fn error_variants_are_reachable() {
    let cases: &[(&[u8], ParseFenError)] = &[
        (b"8/8/8/8/8/8/8/8/8 w", ParseFenError::InvalidPlacement),
        (b"8/8/8/8/8/8/8/8 x", ParseFenError::UnexpectedChar(0)),
        (b"8/8/8/8/8/8/8/8 ", ParseFenError::IncompleteFen),
        (b"8/8/8/8/8/8/8/8 w KK", ParseFenError::InvalidCastlingRights),
        (b"8/8/8/8/8/8/8/8 w KQkq e4", ParseFenError::InvalidEnpassentSquare),
        (b"8/8/8/8/8/8/8/8 w KQkq - 99999999999 1", ParseFenError::InvalidNumber),
        (b"8/8/8/8/8/8/8/8 w KQkq - 300 1", ParseFenError::InvalidHalfMoveClock),
        (b"8/8/8/8/8/8/8/8 w KQkq - 0 0", ParseFenError::InvalidFullMove),
    ];
    for (input, expected) in cases {
        let text = std::str::from_utf8(input).unwrap();
        match Board::from_fen(input) {
            Err(got) => assert_eq!(
                std::mem::discriminant(&got),
                std::mem::discriminant(expected),
                "input {text:?}: got {got:?}, expected {expected:?}"
            ),
            Ok(_) => panic!("expected error for input {text:?}"),
        }
    }
}

#[test]
fn parses_boundary_values() {
    let board = Board::from_fen(b"8/8/8/8/8/8/8/8 w KQkq e3 255 65535").expect("valid fen");
    assert_eq!(board.half_move_clock(), 255);
    assert_eq!(board.full_moves(), 65535);
    assert_eq!(board.en_passant(), ep("e3"));

    let board = Board::from_fen(b"8/8/8/8/8/8/8/8 b - c6").expect("valid fen");
    assert_eq!(board.en_passant(), ep("c6"));
}
