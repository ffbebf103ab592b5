use lattice::board::{Color, Piece, PieceType, Square};
use lattice::tuner::data::{decode, read_shard, DecodeError, RECORD_BYTES};

/// Writes a record: occupancy, then one nibble per piece in square order,
/// the score and the result code.
fn encode(pieces: &[(Color, PieceType, u8)], score: i16, result: u8) -> [u8; RECORD_BYTES] {
    let mut record = [0u8; RECORD_BYTES];
    let mut occ = 0u64;
    for &(_, _, square) in pieces {
        occ |= 1 << square;
    }
    record[0..8].copy_from_slice(&occ.to_le_bytes());
    let mut sorted: Vec<_> = pieces.to_vec();
    sorted.sort_by_key(|&(_, _, square)| square);
    for (index, (color, kind, _)) in sorted.into_iter().enumerate() {
        let nibble = ((color as u8) << 3) | kind as u8;
        record[8 + index / 2] |= nibble << (4 * (index & 1));
    }
    record[24..26].copy_from_slice(&score.to_le_bytes());
    record[26] = result;
    record
}

/// The training target of a result code: loss 0, draw 0.5, win 1.
fn target(code: u8) -> f32 {
    code as f32 / 2.0
}

#[test]
fn a_record_round_trips_to_the_placement_it_encodes() {
    let pieces = [
        (Color::White, PieceType::King, 4),
        (Color::White, PieceType::Rook, 0),
        (Color::Black, PieceType::King, 60),
        (Color::Black, PieceType::Pawn, 51),
        (Color::White, PieceType::Knight, 6),
    ];
    let sample = decode(&encode(&pieces, 42, 2)).expect("decodes");
    for (color, kind, square) in pieces {
        let square = Square::new_unchecked(square);
        assert_eq!(
            sample.board.piece_on(square),
            Some(Piece::new(color, kind)),
            "wrong piece on square {square:?}"
        );
    }
    assert_eq!(sample.board.occupied().count(), pieces.len() as u32);
    assert_eq!(sample.score, 42);
    assert_eq!(target(sample.result), 1.0);
}

#[test]
fn the_result_codes_map_to_loss_draw_and_win() {
    let pieces = [(Color::White, PieceType::King, 4), (Color::Black, PieceType::King, 60)];
    for (code, expected) in [(0u8, 0.0), (1, 0.5), (2, 1.0)] {
        let sample = decode(&encode(&pieces, 0, code)).expect("decodes");
        assert_eq!(target(sample.result), expected, "result code {code}");
    }
    assert_eq!(decode(&encode(&pieces, 0, 3)).unwrap_err(), DecodeError::BadResult(3));
}

#[test]
fn a_ragged_shard_is_rejected_rather_than_truncated() {
    assert_eq!(
        read_shard(&[0u8; RECORD_BYTES + 7]).unwrap_err(),
        DecodeError::Ragged(RECORD_BYTES + 7)
    );
    assert!(read_shard(&[]).is_ok());
}

#[test]
fn a_kingless_record_is_rejected_rather_than_panicking() {
    let (samples, rejected) = read_shard(&[0u8; RECORD_BYTES * 3]).expect("well-formed");
    assert!(samples.is_empty());
    assert_eq!(rejected, 3);
}
