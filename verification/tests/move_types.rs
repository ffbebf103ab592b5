use lattice::board::{MoveType, PieceType};

const MOVE_TYPES: [MoveType; 16] = [
    MoveType::Quiet,
    MoveType::DoublePawnPush,
    MoveType::KingCastle,
    MoveType::QueenCastle,
    MoveType::Capture,
    MoveType::EnPassant,
    MoveType::Reserved6,
    MoveType::Reserved7,
    MoveType::KnightPromo,
    MoveType::BishopPromo,
    MoveType::RookPromo,
    MoveType::QueenPromo,
    MoveType::KnightPromoCap,
    MoveType::BishopPromoCap,
    MoveType::RookPromoCap,
    MoveType::QueenPromoCap,
];

#[test]
fn move_types_roundtrip_all_nibbles() {
    for (nibble, move_type) in MOVE_TYPES.into_iter().enumerate() {
        assert_eq!(MoveType::from_nibble(nibble as u8), move_type);
    }
}

#[test]
fn move_type_bit_predicates_agree_with_variants() {
    for move_type in MOVE_TYPES {
        let nibble = move_type.code();
        assert_eq!(move_type.is_capture(), nibble & 0b0100 != 0);
        assert_eq!(move_type.is_promotion(), nibble & 0b1000 != 0);
        assert_eq!(move_type.promoted_piece().is_some(), nibble >= 8);
        if nibble >= 8 {
            assert_eq!(
                move_type.promoted_piece(),
                Some(PieceType::from_index(
                    PieceType::Knight.index() + (nibble & 0b0011)
                ))
            );
        }
    }
}
