use lattice::board::{Color, Piece, PieceType, Square};
use lattice::nnue::{feature_index, FEATURES};

#[test]
fn golden_indices_fix_the_feature_abi() {
    let e1 = Square::new(4, 0).unwrap();
    let e8 = Square::new(4, 7).unwrap();
    let a2 = Square::new(0, 1).unwrap();
    let pawn = Piece::new(Color::White, PieceType::Pawn);
    assert_eq!(feature_index(Color::White, e1, pawn, a2), Some(2_568));
    assert_eq!(feature_index(Color::Black, e8, pawn, a2), Some(2_928));
    assert!(feature_index(Color::White, e1, Piece::new(Color::White, PieceType::King), e1).is_none());
}

#[test]
fn every_legal_category_stays_in_range() {
    for perspective in [Color::White, Color::Black] {
        for king_index in 0..64 {
            let king = Square::new_unchecked(king_index);
            for color in [Color::White, Color::Black] {
                for kind in [
                    PieceType::Pawn,
                    PieceType::Knight,
                    PieceType::Bishop,
                    PieceType::Rook,
                    PieceType::Queen,
                ] {
                    for square_index in 0..64 {
                        let index = feature_index(
                            perspective,
                            king,
                            Piece::new(color, kind),
                            Square::new_unchecked(square_index),
                        )
                        .unwrap();
                        assert!(index < FEATURES);
                    }
                }
            }
        }
    }
}
