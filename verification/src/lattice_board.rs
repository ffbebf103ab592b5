//! Board primitives: colors, pieces, squares, bitboards, moves, castling
//! rights, the board itself and FEN parsing.

pub mod bitboard;
pub mod board;
pub mod castling;
pub mod fen;
pub mod moves;
pub mod piece;
pub mod square;
pub mod zobrist;

pub use bitboard::{Bitboard, Squares};
pub use board::Board;
pub use castling::CastlingRights;
pub use fen::ParseFenError;
pub use moves::{Move, MoveFlag};
pub use piece::{Color, Piece, PieceType};
pub use zobrist::{Zobrist, ZobristHash};
pub use square::{ParseSquareError, Square};
