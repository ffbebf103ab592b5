//! Core chess board value types: squares, pieces, moves, bitboards, game
//! state, the board itself and FEN.

pub mod bitboard;
pub mod board;
pub mod fen;
pub mod moves;
pub mod piece;
pub mod square;
pub mod state;

pub use bitboard::Bitboard;
pub use board::Board;
pub use fen::FenError;
pub use moves::{Move, MoveType};
pub use piece::{Color, Piece, PieceType};
pub use square::Square;
pub use state::{CastlingRights, State, Undo};
