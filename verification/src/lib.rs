//! Lattice: chess board representation, move encoding, FEN parsing and
//! the transposition table and scoring helpers used by the search.

pub mod bench;
pub mod bits;
pub mod eval;
pub mod board;
pub mod lattice_board;
pub mod lattice_engine;
pub mod movegen;
pub mod nnue;
pub mod search;
pub mod tactics;
pub mod text;
pub mod tt;
pub mod tuner;
pub mod uci;
