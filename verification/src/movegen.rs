//! Attack and move generation: attack sets, pseudo-legal and legal move
//! lists, and perft.

pub mod attacks;
pub mod gen;
pub mod legal;
pub mod list;
pub mod perft;

pub use attacks::{
    attackers_to, bishop_attacks, is_attacked, king_attacks, knight_attacks, pawn_attacks,
    queen_attacks, rook_attacks,
};
pub use gen::{GenMode, generate_captures, generate_pseudo, generate_quiets};
pub use legal::{generate_legal, generate_legal_in_check, is_playable};
pub use list::MoveList;
pub use perft::{perft, perft_divide};
