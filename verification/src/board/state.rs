use vstd::prelude::*;
use crate::board::{Color, Piece, Square};

verus! {

/// Castling availability stored as four bits: 1 white kingside, 2 white
/// queenside, 4 black kingside, 8 black queenside.
#[derive(Debug, Default, Clone, Copy, PartialEq, Eq, Structural)]
pub struct CastlingRights(pub(crate) u8);

impl CastlingRights {
    /// The four bits.
    pub closed spec fn bits(self) -> u8 {
        self.0
    }

    /// The rights with bits `b`.
    pub closed spec fn of_bits(b: u8) -> CastlingRights {
        CastlingRights(b)
    }

    /// A set of rights is its bits.
    pub proof fn lemma_bits(self, b: u8)
        ensures
            CastlingRights::of_bits(b).bits() == b,
            CastlingRights::of_bits(self.bits()) == self,
    {
    }

    /// The bits are the stored byte.
    pub(crate) proof fn lemma_raw(self)
        ensures
            self.bits() == self.0,
    {
    }

    /// The raw bits.
    pub fn as_u8(self) -> (b: u8)
        ensures
            b == self.bits(),
    {
        self.0
    }

    /// White may castle kingside.
    pub fn white_king() -> (r: CastlingRights)
        ensures
            r.bits() == 1,
    {
        CastlingRights(1)
    }

    /// White may castle queenside.
    pub fn white_queen() -> (r: CastlingRights)
        ensures
            r.bits() == 2,
    {
        CastlingRights(2)
    }

    /// Black may castle kingside.
    pub fn black_king() -> (r: CastlingRights)
        ensures
            r.bits() == 4,
    {
        CastlingRights(4)
    }

    /// Black may castle queenside.
    pub fn black_queen() -> (r: CastlingRights)
        ensures
            r.bits() == 8,
    {
        CastlingRights(8)
    }

    /// Returns no castling rights.
    pub fn none() -> (r: CastlingRights)
        ensures
            r.bits() == 0,
    {
        CastlingRights(0)
    }

    /// Returns whether all supplied rights are present.
    pub fn contains(self, rights: CastlingRights) -> (b: bool)
        ensures
            b == (self.bits() & rights.bits() == rights.bits()),
    {
        self.0 & rights.0 == rights.0
    }
}

/// Reversible and irreversible game state associated with a position.
#[derive(Debug, Clone, Copy, PartialEq, Eq, Structural)]
pub struct State {
    pub(crate) side_to_move: Color,
    pub(crate) castling: CastlingRights,
    pub(crate) ep: Option<Square>,
    pub(crate) halfmove: u8,
    pub(crate) fullmove: u16,
    pub(crate) zobrist: u64,
}

impl State {
    /// The side to move.
    pub closed spec fn spec_side(self) -> Color {
        self.side_to_move
    }

    /// The castling rights.
    pub closed spec fn spec_castling(self) -> CastlingRights {
        self.castling
    }

    /// The en passant target square.
    pub closed spec fn spec_ep(self) -> Option<Square> {
        self.ep
    }

    /// The halfmove clock.
    pub closed spec fn spec_halfmove(self) -> u8 {
        self.halfmove
    }

    /// The fullmove number.
    pub closed spec fn spec_fullmove(self) -> u16 {
        self.fullmove
    }

    /// The Zobrist key.
    pub closed spec fn spec_zobrist(self) -> u64 {
        self.zobrist
    }

    /// The state with the given fields.
    pub closed spec fn of(
        side: Color,
        castling: CastlingRights,
        ep: Option<Square>,
        halfmove: u8,
        fullmove: u16,
        zobrist: u64,
    ) -> State {
        State { side_to_move: side, castling, ep, halfmove, fullmove, zobrist }
    }

    /// A state is its fields.
    pub proof fn lemma_of(
        self,
        side: Color,
        castling: CastlingRights,
        ep: Option<Square>,
        halfmove: u8,
        fullmove: u16,
        zobrist: u64,
    )
        ensures
            ({
                let s = State::of(side, castling, ep, halfmove, fullmove, zobrist);
                &&& s.spec_side() == side
                &&& s.spec_castling() == castling
                &&& s.spec_ep() == ep
                &&& s.spec_halfmove() == halfmove
                &&& s.spec_fullmove() == fullmove
                &&& s.spec_zobrist() == zobrist
            }),
            self == State::of(
                self.spec_side(),
                self.spec_castling(),
                self.spec_ep(),
                self.spec_halfmove(),
                self.spec_fullmove(),
                self.spec_zobrist(),
            ),
    {
    }

    /// The accessors read the fields.
    pub(crate) proof fn lemma_fields(self)
        ensures
            self.spec_side() == self.side_to_move,
            self.spec_castling() == self.castling,
            self.spec_ep() == self.ep,
            self.spec_halfmove() == self.halfmove,
            self.spec_fullmove() == self.fullmove,
            self.spec_zobrist() == self.zobrist,
            State::of(self.side_to_move, self.castling, self.ep, self.halfmove, self.fullmove, self.zobrist) == self,
    {
    }

    /// Returns the side to move.
    pub fn side_to_move(&self) -> (c: Color)
        ensures
            c == self.spec_side(),
    {
        self.side_to_move
    }

    /// Returns the castling rights.
    pub fn castling(&self) -> (r: CastlingRights)
        ensures
            r == self.spec_castling(),
    {
        self.castling
    }

    /// Returns the en passant target square.
    pub fn en_passant(&self) -> (s: Option<Square>)
        ensures
            s == self.spec_ep(),
    {
        self.ep
    }

    /// Returns the halfmove clock.
    pub fn halfmove_clock(&self) -> (h: u8)
        ensures
            h == self.spec_halfmove(),
    {
        self.halfmove
    }

    /// Returns the fullmove number.
    pub fn fullmove_number(&self) -> (f: u16)
        ensures
            f == self.spec_fullmove(),
    {
        self.fullmove
    }

    /// Returns the position's Zobrist key.
    pub fn zobrist(&self) -> (z: u64)
        ensures
            z == self.spec_zobrist(),
    {
        self.zobrist
    }
}

/// Information saved before a move for exact restoration.
#[derive(Debug, Clone, Copy, PartialEq, Eq, Structural)]
pub struct Undo {
    pub(crate) state: State,
    pub(crate) captured: Option<Piece>,
}

impl Undo {
    /// The state before the move.
    pub closed spec fn spec_state(self) -> State {
        self.state
    }

    /// The accessors read the fields.
    pub(crate) proof fn lemma_fields(self)
        ensures
            self.spec_state() == self.state,
            self.spec_captured() == self.captured,
    {
    }

    /// The piece the move captured, if any.
    pub closed spec fn spec_captured(self) -> Option<Piece> {
        self.captured
    }

    /// The record of a move made from `state` that captured `captured`.
    pub closed spec fn of(state: State, captured: Option<Piece>) -> Undo {
        Undo { state, captured }
    }

    /// A record is its fields.
    pub proof fn lemma_of(self, state: State, captured: Option<Piece>)
        ensures
            Undo::of(state, captured).spec_state() == state,
            Undo::of(state, captured).spec_captured() == captured,
            self == Undo::of(self.spec_state(), self.spec_captured()),
    {
    }
}

} // verus!
