//! The position data that the codec works on, and its mathematical model.
//!
//! A board square is a number in `0..64`, counting file-first from White's
//! side: square `s` lies on file `s % 8` and rank `s / 8`, so `a1 = 0`,
//! `h1 = 7` and `a8 = 56`.  Ranks `0..4` (squares `0..32`) are the south half
//! of the board.

use vstd::prelude::*;

verus! {

/// The colour of a piece, and the side to move.
#[derive(Clone, Copy, Debug, PartialEq, Eq, Structural)]
pub enum Color {
    White,
    Black,
}

/// What a piece is, castling being a king move.
#[derive(Clone, Copy, Debug, PartialEq, Eq, Structural)]
pub enum Role {
    Pawn,
    Knight,
    Bishop,
    Rook,
    Queen,
    King,
}

/// A coloured piece.
#[derive(Clone, Copy, Debug, PartialEq, Eq, Structural)]
pub struct Piece {
    pub color: Color,
    pub role: Role,
}

/// A chess position as material for the codec: piece placement plus the
/// state that travels with it.  The fields are public and nothing here
/// polices chess legality; [`Setup::wf`] states the structural bounds that
/// the codec needs.
pub struct Setup {
    /// The piece on each square, indexed by square number; always 64 entries.
    pub board: Vec<Option<Piece>>,
    /// The side to move.
    pub turn: Color,
    /// Bitboard of castling rights: bit `s` is set iff the rook on square
    /// `s` has not moved (and castling with it is still allowed).
    pub castling_rights: u64,
    /// The en-passant target square, if a pawn just moved two squares.
    pub ep_square: Option<u8>,
    /// Halfmove clock: plies since the last capture or pawn move.
    pub halfmoves: u32,
    /// Fullmove counter, starting at 1.
    pub fullmoves: u32,
}

/// Bit `i` of `x`.
pub open spec fn u64_bit(x: u64, i: int) -> bool {
    (x >> (i as u64)) & 1 == 1
}

/// The mathematical view of a [`Setup`]: the board and the castling
/// bitboard become sequences, everything else is carried over.
#[verifier::ext_equal]
pub ghost struct SetupModel {
    /// The piece on each square; 64 entries for a well-formed position.
    pub board: Seq<Option<Piece>>,
    /// The side to move.
    pub turn: Color,
    /// Entry `s` is true iff there are castling rights on square `s`.
    pub castling: Seq<bool>,
    /// The en-passant target square.
    pub ep_square: Option<u8>,
    /// Halfmove clock.
    pub halfmoves: u32,
    /// Fullmove counter.
    pub fullmoves: u32,
}

impl View for Setup {
    type V = SetupModel;

    open spec fn view(&self) -> SetupModel {
        SetupModel {
            board: self.board@,
            turn: self.turn,
            castling: Seq::new(64, |i: int| u64_bit(self.castling_rights, i)),
            ep_square: self.ep_square,
            halfmoves: self.halfmoves,
            fullmoves: self.fullmoves,
        }
    }
}

impl SetupModel {
    /// A position the decoder starts from: an empty board, White to move,
    /// no rights, no en-passant square, clocks at their initial values.
    pub open spec fn empty() -> SetupModel {
        SetupModel {
            board: Seq::new(64, |i: int| None),
            turn: Color::White,
            castling: Seq::new(64, |i: int| false),
            ep_square: None,
            halfmoves: 0,
            fullmoves: 1,
        }
    }

    /// Structural bounds that compression asks for: a full-size board, a
    /// positive fullmove counter, and an on-board en-passant square.
    pub open spec fn wf(self) -> bool {
        &&& self.board.len() == 64
        &&& self.castling.len() == 64
        &&& self.fullmoves >= 1
        &&& match self.ep_square {
            Some(e) => e < 64,
            None => true,
        }
    }

    /// The square the last two-square pawn push landed on, as told by the
    /// en-passant target: one rank beyond the target from the mover's point
    /// of view.  May leave the board on senseless inputs; `faithful`
    /// positions keep it in `0..64`.
    pub open spec fn pushed_square(self) -> Option<int> {
        match self.ep_square {
            Some(e) => Some(if self.turn == Color::Black { e + 8 } else { e - 8 }),
            None => None,
        }
    }

    /// True iff some square holds this piece.
    pub open spec fn has_piece(self, p: Piece) -> bool {
        exists|s: int| 0 <= s < 64 && self.board[s] == Some(p)
    }

    /// The positions the codec reproduces exactly: on top of [`Self::wf`],
    /// every castling right sits on a rook, an en-passant target is on the
    /// proper rank with the pushed pawn in place, and the fullmove counter
    /// keeps the ply count within 32 bits.  Every position reachable in a
    /// game of chess satisfies this.
    pub open spec fn faithful(self) -> bool {
        &&& self.wf()
        &&& self.fullmoves <= 0x8000_0000
        &&& forall|s: int|
            0 <= s < 64 && self.castling[s] ==> ((#[trigger] self.board[s]) matches Some(p)
                && p.role == Role::Rook)
        &&& match self.ep_square {
            Some(e) => {
                if self.turn == Color::Black {
                    // White just pushed a pawn over the target to e + 8.
                    &&& 16 <= e < 24
                    &&& self.board[e + 8] == Some(Piece { color: Color::White, role: Role::Pawn })
                } else {
                    // Black just pushed a pawn over the target to e - 8.
                    &&& 40 <= e < 48
                    &&& self.board[e - 8] == Some(Piece { color: Color::Black, role: Role::Pawn })
                }
            },
            None => true,
        }
    }
}

impl Setup {
    /// Structural bounds that compression asks for; see [`SetupModel::wf`].
    pub open spec fn wf(&self) -> bool {
        self@.wf()
    }
}

} // verus!
