//! Compact binary codecs for archival storage of chess game data.
//!
//! The heart of the crate is the position codec in [`position`]: a chess
//! position is packed into an occupancy bitboard, one 4-bit code per occupied
//! square, and optional LEB128-encoded clock counters.  The piece codes are
//! overloaded so that the en-passant target, the castling rights and the side
//! to move travel inside the board encoding and cost no extra bytes.
//!
//! Decompression needs no length prefix for the position itself, but any
//! clock counters are only present when they carry information, so the byte
//! stream has a variable tail; see [`position::decompress`] for the exact
//! layout.

use vstd::prelude::*;

pub mod bits;
pub mod leb128;
pub mod position;
pub mod setup;

verus! {

/// Errors that can occur when compressing or decompressing chess data.
#[derive(Clone, Copy, Debug, PartialEq, Eq, Structural)]
pub enum Error {
    /// A bit reader ran out of input, or a bit writer could not take more.
    IO,
    /// A move could not be applied to a position while replaying a game.
    Chess,
    /// The move to compress is not in the list of legal moves of the
    /// position it claims to be played in.
    MoveNotFound,
    /// Not enough bytes to decompress a position.
    MissingBytes,
    /// Offsetting the square (first field) by the signed amount (second
    /// field) left the board.
    SquareOffsetError(u8, i32),
    /// The input holds a malformed or oversized LEB128 number.
    Leb128,
    /// The en-passant encoding wants a pawn on the given square, but the
    /// square holds no pawn.
    MissingPiece(u8),
}

} // verus!
