//! The position codec: a chess position packed into bytes.
//!
//! Layout, in order:
//!
//! 1. **Occupancy bitboard** — 8 bytes, big-endian: bit `s` of the 64-bit
//!    board word is set iff square `s` is occupied, so the first byte
//!    carries squares `56..64` and the last byte squares `0..8`.
//! 2. **Piece nibbles** — one 4-bit code per occupied square in ascending
//!    square order, two codes per byte with the first code in the low four
//!    bits; an odd count leaves the final high nibble zero.
//! 3. **Halfmove clock** (LEB128) — present iff the clock is positive, the
//!    ply count exceeds 1, or the turn is broken (Black to move with no
//!    Black king on the board).
//! 4. **Ply count** (LEB128) — present iff the ply count exceeds 1 or the
//!    turn is broken, where `ply = (fullmoves - 1) * 2 + 1` when Black is
//!    to move and `(fullmoves - 1) * 2` otherwise.
//!
//! The 4-bit piece codes overload a few values: `12` marks the pawn that
//! just made a two-square push (recovering the en-passant target), `13` and
//! `14` mark rooks that still carry castling rights, and `15` marks the
//! Black king when Black is to move.

use vstd::prelude::*;

use crate::Error;
use crate::leb128::leb128_encode;
use crate::leb128::leb128_parse;
use crate::leb128::lemma_leb128_round_trip;
use crate::leb128::read_leb128;
use crate::leb128::write_leb128;
use crate::setup::Color;
use crate::setup::Piece;
use crate::setup::Role;
use crate::setup::Setup;
use crate::setup::SetupModel;
use crate::setup::u64_bit;

verus! {

/// 1 if square `s` is occupied, else 0.
pub open spec fn occ_bit(board: Seq<Option<Piece>>, s: int) -> u8 {
    if board[s] is Some {
        1
    } else {
        0
    }
}

/// Byte `j` of the big-endian occupancy bitboard: bit `k` reports square
/// `8 * (7 - j) + k`.
pub open spec fn occ_byte(board: Seq<Option<Piece>>, j: int) -> u8 {
    let base = 8 * (7 - j);
    (occ_bit(board, base) + 2 * occ_bit(board, base + 1) + 4 * occ_bit(board, base + 2) + 8 * occ_bit(
        board,
        base + 3,
    ) + 16 * occ_bit(board, base + 4) + 32 * occ_bit(board, base + 5) + 64 * occ_bit(
        board,
        base + 6,
    ) + 128 * occ_bit(board, base + 7)) as u8
}

/// The eight occupancy bytes.
pub open spec fn occ_bytes(board: Seq<Option<Piece>>) -> Seq<u8> {
    Seq::new(8, |j: int| occ_byte(board, j))
}

/// Whether an encoded stream marks square `s` as occupied.
pub open spec fn nth_occ_bit(bytes: Seq<u8>, s: int) -> bool {
    (bytes[7 - s / 8] >> ((s % 8) as u8)) & 1 == 1
}

/// Which bit of a byte assembled from eight bit values is set.
proof fn lemma_bits_of_byte(b0: u8, b1: u8, b2: u8, b3: u8, b4: u8, b5: u8, b6: u8, b7: u8, k: u8)
    by (bit_vector)
    requires
        b0 <= 1,
        b1 <= 1,
        b2 <= 1,
        b3 <= 1,
        b4 <= 1,
        b5 <= 1,
        b6 <= 1,
        b7 <= 1,
        k < 8,
    ensures
        (((b0 + 2 * b1 + 4 * b2 + 8 * b3 + 16 * b4 + 32 * b5 + 64 * b6 + 128 * b7) as u8 >> k) & 1
            == 1) <==> ((k == 0 && b0 == 1) || (k == 1 && b1 == 1) || (k == 2 && b2 == 1) || (k == 3
            && b3 == 1) || (k == 4 && b4 == 1) || (k == 5 && b5 == 1) || (k == 6 && b6 == 1) || (k
            == 7 && b7 == 1)),
{
}

/// The occupancy bytes report exactly the occupied squares.
proof fn lemma_occ_byte_bit(board: Seq<Option<Piece>>, s: int)
    requires
        0 <= s < 64,
    ensures
        nth_occ_bit(occ_bytes(board), s) == (board[s] is Some),
{
    let base = 8 * (s / 8);
    assert(s == base + s % 8) by {
        vstd::arithmetic::div_mod::lemma_fundamental_div_mod(s, 8);
    }
    assert(occ_bytes(board)[7 - s / 8] == occ_byte(board, 7 - s / 8));
    assert(8 * (7 - (7 - s / 8)) == base);
    lemma_bits_of_byte(
        occ_bit(board, base),
        occ_bit(board, base + 1),
        occ_bit(board, base + 2),
        occ_bit(board, base + 3),
        occ_bit(board, base + 4),
        occ_bit(board, base + 5),
        occ_bit(board, base + 6),
        occ_bit(board, base + 7),
        (s % 8) as u8,
    );
}

/// The 4-bit code of piece `p` on square `s`.  `black_turn`, the castling
/// seat of the square and whether `s` is the square a pawn just pushed to
/// pick between the overloaded codes.
pub open spec fn piece_code(
    p: Piece,
    s: int,
    black_turn: bool,
    castling: Seq<bool>,
    pushed: Option<int>,
) -> u8 {
    if p.role == Role::Pawn && pushed == Some(s) {
        12
    } else {
        match p.role {
            Role::Pawn => if p.color == Color::White {
                0
            } else {
                1
            },
            Role::Knight => if p.color == Color::White {
                2
            } else {
                3
            },
            Role::Bishop => if p.color == Color::White {
                4
            } else {
                5
            },
            Role::Rook => if castling[s] {
                if p.color == Color::White {
                    13
                } else {
                    14
                }
            } else {
                if p.color == Color::White {
                    6
                } else {
                    7
                }
            },
            Role::Queen => if p.color == Color::White {
                8
            } else {
                9
            },
            Role::King => if p.color == Color::White {
                10
            } else if black_turn {
                15
            } else {
                11
            },
        }
    }
}

/// The piece a 4-bit code places on square `s`.  Code 12 takes its colour
/// from the half of the board: a pawn in the south half is White.  Codes of
/// 16 and above never occur in a nibble and fall back to a White pawn.
pub open spec fn spec_piece_from_value(value: u8, square: int) -> Piece {
    if value == 0 {
        Piece { color: Color::White, role: Role::Pawn }
    } else if value == 1 {
        Piece { color: Color::Black, role: Role::Pawn }
    } else if value == 2 {
        Piece { color: Color::White, role: Role::Knight }
    } else if value == 3 {
        Piece { color: Color::Black, role: Role::Knight }
    } else if value == 4 {
        Piece { color: Color::White, role: Role::Bishop }
    } else if value == 5 {
        Piece { color: Color::Black, role: Role::Bishop }
    } else if value == 6 || value == 13 {
        Piece { color: Color::White, role: Role::Rook }
    } else if value == 7 || value == 14 {
        Piece { color: Color::Black, role: Role::Rook }
    } else if value == 8 {
        Piece { color: Color::White, role: Role::Queen }
    } else if value == 9 {
        Piece { color: Color::Black, role: Role::Queen }
    } else if value == 10 {
        Piece { color: Color::White, role: Role::King }
    } else if value == 11 || value == 15 {
        Piece { color: Color::Black, role: Role::King }
    } else if value == 12 {
        Piece {
            color: if square < 32 {
                Color::White
            } else {
                Color::Black
            },
            role: Role::Pawn,
        }
    } else {
        Piece { color: Color::White, role: Role::Pawn }
    }
}

/// The view of a castling bitboard, square by square.
pub open spec fn castling_bits(x: u64) -> Seq<bool> {
    Seq::new(64, |i: int| u64_bit(x, i))
}

/// The square number an optional square holds.
pub open spec fn square_of(o: Option<u8>) -> Option<int> {
    match o {
        Some(s) => Some(s as int),
        None => None,
    }
}

/// The 4-bit code of `piece` sitting on `square`; the encoder half of the
/// nibble table.  `unmoved_rooks` is the castling bitboard and
/// `pawn_pushed_to` the square in front of the en-passant target, if any.
pub fn piece_value(
    piece: Piece,
    square: u8,
    black_turn: bool,
    unmoved_rooks: u64,
    pawn_pushed_to: Option<u8>,
) -> (r: u8)
    requires
        square < 64,
    ensures
        r == piece_code(
            piece,
            square as int,
            black_turn,
            castling_bits(unmoved_rooks),
            square_of(pawn_pushed_to),
        ),
        r < 16,
{
    let pushed_here = match pawn_pushed_to {
        Some(p) => p == square,
        None => false,
    };
    if matches!(piece.role, Role::Pawn) && pushed_here {
        12
    } else {
        let white = matches!(piece.color, Color::White);
        match piece.role {
            Role::Pawn => if white {
                0
            } else {
                1
            },
            Role::Knight => if white {
                2
            } else {
                3
            },
            Role::Bishop => if white {
                4
            } else {
                5
            },
            Role::Rook => {
                if (unmoved_rooks >> (square as u64)) & 1 == 1 {
                    if white {
                        13
                    } else {
                        14
                    }
                } else {
                    if white {
                        6
                    } else {
                        7
                    }
                }
            },
            Role::Queen => if white {
                8
            } else {
                9
            },
            Role::King => if white {
                10
            } else if black_turn {
                15
            } else {
                11
            },
        }
    }
}

/// The piece a 4-bit `value` places on `square`; the decoder half of the
/// nibble table.
pub fn piece_from_value(value: u8, square: u8) -> (r: Piece)
    requires
        value < 16,
        square < 64,
    ensures
        r == spec_piece_from_value(value, square as int),
{
    if value == 0 {
        Piece { color: Color::White, role: Role::Pawn }
    } else if value == 1 {
        Piece { color: Color::Black, role: Role::Pawn }
    } else if value == 2 {
        Piece { color: Color::White, role: Role::Knight }
    } else if value == 3 {
        Piece { color: Color::Black, role: Role::Knight }
    } else if value == 4 {
        Piece { color: Color::White, role: Role::Bishop }
    } else if value == 5 {
        Piece { color: Color::Black, role: Role::Bishop }
    } else if value == 6 || value == 13 {
        Piece { color: Color::White, role: Role::Rook }
    } else if value == 7 || value == 14 {
        Piece { color: Color::Black, role: Role::Rook }
    } else if value == 8 {
        Piece { color: Color::White, role: Role::Queen }
    } else if value == 9 {
        Piece { color: Color::Black, role: Role::Queen }
    } else if value == 10 {
        Piece { color: Color::White, role: Role::King }
    } else if value == 11 || value == 15 {
        Piece { color: Color::Black, role: Role::King }
    } else {
        Piece {
            color: if square < 32 {
                Color::White
            } else {
                Color::Black
            },
            role: Role::Pawn,
        }
    }
}

/// How many of the squares below `s` are occupied.
pub open spec fn occ_count(board: Seq<Option<Piece>>, s: int) -> nat
    decreases s,
{
    if s <= 0 {
        0
    } else {
        occ_count(board, s - 1) + (if board[s - 1] is Some {
            1nat
        } else {
            0nat
        })
    }
}

/// The 4-bit codes of the occupied squares below `s`, in square order.
pub open spec fn nibbles(m: SetupModel, s: int) -> Seq<u8>
    decreases s,
{
    if s <= 0 {
        Seq::empty()
    } else {
        match m.board[s - 1] {
            Some(p) => nibbles(m, s - 1).push(
                piece_code(p, s - 1, m.turn == Color::Black, m.castling, m.pushed_square()),
            ),
            None => nibbles(m, s - 1),
        }
    }
}

/// There is one nibble per occupied square.
proof fn lemma_nibbles_len(m: SetupModel, s: int)
    ensures
        nibbles(m, s).len() == occ_count(m.board, s),
    decreases s,
{
    if s > 0 {
        lemma_nibbles_len(m, s - 1);
    }
}

/// Nibbles packed two to a byte, first of each pair in the low half; an
/// odd tail keeps its high half zero.
pub open spec fn pack_nibbles(nibs: Seq<u8>) -> Seq<u8>
    decreases nibs.len(),
{
    if nibs.len() == 0 {
        Seq::empty()
    } else if nibs.len() == 1 {
        seq![nibs[0]]
    } else {
        seq![(nibs[1] * 16 + nibs[0]) as u8] + pack_nibbles(nibs.skip(2))
    }
}

/// Completing a pair appends one byte to the packing.
proof fn lemma_pack_snoc2(nibs: Seq<u8>, lo: u8, hi: u8)
    requires
        nibs.len() % 2 == 0,
    ensures
        pack_nibbles(nibs.push(lo).push(hi)) == pack_nibbles(nibs).push((hi * 16 + lo) as u8),
    decreases nibs.len(),
{
    if nibs.len() == 0 {
        reveal_with_fuel(pack_nibbles, 2);
        let two = nibs.push(lo).push(hi);
        assert(two =~= seq![lo, hi]);
        assert(two.len() == 2 && two[0] == lo && two[1] == hi);
        assert(two.skip(2) =~= Seq::<u8>::empty());
        assert(pack_nibbles(two) =~= seq![(hi * 16 + lo) as u8]);
        assert(pack_nibbles(nibs).push((hi * 16 + lo) as u8) =~= seq![(hi * 16 + lo) as u8]);
    } else {
        let whole = nibs.push(lo).push(hi);
        assert(whole.len() >= 4);
        assert(whole[0] == nibs[0] && whole[1] == nibs[1]);
        assert(whole.skip(2) =~= nibs.skip(2).push(lo).push(hi));
        lemma_pack_snoc2(nibs.skip(2), lo, hi);
        assert(pack_nibbles(whole) =~= pack_nibbles(nibs).push((hi * 16 + lo) as u8));
    }
}

/// A trailing lone nibble becomes a byte of its own.
proof fn lemma_pack_snoc1(nibs: Seq<u8>, lo: u8)
    requires
        nibs.len() % 2 == 0,
    ensures
        pack_nibbles(nibs.push(lo)) == pack_nibbles(nibs).push(lo),
    decreases nibs.len(),
{
    if nibs.len() == 0 {
        assert(nibs.push(lo) =~= seq![lo]);
        assert(pack_nibbles(nibs).push(lo) =~= seq![lo]);
    } else {
        let whole = nibs.push(lo);
        assert(whole.len() >= 3);
        assert(whole[0] == nibs[0] && whole[1] == nibs[1]);
        assert(whole.skip(2) =~= nibs.skip(2).push(lo));
        lemma_pack_snoc1(nibs.skip(2), lo);
        assert(pack_nibbles(whole) =~= pack_nibbles(nibs).push(lo));
    }
}

/// The ply count of the position: completed plies since the game began.
pub open spec fn spec_ply(m: SetupModel) -> nat {
    (((m.fullmoves - 1) * 2) + (if m.turn == Color::Black {
        1int
    } else {
        0int
    })) as nat
}

/// Black to move with no Black king on the board: the ply counter must be
/// written out, because no king nibble can mark the turn.
pub open spec fn spec_broken_turn(m: SetupModel) -> bool {
    m.turn == Color::Black && !m.has_piece(Piece { color: Color::Black, role: Role::King })
}

/// Whether the encoding carries the halfmove clock.
pub open spec fn writes_halfmoves(m: SetupModel) -> bool {
    m.halfmoves > 0 || spec_ply(m) > 1 || spec_broken_turn(m)
}

/// Whether the encoding carries the ply counter.
pub open spec fn writes_ply(m: SetupModel) -> bool {
    spec_ply(m) > 1 || spec_broken_turn(m)
}

/// The full encoding of a position: occupancy, packed piece nibbles, then
/// the optional clock counters.
pub open spec fn spec_compress(m: SetupModel) -> Seq<u8> {
    occ_bytes(m.board) + pack_nibbles(nibbles(m, 64)) + (if writes_halfmoves(m) {
        leb128_encode(m.halfmoves as nat)
    } else {
        Seq::empty()
    }) + (if writes_ply(m) {
        leb128_encode(spec_ply(m))
    } else {
        Seq::empty()
    })
}

/// The error compression stops with, if any: an en-passant target whose
/// pushed-to square would lie outside the board.
pub open spec fn spec_offset_error(m: SetupModel) -> Option<Error> {
    match m.ep_square {
        Some(e) => if m.turn == Color::Black {
            if e >= 56 {
                Some(Error::SquareOffsetError(e, 8i32))
            } else {
                None
            }
        } else {
            if e < 8 {
                Some(Error::SquareOffsetError(e, -8i32))
            } else {
                None
            }
        },
        None => None,
    }
}

/// The error an on-board pushed-to square still forces, if any: the
/// square a pawn supposedly just pushed to must actually hold a pawn, or
/// no code-12 nibble could mark it and the en-passant target would be
/// lost.  Only meaningful once [`spec_offset_error`] has cleared the
/// square as on-board.
pub open spec fn spec_missing_piece_error(m: SetupModel) -> Option<Error> {
    match m.pushed_square() {
        Some(p) => if m.board[p] matches Some(piece) && piece.role == Role::Pawn {
            None
        } else {
            Some(Error::MissingPiece(p as u8))
        },
        None => None,
    }
}

/// The error compression stops with, if any: first the offset check on
/// the pushed-to square, then the pawn check on it.
pub open spec fn spec_compress_error(m: SetupModel) -> Option<Error> {
    if spec_offset_error(m) is Some {
        spec_offset_error(m)
    } else {
        spec_missing_piece_error(m)
    }
}

/// Whether any square holds a Black king.
fn has_black_king(board: &Vec<Option<Piece>>) -> (r: bool)
    requires
        board@.len() == 64,
    ensures
        r == exists|s: int|
            0 <= s < 64 && board@[s] == Some(Piece { color: Color::Black, role: Role::King }),
{
    let mut s: usize = 0;
    while s < 64
        invariant
            s <= 64,
            board@.len() == 64,
            forall|i: int|
                0 <= i < s ==> board@[i] != Some(Piece { color: Color::Black, role: Role::King }),
        decreases 64 - s,
    {
        if let Some(p) = board[s] {
            if p.color == Color::Black && p.role == Role::King {
                assert(board@[s as int] == Some(Piece { color: Color::Black, role: Role::King }));
                return true;
            }
        }
        s = s + 1;
    }
    false
}

/// Byte `j` of the big-endian occupancy bitboard of `board`.
#[verifier::rlimit(30)]
fn occupancy_byte(board: &Vec<Option<Piece>>, j: usize) -> (r: u8)
    requires
        board@.len() == 64,
        j < 8,
    ensures
        r == occ_byte(board@, j as int),
{
    let base = 8 * (7 - j);
    let b0: u8 = if board[base].is_some() {
        1
    } else {
        0
    };
    let b1: u8 = if board[base + 1].is_some() {
        1
    } else {
        0
    };
    let b2: u8 = if board[base + 2].is_some() {
        1
    } else {
        0
    };
    let b3: u8 = if board[base + 3].is_some() {
        1
    } else {
        0
    };
    let b4: u8 = if board[base + 4].is_some() {
        1
    } else {
        0
    };
    let b5: u8 = if board[base + 5].is_some() {
        1
    } else {
        0
    };
    let b6: u8 = if board[base + 6].is_some() {
        1
    } else {
        0
    };
    let b7: u8 = if board[base + 7].is_some() {
        1
    } else {
        0
    };
    b0 + 2 * b1 + 4 * b2 + 8 * b3 + 16 * b4 + 32 * b5 + 64 * b6 + 128 * b7
}

/// Compresses a position into bytes.
///
/// Fails with [`Error::SquareOffsetError`] exactly when the en-passant
/// target sits on a rank from which the pushed-to square would leave the
/// board, and with [`Error::MissingPiece`] exactly when that square holds
/// no pawn (no code-12 nibble could then mark it, and the en-passant
/// target would be silently lost).  Any other well-formed position
/// encodes to [`spec_compress`]`(position@)`.
pub fn compress(position: &Setup) -> (r: Result<Vec<u8>, Error>)
    requires
        position.wf(),
    ensures
        match r {
            Ok(bytes) => spec_compress_error(position@) is None && bytes@ == spec_compress(
                position@,
            ),
            Err(e) => spec_compress_error(position@) == Some(e),
        },
{
    let ghost gm = position@;
    let mut result: Vec<u8> = Vec::new();

    let mut j: usize = 0;
    while j < 8
        invariant
            position.wf(),
            gm == position@,
            j <= 8,
            result@ == occ_bytes(gm.board).take(j as int),
        decreases 8 - j,
    {
        let b = occupancy_byte(&position.board, j);
        result.push(b);
        assert(result@ =~= occ_bytes(gm.board).take(j + 1));
        j = j + 1;
    }
    assert(result@ =~= occ_bytes(gm.board));

    let pawn_pushed_to: Option<u8> = match position.ep_square {
        Some(e) => {
            // If it is Black to play, White just pushed a pawn one rank
            // beyond the target; otherwise Black pushed one rank below it.
            if position.turn == Color::Black {
                if e >= 56 {
                    return Err(Error::SquareOffsetError(e, 8));
                }
                Some(e + 8)
            } else {
                if e < 8 {
                    return Err(Error::SquareOffsetError(e, -8));
                }
                Some(e - 8)
            }
        },
        None => None,
    };
    assert(square_of(pawn_pushed_to) == gm.pushed_square());
    assert(spec_offset_error(gm) is None);
    if let Some(p) = pawn_pushed_to {
        assert(p < 64);
        let pawn_there = match position.board[p as usize] {
            Some(piece) => matches!(piece.role, Role::Pawn),
            None => false,
        };
        if !pawn_there {
            return Err(Error::MissingPiece(p));
        }
    }
    assert(spec_missing_piece_error(gm) is None);
    assert(castling_bits(position.castling_rights) =~= gm.castling);

    let black_turn = position.turn == Color::Black;
    let ghost occ_part = occ_bytes(gm.board);
    let mut pending: Option<u8> = None;
    let mut s: usize = 0;
    while s < 64
        invariant
            position.wf(),
            gm == position@,
            square_of(pawn_pushed_to) == gm.pushed_square(),
            castling_bits(position.castling_rights) == gm.castling,
            black_turn == (gm.turn == Color::Black),
            occ_part == occ_bytes(gm.board),
            s <= 64,
            nibbles(gm, s as int).len() == occ_count(gm.board, s as int),
            occ_count(gm.board, s as int) % 2 == 0 ==> pending is None && result@ == occ_part
                + pack_nibbles(nibbles(gm, s as int)),
            occ_count(gm.board, s as int) % 2 == 1 ==> {
                let ns = nibbles(gm, s as int);
                &&& pending == Some(ns.last())
                &&& ns.last() < 16
                &&& result@ == occ_part + pack_nibbles(ns.take(ns.len() - 1))
            },
        decreases 64 - s,
    {
        proof {
            lemma_nibbles_len(gm, s as int);
            lemma_nibbles_len(gm, s + 1);
        }
        let ghost ns = nibbles(gm, s as int);
        if let Some(p) = position.board[s] {
            let code = piece_value(p, s as u8, black_turn, position.castling_rights, pawn_pushed_to);
            assert(nibbles(gm, s + 1) =~= ns.push(
                piece_code(p, s as int, gm.turn == Color::Black, gm.castling, gm.pushed_square()),
            ));
            match pending {
                None => {
                    pending = Some(code);
                    assert(nibbles(gm, s + 1).take(nibbles(gm, s + 1).len() - 1) =~= ns);
                },
                Some(lo) => {
                    result.push(code * 16 + lo);
                    pending = None;
                    proof {
                        let even = ns.take(ns.len() - 1);
                        assert(ns =~= even.push(lo));
                        lemma_pack_snoc2(even, lo, code);
                        assert(nibbles(gm, s + 1) =~= even.push(lo).push(code));
                        assert(result@ =~= occ_part + pack_nibbles(nibbles(gm, s + 1)));
                    }
                },
            }
        } else {
            assert(nibbles(gm, s + 1) =~= ns);
        }
        s = s + 1;
    }
    proof {
        lemma_nibbles_len(gm, 64);
    }
    if let Some(lo) = pending {
        result.push(lo);
        proof {
            let ns = nibbles(gm, 64);
            let even = ns.take(ns.len() - 1);
            assert(ns =~= even.push(lo));
            lemma_pack_snoc1(even, lo);
            assert(result@ =~= occ_part + pack_nibbles(ns));
        }
    }
    assert(result@ == occ_bytes(gm.board) + pack_nibbles(nibbles(gm, 64)));
    let ghost board_part = result@;

    let broken_turn = black_turn && !has_black_king(&position.board);
    assert(broken_turn == spec_broken_turn(gm));
    let ply: u64 = ((position.fullmoves - 1) as u64) * 2 + (if black_turn {
        1
    } else {
        0
    });
    assert(ply as nat == spec_ply(gm));

    if position.halfmoves > 0 || ply > 1 || broken_turn {
        write_leb128(&mut result, position.halfmoves as u64);
        assert(result@ == board_part + leb128_encode(gm.halfmoves as nat));
    }
    if ply > 1 || broken_turn {
        write_leb128(&mut result, ply);
    }
    assert(result@ =~= spec_compress(gm));
    Ok(result)
}

/// One square of decoding: walks squares `s..64`, reading one nibble per
/// square the occupancy marks as occupied (`t` nibbles are already
/// consumed), and threads the position built so far through `acc`.
/// Returns the finished position and the total nibble count.
pub open spec fn decode_squares(bytes: Seq<u8>, s: int, t: nat, acc: SetupModel) -> Result<
    (SetupModel, nat),
    Error,
>
    decreases 64 - s,
{
    if s < 0 || s >= 64 {
        Ok((acc, t))
    } else if !nth_occ_bit(bytes, s) {
        decode_squares(bytes, s + 1, t, acc)
    } else {
        let bi = 8 + t / 2;
        if bi >= bytes.len() {
            Err(Error::MissingBytes)
        } else {
            let byte = bytes[bi as int];
            let value = if t % 2 == 0 {
                byte & 0x0f
            } else {
                (byte & 0xf0) >> 4
            };
            let placed = SetupModel {
                board: acc.board.update(s, Some(spec_piece_from_value(value, s))),
                ..acc
            };
            if value == 12 {
                if s < 32 {
                    if s < 8 {
                        Err(Error::SquareOffsetError(s as u8, -8i32))
                    } else {
                        decode_squares(
                            bytes,
                            s + 1,
                            t + 1,
                            SetupModel { ep_square: Some((s - 8) as u8), ..placed },
                        )
                    }
                } else {
                    if s >= 56 {
                        Err(Error::SquareOffsetError(s as u8, 8i32))
                    } else {
                        decode_squares(
                            bytes,
                            s + 1,
                            t + 1,
                            SetupModel { ep_square: Some((s + 8) as u8), ..placed },
                        )
                    }
                }
            } else if value == 13 || value == 14 {
                decode_squares(
                    bytes,
                    s + 1,
                    t + 1,
                    SetupModel { castling: placed.castling.update(s, true), ..placed },
                )
            } else if value == 15 {
                decode_squares(bytes, s + 1, t + 1, SetupModel { turn: Color::Black, ..placed })
            } else {
                decode_squares(bytes, s + 1, t + 1, placed)
            }
        }
    }
}

/// What decompressing `bytes` yields: the position, or the error the input
/// runs into.  Bytes after the second counter are ignored, as is the high
/// nibble of the final piece byte when the occupancy count is odd.  Both
/// counters keep their low 32 bits; a ply counter smaller than the
/// side-to-move offset (an even count beside a code-15 king, which no
/// encoder produces) leaves the fullmove counter at 1.
pub open spec fn spec_decompress(bytes: Seq<u8>) -> Result<SetupModel, Error> {
    if bytes.len() < 8 {
        Err(Error::MissingBytes)
    } else {
        match decode_squares(bytes, 0, 0, SetupModel::empty()) {
            Err(e) => Err(e),
            Ok((m0, t)) => {
                let i = 8 + (t + 1) / 2;
                if bytes.len() <= i {
                    Ok(m0)
                } else {
                    match leb128_parse(bytes.skip(i as int)) {
                        None => Err(Error::Leb128),
                        Some((v, c)) => {
                            let m1 = SetupModel {
                                halfmoves: (v % 0x1_0000_0000) as u32,
                                ..m0
                            };
                            let j = i + c;
                            if bytes.len() <= j {
                                Ok(m1)
                            } else {
                                match leb128_parse(bytes.skip(j as int)) {
                                    None => Err(Error::Leb128),
                                    Some((v2, _c2)) => {
                                        let ply = (v2 % 0x1_0000_0000) as u32;
                                        let turn = if ply % 2 == 1 {
                                            Color::Black
                                        } else {
                                            m1.turn
                                        };
                                        let b: u32 = if turn == Color::Black {
                                            1
                                        } else {
                                            0
                                        };
                                        let fullmoves = if ply >= b {
                                            (((ply - b) / 2) + 1) as u32
                                        } else {
                                            1u32
                                        };
                                        Ok(SetupModel { turn, fullmoves, ..m1 })
                                    },
                                }
                            }
                        },
                    }
                }
            },
        }
    }
}

/// Setting bit `s` of a bitboard flips exactly that square of its view.
proof fn lemma_u64_set_bit(x: u64, s: u64)
    requires
        s < 64,
    ensures
        forall|i: int|
            0 <= i < 64 ==> #[trigger] u64_bit(x | (1u64 << s), i) == (i == s || u64_bit(x, i)),
{
    assert forall|i: int| 0 <= i < 64 implies #[trigger] u64_bit(x | (1u64 << s), i) == (i == s
        || u64_bit(x, i)) by {
        let k = i as u64;
        assert((((x | (1u64 << s)) >> k) & 1 == 1) == (k == s || ((x >> k) & 1 == 1)))
            by (bit_vector)
            requires
                s < 64,
                k < 64,
        ;
    }
}

/// No square of the zero bitboard is set.
proof fn lemma_u64_zero_bits()
    ensures
        forall|i: int| 0 <= i < 64 ==> !#[trigger] u64_bit(0, i),
{
    assert forall|i: int| 0 <= i < 64 implies !#[trigger] u64_bit(0, i) by {
        let k = i as u64;
        assert((0u64 >> k) & 1 == 0) by (bit_vector);
    }
}

/// Decompresses a position from bytes, inverting [`compress`].
///
/// The result is exactly what [`spec_decompress`] says: occupancy first,
/// then one nibble per occupied square, then the optional clock counters.
pub fn decompress(bytes: &[u8]) -> (r: Result<Setup, Error>)
    ensures
        match r {
            Ok(setup) => spec_decompress(bytes@) == Ok::<SetupModel, Error>(setup@) && setup.wf(),
            Err(e) => spec_decompress(bytes@) == Err::<SetupModel, Error>(e),
        },
{
    if bytes.len() < 8 {
        return Err(Error::MissingBytes);
    }
    let mut board: Vec<Option<Piece>> = Vec::new();
    let mut k: usize = 0;
    while k < 64
        invariant
            board@.len() == k,
            k <= 64,
            forall|i: int| 0 <= i < k ==> board@[i] is None,
        decreases 64 - k,
    {
        board.push(None);
        k = k + 1;
    }
    let mut setup = Setup {
        board,
        turn: Color::White,
        castling_rights: 0,
        ep_square: None,
        halfmoves: 0,
        fullmoves: 1,
    };
    proof {
        lemma_u64_zero_bits();
        assert(setup@.board =~= SetupModel::empty().board);
        assert(setup@.castling =~= SetupModel::empty().castling);
        assert(setup@ =~= SetupModel::empty());
    }

    let mut s: usize = 0;
    let mut t: usize = 0;
    let mut byte: u8 = 0;
    while s < 64
        invariant
            bytes@.len() >= 8,
            s <= 64,
            t <= s,
            setup@.board.len() == 64,
            setup.wf(),
            8 + (t + 1) / 2 <= bytes@.len(),
            t % 2 == 1 ==> byte == bytes@[8 + (t as int) / 2],
            decode_squares(bytes@, 0, 0, SetupModel::empty()) == decode_squares(
                bytes@,
                s as int,
                t as nat,
                setup@,
            ),
        decreases 64 - s,
    {
        let ghost pre = setup@;
        let j = 7 - s / 8;
        let occupied = (bytes[j] >> ((s % 8) as u8)) & 1 == 1;
        assert(occupied == nth_occ_bit(bytes@, s as int));
        if occupied {
            let value: u8;
            if t % 2 == 0 {
                let bi = 8 + t / 2;
                if bi >= bytes.len() {
                    return Err(Error::MissingBytes);
                }
                byte = bytes[bi];
                value = byte & 0x0f;
            } else {
                value = (byte & 0xf0) >> 4;
            }
            assert(value < 16) by {
                let b = byte;
                assert(b & 0x0f < 16 && (b & 0xf0) >> 4 < 16) by (bit_vector);
            }
            let piece = piece_from_value(value, s as u8);
            setup.board[s] = Some(piece);
            if value == 12 {
                if s < 32 {
                    if s < 8 {
                        return Err(Error::SquareOffsetError(s as u8, -8i32));
                    }
                    setup.ep_square = Some((s - 8) as u8);
                } else {
                    if s >= 56 {
                        return Err(Error::SquareOffsetError(s as u8, 8i32));
                    }
                    setup.ep_square = Some((s + 8) as u8);
                }
            } else if value == 13 || value == 14 {
                proof {
                    lemma_u64_set_bit(setup.castling_rights, s as u64);
                }
                setup.castling_rights = setup.castling_rights | (1u64 << (s as u64));
                assert(setup@.castling =~= pre.castling.update(s as int, true));
            } else if value == 15 {
                setup.turn = Color::Black;
            }
            t = t + 1;
        }
        assert(decode_squares(bytes@, 0, 0, SetupModel::empty()) == decode_squares(
            bytes@,
            s + 1,
            t as nat,
            setup@,
        ));
        s = s + 1;
    }

    let i = 8 + (t + 1) / 2;
    assert(decode_squares(bytes@, 0, 0, SetupModel::empty()) == Ok::<(SetupModel, nat), Error>(
        (setup@, t as nat),
    ));
    if i < bytes.len() {
        match read_leb128(bytes, i) {
            Err(e) => {
                return Err(e);
            },
            Ok((v, end)) => {
                setup.halfmoves = ((v % 0x1_0000_0000) as u32);
                if end < bytes.len() {
                    match read_leb128(bytes, end) {
                        Err(e) => {
                            return Err(e);
                        },
                        Ok((v2, _end2)) => {
                            let ply: u32 = ((v2 % 0x1_0000_0000) as u32);
                            if ply % 2 == 1 {
                                setup.turn = Color::Black;
                            }
                            let b: u32 = if setup.turn == Color::Black {
                                1
                            } else {
                                0
                            };
                            setup.fullmoves = if ply >= b {
                                (ply - b) / 2 + 1
                            } else {
                                1
                            };
                        },
                    }
                }
            },
        }
    }
    Ok(setup)
}

/// No more occupied squares than squares.
proof fn lemma_occ_count_le(board: Seq<Option<Piece>>, s: int)
    ensures
        occ_count(board, s) <= (if s >= 0 {
            s
        } else {
            0
        }),
    decreases s,
{
    if s > 0 {
        lemma_occ_count_le(board, s - 1);
    }
}

/// Every nibble is a 4-bit value.
proof fn lemma_nibbles_bound(m: SetupModel, s: int)
    ensures
        forall|i: int| 0 <= i < nibbles(m, s).len() ==> nibbles(m, s)[i] < 16,
    decreases s,
{
    if s > 0 {
        lemma_nibbles_bound(m, s - 1);
        match m.board[s - 1] {
            Some(p) => {
                let code = piece_code(
                    p,
                    s - 1,
                    m.turn == Color::Black,
                    m.castling,
                    m.pushed_square(),
                );
                assert(code < 16);
                assert forall|i: int| 0 <= i < nibbles(m, s).len() implies nibbles(m, s)[i]
                    < 16 by {
                    if i < nibbles(m, s - 1).len() {
                        assert(nibbles(m, s)[i] == nibbles(m, s - 1)[i]);
                    } else {
                        assert(nibbles(m, s)[i] == code);
                    }
                }
            },
            None => {},
        }
    }
}

/// Packing takes two nibbles per byte, rounding up.
proof fn lemma_pack_len(nibs: Seq<u8>)
    ensures
        pack_nibbles(nibs).len() == (nibs.len() + 1) / 2,
    decreases nibs.len(),
{
    if nibs.len() >= 2 {
        lemma_pack_len(nibs.skip(2));
    }
}

/// Unpacking: nibble `t` of a packed stream sits in byte `t / 2`, in the
/// low half for even `t` and the high half for odd `t`.
proof fn lemma_pack_index(nibs: Seq<u8>, t: int)
    requires
        forall|i: int| 0 <= i < nibs.len() ==> nibs[i] < 16,
        0 <= t < nibs.len(),
    ensures
        t % 2 == 0 ==> pack_nibbles(nibs)[t / 2] & 0x0f == nibs[t],
        t % 2 == 1 ==> (pack_nibbles(nibs)[t / 2] & 0xf0) >> 4 == nibs[t],
    decreases nibs.len(),
{
    lemma_pack_len(nibs);
    if t < 2 {
        if nibs.len() == 1 {
            let lo = nibs[0];
            assert(lo & 0x0f == lo) by (bit_vector)
                requires
                    lo < 16,
            ;
        } else {
            let lo = nibs[0];
            let hi = nibs[1];
            let b = (hi * 16 + lo) as u8;
            assert(pack_nibbles(nibs)[0] == b);
            assert(b & 0x0f == lo && (b & 0xf0) >> 4 == hi) by (bit_vector)
                requires
                    lo < 16,
                    hi < 16,
                    b == (hi * 16 + lo) as u8,
            ;
        }
    } else {
        lemma_pack_index(nibs.skip(2), t - 2);
        assert(pack_nibbles(nibs)[t / 2] == pack_nibbles(nibs.skip(2))[t / 2 - 1]);
        assert(nibs.skip(2)[t - 2] == nibs[t]);
    }
}

/// Decoding order: the earlier nibbles are a prefix of the later ones.
proof fn lemma_nibbles_take(m: SetupModel, s1: int, s2: int)
    requires
        s1 <= s2,
    ensures
        nibbles(m, s2).take(occ_count(m.board, s1) as int) == nibbles(m, s1),
    decreases s2 - s1,
{
    lemma_nibbles_len(m, s1);
    lemma_nibbles_len(m, s2);
    if s1 == s2 {
        assert(nibbles(m, s2).take(nibbles(m, s2).len() as int) =~= nibbles(m, s2));
    } else {
        lemma_nibbles_take(m, s1, s2 - 1);
        lemma_nibbles_len(m, s2 - 1);
        assert(occ_count(m.board, s1) <= occ_count(m.board, s2 - 1)) by {
            lemma_occ_count_monotone(m.board, s1, s2 - 1);
        }
        assert(nibbles(m, s2).take(occ_count(m.board, s1) as int) =~= nibbles(m, s2 - 1).take(
            occ_count(m.board, s1) as int,
        ));
    }
}

/// More squares, at least as many occupied.
proof fn lemma_occ_count_monotone(board: Seq<Option<Piece>>, s1: int, s2: int)
    requires
        s1 <= s2,
    ensures
        occ_count(board, s1) <= occ_count(board, s2),
    decreases s2 - s1,
{
    if s1 < s2 {
        lemma_occ_count_monotone(board, s1, s2 - 1);
    }
}

/// The nibble of occupied square `s` is number `occ_count(board, s)` in
/// the stream, and it is that square's piece code.
proof fn lemma_nibbles_at(m: SetupModel, s: int)
    requires
        0 <= s < 64,
        m.board[s] is Some,
    ensures
        occ_count(m.board, s) < nibbles(m, 64).len(),
        nibbles(m, 64)[occ_count(m.board, s) as int] == piece_code(
            m.board[s]->Some_0,
            s,
            m.turn == Color::Black,
            m.castling,
            m.pushed_square(),
        ),
{
    lemma_nibbles_len(m, s);
    lemma_nibbles_len(m, s + 1);
    lemma_nibbles_len(m, 64);
    lemma_occ_count_monotone(m.board, s + 1, 64);
    lemma_nibbles_take(m, s + 1, 64);
    let t = occ_count(m.board, s) as int;
    assert(nibbles(m, s + 1)[t] == piece_code(
        m.board[s]->Some_0,
        s,
        m.turn == Color::Black,
        m.castling,
        m.pushed_square(),
    ));
    assert(nibbles(m, 64).take(t + 1)[t] == nibbles(m, 64)[t]);
}

/// What decoding the board section of a faithful position reconstructs:
/// the board, castling rights and en-passant square come back exactly; the
/// turn is Black only when a code-15 king nibble said so; the clocks wait
/// for the counter tail.
spec fn board_decoded(m: SetupModel) -> SetupModel {
    SetupModel {
        board: m.board,
        turn: if m.turn == Color::Black && m.has_piece(
            Piece { color: Color::Black, role: Role::King },
        ) {
            Color::Black
        } else {
            Color::White
        },
        castling: m.castling,
        ep_square: m.ep_square,
        halfmoves: 0,
        fullmoves: 1,
    }
}

/// Walking the remaining squares of an encoded faithful position finishes
/// the reconstruction: given a partial state that agrees with the first
/// `s` squares, decoding lands on `board_decoded(m)`.
#[verifier::rlimit(100)]
proof fn lemma_decode_inverts(m: SetupModel, s: int, acc: SetupModel)
    requires
        m.faithful(),
        0 <= s <= 64,
        acc.board.len() == 64,
        acc.castling.len() == 64,
        acc.halfmoves == 0,
        acc.fullmoves == 1,
        forall|i: int| 0 <= i < s ==> acc.board[i] == m.board[i],
        forall|i: int| s <= i < 64 ==> acc.board[i] is None,
        forall|i: int| 0 <= i < 64 ==> acc.castling[i] == (i < s && m.castling[i]),
        acc.ep_square == (match m.pushed_square() {
            Some(p) => if p < s {
                m.ep_square
            } else {
                None::<u8>
            },
            None => None::<u8>,
        }),
        acc.turn == (if m.turn == Color::Black && exists|i: int|
            0 <= i < s && m.board[i] == Some(Piece { color: Color::Black, role: Role::King }) {
            Color::Black
        } else {
            Color::White
        }),
    ensures
        decode_squares(spec_compress(m), s, occ_count(m.board, s), acc) == Ok::<
            (SetupModel, nat),
            Error,
        >((board_decoded(m), occ_count(m.board, 64))),
    decreases 64 - s,
{
    let bytes = spec_compress(m);
    let nibs = nibbles(m, 64);
    let t = occ_count(m.board, s);
    lemma_nibbles_len(m, 64);
    lemma_pack_len(nibs);
    lemma_occ_count_le(m.board, s);
    lemma_occ_count_monotone(m.board, s, 64);
    lemma_occ_count_le(m.board, 64);
    if s == 64 {
        assert(acc.board =~= m.board);
        assert(acc.castling =~= m.castling);
        assert(acc.ep_square == m.ep_square) by {
            match m.pushed_square() {
                Some(p) => {
                    assert(p < 64);
                },
                None => {},
            }
        }
        assert(acc =~= board_decoded(m));
    } else {
        lemma_occ_byte_bit(m.board, s);
        assert(bytes[7 - s / 8] == occ_bytes(m.board)[7 - s / 8]);
        assert(nth_occ_bit(bytes, s) == (m.board[s] is Some));
        match m.board[s] {
            None => {
                assert(occ_count(m.board, s + 1) == t);
                assert(!m.castling[s]);
                assert(match m.pushed_square() {
                    Some(p) => p != s,
                    None => true,
                });
                lemma_decode_inverts(m, s + 1, acc);
            },
            Some(p) => {
                let code = piece_code(
                    p,
                    s,
                    m.turn == Color::Black,
                    m.castling,
                    m.pushed_square(),
                );
                assert(occ_count(m.board, s + 1) == t + 1);
                // The nibble the decoder reads is this square's code.
                let bi = 8 + t / 2;
                lemma_occ_count_monotone(m.board, s + 1, 64);
                assert(t < nibs.len());
                assert((t as int) / 2 < pack_nibbles(nibs).len());
                assert(bytes[bi as int] == pack_nibbles(nibs)[(t as int) / 2]) by {
                    let base2 = occ_bytes(m.board) + pack_nibbles(nibs);
                    let tail1 = if writes_halfmoves(m) {
                        leb128_encode(m.halfmoves as nat)
                    } else {
                        Seq::<u8>::empty()
                    };
                    let tail2 = if writes_ply(m) {
                        leb128_encode(spec_ply(m))
                    } else {
                        Seq::<u8>::empty()
                    };
                    assert(bytes == base2 + tail1 + tail2);
                    assert(occ_bytes(m.board).len() == 8);
                    assert(base2[bi as int] == pack_nibbles(nibs)[(t as int) / 2]);
                    assert((base2 + tail1)[bi as int] == base2[bi as int]);
                    assert((base2 + tail1 + tail2)[bi as int] == (base2 + tail1)[bi as int]);
                }
                assert(bytes.len() >= 8 + pack_nibbles(nibs).len());
                lemma_nibbles_bound(m, 64);
                lemma_nibbles_at(m, s);
                lemma_pack_index(nibs, t as int);
                let byte = bytes[bi as int];
                let value = if t % 2 == 0 {
                    byte & 0x0f
                } else {
                    (byte & 0xf0) >> 4
                };
                assert(value == code);
                // The decoded piece is the encoded piece.
                assert(spec_piece_from_value(code, s) == p);
                let placed = SetupModel {
                    board: acc.board.update(s, Some(spec_piece_from_value(value, s))),
                    ..acc
                };
                if code == 12 {
                    let e = m.ep_square->Some_0;
                    if m.turn == Color::Black {
                        assert(s == e + 8 && 24 <= s < 32);
                        let next = SetupModel { ep_square: Some((s - 8) as u8), ..placed };
                        assert(next.ep_square == m.ep_square);
                        lemma_decode_inverts(m, s + 1, next);
                    } else {
                        assert(s == e - 8 && 32 <= s < 40);
                        let next = SetupModel { ep_square: Some((s + 8) as u8), ..placed };
                        assert(next.ep_square == m.ep_square);
                        lemma_decode_inverts(m, s + 1, next);
                    }
                } else if code == 13 || code == 14 {
                    assert(m.castling[s]);
                    let next = SetupModel { castling: placed.castling.update(s, true), ..placed };
                    lemma_decode_inverts(m, s + 1, next);
                } else if code == 15 {
                    assert(m.turn == Color::Black && p == Piece {
                        color: Color::Black,
                        role: Role::King,
                    });
                    let next = SetupModel { turn: Color::Black, ..placed };
                    lemma_decode_inverts(m, s + 1, next);
                } else {
                    assert(code < 12);
                    assert(!m.castling[s]);
                    assert(match m.pushed_square() {
                        Some(q) => q != s,
                        None => true,
                    });
                    assert(!(m.turn == Color::Black && p == Piece {
                        color: Color::Black,
                        role: Role::King,
                    }));
                    lemma_decode_inverts(m, s + 1, placed);
                }
            },
        }
    }
}

/// Round trip: a faithful position compresses without error, and
/// decompressing the bytes gives back exactly the position — board, side
/// to move, castling rights, en-passant square and both counters.
///
/// Together with the contracts of [`compress`] and [`decompress`], this
/// pins the exact behaviour of the codec on every position that a chess
/// game can reach.
#[verifier::rlimit(100)]
pub proof fn lemma_position_round_trip(m: SetupModel)
    requires
        m.faithful(),
    ensures
        spec_compress_error(m) is None,
        spec_decompress(spec_compress(m)) == Ok::<SetupModel, Error>(m),
{
    let bytes = spec_compress(m);
    let nibs = nibbles(m, 64);
    lemma_nibbles_len(m, 64);
    lemma_pack_len(nibs);
    lemma_occ_count_le(m.board, 64);
    let t = occ_count(m.board, 64);
    let pack = pack_nibbles(nibs);
    let tail1 = if writes_halfmoves(m) {
        leb128_encode(m.halfmoves as nat)
    } else {
        Seq::<u8>::empty()
    };
    let tail2 = if writes_ply(m) {
        leb128_encode(spec_ply(m))
    } else {
        Seq::<u8>::empty()
    };
    let base2 = occ_bytes(m.board) + pack;
    assert(bytes == base2 + tail1 + tail2);
    assert(occ_bytes(m.board).len() == 8);
    assert(bytes.len() >= 8);

    lemma_decode_inverts(m, 0, SetupModel::empty());
    let m0 = board_decoded(m);
    assert(decode_squares(bytes, 0, 0, SetupModel::empty()) == Ok::<(SetupModel, nat), Error>(
        (m0, t),
    ));

    let i = 8 + ((t + 1) / 2) as int;
    assert(base2.len() == i);
    let ply = spec_ply(m);
    let b: u32 = if m.turn == Color::Black {
        1
    } else {
        0
    };
    assert(ply == (m.fullmoves - 1) * 2 + b);
    assert(ply < 0x1_0000_0000);

    if !writes_halfmoves(m) {
        assert(!writes_ply(m));
        assert(bytes =~= base2);
        assert(bytes.len() == i);
        assert(m.halfmoves == 0);
        assert(ply <= 1);
        assert(m.fullmoves == 1);
        assert(!spec_broken_turn(m));
        if m.turn == Color::Black {
            assert(m.has_piece(Piece { color: Color::Black, role: Role::King }));
        }
        assert(m0 =~= m);
        assert(spec_decompress(bytes) == Ok::<SetupModel, Error>(m));
    } else {
        assert(bytes.skip(i) =~= tail1 + tail2);
        assert(leb128_encode(m.halfmoves as u64 as nat) == leb128_encode(m.halfmoves as nat));
        lemma_leb128_round_trip(m.halfmoves as u64, tail2);
        let c = leb128_encode(m.halfmoves as nat).len() as int;
        assert(leb128_parse(bytes.skip(i)) == Some((m.halfmoves as nat, c as nat)));
        assert(c >= 1);
        assert(bytes.len() == i + c + tail2.len());
        assert(((m.halfmoves as nat) % 0x1_0000_0000) as u32 == m.halfmoves);
        let m1 = SetupModel { halfmoves: ((m.halfmoves as nat) % 0x1_0000_0000) as u32, ..m0 };
        let j = i + c;
        if !writes_ply(m) {
            assert(bytes.len() == j);
            assert(ply <= 1);
            assert(m.fullmoves == 1);
            assert(!spec_broken_turn(m));
            if m.turn == Color::Black {
                assert(m.has_piece(Piece { color: Color::Black, role: Role::King }));
            }
            assert(m1 =~= m);
            assert(spec_decompress(bytes) == Ok::<SetupModel, Error>(m));
        } else {
            assert(bytes.skip(j) =~= tail2);
            assert(leb128_encode(ply as u64 as nat) + Seq::<u8>::empty() =~= leb128_encode(ply));
            lemma_leb128_round_trip(ply as u64, Seq::<u8>::empty());
            let c2 = leb128_encode(ply).len() as int;
            assert(leb128_parse(bytes.skip(j)) == Some((ply, c2 as nat)));
            assert(c2 >= 1);
            assert(bytes.len() > j);
            let ply_dec = (ply % 0x1_0000_0000) as u32;
            assert(ply_dec == ply);
            assert((((m.fullmoves - 1) * 2 + b) % 2) == b) by (nonlinear_arith)
                requires
                    0 <= b < 2,
                    m.fullmoves >= 1,
            ;
            let turn2 = if ply_dec % 2 == 1 {
                Color::Black
            } else {
                m1.turn
            };
            assert(turn2 == m.turn) by {
                if b == 1 {
                    assert(ply_dec % 2 == 1);
                } else {
                    assert(ply_dec % 2 == 0);
                    assert(m.turn == Color::White);
                    assert(m1.turn == Color::White);
                }
            }
            let b2: u32 = if turn2 == Color::Black {
                1
            } else {
                0
            };
            assert(b2 == b);
            assert(ply_dec >= b2);
            assert(((m.fullmoves - 1) * 2) / 2 == m.fullmoves - 1) by (nonlinear_arith);
            assert((((ply_dec - b2) / 2) + 1) as u32 == m.fullmoves);
            assert(SetupModel {
                turn: turn2,
                fullmoves: (((ply_dec - b2) / 2) + 1) as u32,
                ..m1
            } =~= m);
            assert(spec_decompress(bytes) == Ok::<SetupModel, Error>(m));
        }
    }
}

} // verus!
