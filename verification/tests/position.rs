use chesspack::Error;
use chesspack::position::compress;
use chesspack::position::decompress;
use chesspack::setup::Color;
use chesspack::setup::Piece;
use chesspack::setup::Role;
use chesspack::setup::Setup;

fn piece(color: Color, role: Role) -> Option<Piece> {
    Some(Piece { color, role })
}

fn empty_setup() -> Setup {
    Setup {
        board: vec![None; 64],
        turn: Color::White,
        castling_rights: 0,
        ep_square: None,
        halfmoves: 0,
        fullmoves: 1,
    }
}

/// The standard chess starting position, with castling rights on all four
/// rook squares.
fn starting_setup() -> Setup {
    let mut s = empty_setup();
    let back = [
        Role::Rook,
        Role::Knight,
        Role::Bishop,
        Role::Queen,
        Role::King,
        Role::Bishop,
        Role::Knight,
        Role::Rook,
    ];
    for (file, role) in back.iter().enumerate() {
        s.board[file] = piece(Color::White, *role);
        s.board[8 + file] = piece(Color::White, Role::Pawn);
        s.board[48 + file] = piece(Color::Black, Role::Pawn);
        s.board[56 + file] = piece(Color::Black, *role);
    }
    s.castling_rights = 1 | (1 << 7) | (1 << 56) | (1 << 63);
    s
}

fn assert_same_position(a: &Setup, b: &Setup) {
    assert_eq!(a.board, b.board);
    assert_eq!(a.turn, b.turn);
    assert_eq!(a.castling_rights, b.castling_rights);
    assert_eq!(a.ep_square, b.ep_square);
    assert_eq!(a.halfmoves, b.halfmoves);
    assert_eq!(a.fullmoves, b.fullmoves);
}

#[test]
fn empty_board_encodes_to_eight_zero_bytes() {
    let bytes = compress(&empty_setup()).unwrap();
    assert_eq!(bytes, vec![0u8; 8]);
}

#[test]
fn empty_board_round_trips() {
    let bytes = compress(&empty_setup()).unwrap();
    let back = decompress(&bytes).unwrap();
    assert_same_position(&empty_setup(), &back);
}

#[test]
fn starting_position_encodes_to_24_bytes() {
    let bytes = compress(&starting_setup()).unwrap();
    assert_eq!(bytes.len(), 24);
    // Occupancy: ranks 8, 7, 2 and 1 are full, big-endian.
    assert_eq!(&bytes[..8], &[0xff, 0xff, 0, 0, 0, 0, 0xff, 0xff]);
    // First nibble byte: knight (2) above an unmoved White rook (13).
    assert_eq!(bytes[8], 0x2d);
    // White pawns pack to zero nibbles, Black pawns to ones.
    assert_eq!(&bytes[12..16], &[0x00, 0x00, 0x00, 0x00]);
    assert_eq!(&bytes[16..20], &[0x11, 0x11, 0x11, 0x11]);
    // Black king (11, White to move) under a Black bishop (5).
    assert_eq!(bytes[22], 0x5b);
}

#[test]
fn starting_position_matches_its_known_encoding() {
    let expected = vec![
        0xff, 0xff, 0x00, 0x00, 0x00, 0x00, 0xff, 0xff, // occupancy
        0x2d, 0x84, 0x4a, 0xd2, // White back rank
        0x00, 0x00, 0x00, 0x00, // White pawns
        0x11, 0x11, 0x11, 0x11, // Black pawns
        0x3e, 0x95, 0x5b, 0xe3, // Black back rank
    ];
    assert_eq!(compress(&starting_setup()).unwrap(), expected);
    let decoded = decompress(&expected).unwrap();
    assert_same_position(&starting_setup(), &decoded);
}

#[test]
fn starting_position_round_trips() {
    let start = starting_setup();
    let bytes = compress(&start).unwrap();
    let back = decompress(&bytes).unwrap();
    assert_same_position(&start, &back);
}

#[test]
fn compression_is_deterministic() {
    let start = starting_setup();
    assert_eq!(compress(&start).unwrap(), compress(&start).unwrap());
}

/// The position after the double pawn push e2-e4: the en-passant target is
/// e3 (square 20), and the pushed pawn stands on e4 (square 28).
fn position_after_e4() -> Setup {
    let mut s = starting_setup();
    s.board[12] = None;
    s.board[28] = piece(Color::White, Role::Pawn);
    s.turn = Color::Black;
    s.ep_square = Some(20);
    s
}

#[test]
fn en_passant_pawn_gets_code_12() {
    let bytes = compress(&position_after_e4()).unwrap();
    // The pawn on e4 is the 16th occupied square (15 sit below it), so its
    // code is the high nibble of the 8th piece byte.
    assert_eq!(bytes[15] >> 4, 12);
}

#[test]
fn en_passant_square_round_trips() {
    let after_e4 = position_after_e4();
    let bytes = compress(&after_e4).unwrap();
    let back = decompress(&bytes).unwrap();
    assert_eq!(back.ep_square, Some(20));
    assert_same_position(&after_e4, &back);
}

#[test]
fn halfmove_clock_50_writes_one_extra_byte() {
    let mut s = starting_setup();
    s.halfmoves = 50;
    let bytes = compress(&s).unwrap();
    // Ply is 0, so only the halfmove clock is appended: a single 0x32.
    assert_eq!(bytes.len(), 25);
    assert_eq!(bytes[24], 0x32);
    let back = decompress(&bytes).unwrap();
    assert_same_position(&s, &back);
}

#[test]
fn black_to_move_marks_the_king_nibble() {
    let mut s = empty_setup();
    s.board[60] = piece(Color::Black, Role::King);
    s.turn = Color::Black;
    let bytes = compress(&s).unwrap();
    assert_eq!(bytes, vec![0x10, 0, 0, 0, 0, 0, 0, 0, 0x0f]);
    let back = decompress(&bytes).unwrap();
    assert_same_position(&s, &back);
}

#[test]
fn broken_turn_writes_the_ply_counter() {
    let mut s = empty_setup();
    s.turn = Color::Black;
    let bytes = compress(&s).unwrap();
    // No Black king: the turn needs the counters, halfmoves 0 then ply 1.
    assert_eq!(bytes, vec![0, 0, 0, 0, 0, 0, 0, 0, 0x00, 0x01]);
    let back = decompress(&bytes).unwrap();
    assert_eq!(back.turn, Color::Black);
    assert_eq!(back.fullmoves, 1);
}

#[test]
fn later_fullmove_counters_round_trip() {
    let mut s = starting_setup();
    s.halfmoves = 2;
    s.fullmoves = 3;
    let bytes = compress(&s).unwrap();
    assert_eq!(&bytes[24..], &[0x02, 0x04]);
    let back = decompress(&bytes).unwrap();
    assert_same_position(&s, &back);

    s.turn = Color::Black;
    let bytes = compress(&s).unwrap();
    // Black to move: ply 5, and the king nibble switches to 15.
    assert_eq!(&bytes[24..], &[0x02, 0x05]);
    let back = decompress(&bytes).unwrap();
    assert_same_position(&s, &back);
}

#[test]
fn sparse_position_with_every_special_code_round_trips() {
    // White king e1 and rook h1 (with castling rights), Black king e8,
    // Black pawn on d5 just pushed two squares: en-passant target d6.
    let mut s = empty_setup();
    s.board[4] = piece(Color::White, Role::King);
    s.board[7] = piece(Color::White, Role::Rook);
    s.board[35] = piece(Color::Black, Role::Pawn);
    s.board[60] = piece(Color::Black, Role::King);
    s.castling_rights = 1 << 7;
    s.ep_square = Some(43);
    s.fullmoves = 2;
    let bytes = compress(&s).unwrap();
    assert_eq!(
        bytes,
        vec![
            0x10, 0x00, 0x00, 0x08, 0x00, 0x00, 0x00, 0x90, // occupancy
            0xda, // rook-with-rights (13) over king (10)
            0xbc, // king (11) over pushed pawn (12)
            0x00, 0x02, // halfmoves 0, ply 2
        ]
    );
    let back = decompress(&bytes).unwrap();
    assert_same_position(&s, &back);
}

#[test]
fn short_input_is_missing_bytes() {
    assert!(matches!(decompress(&[]), Err(Error::MissingBytes)));
    assert!(matches!(decompress(&[0; 7]), Err(Error::MissingBytes)));
}

#[test]
fn missing_nibble_is_missing_bytes() {
    // Square 0 is occupied but no piece byte follows.
    assert!(matches!(decompress(&[0, 0, 0, 0, 0, 0, 0, 1]), Err(Error::MissingBytes)));
}

#[test]
fn pawn_push_off_the_board_fails_decoding() {
    // Code 12 on square 0 would put the en-passant target off the board.
    assert!(matches!(
        decompress(&[0, 0, 0, 0, 0, 0, 0, 1, 0x0c]),
        Err(Error::SquareOffsetError(0, -8))
    ));
}

#[test]
fn en_passant_target_off_the_board_fails_encoding() {
    let mut s = empty_setup();
    s.turn = Color::Black;
    s.ep_square = Some(60);
    assert_eq!(compress(&s), Err(Error::SquareOffsetError(60, 8)));

    let mut s = empty_setup();
    s.ep_square = Some(4);
    assert_eq!(compress(&s), Err(Error::SquareOffsetError(4, -8)));
}

#[test]
fn en_passant_without_the_pushed_pawn_fails_encoding() {
    // Black to move, target e3: the pushed-to square e4 (28) is empty.
    let mut s = empty_setup();
    s.turn = Color::Black;
    s.ep_square = Some(20);
    assert_eq!(compress(&s), Err(Error::MissingPiece(28)));

    // A non-pawn on the pushed-to square fails the same way: White to
    // move, target d6, but d5 (35) holds a knight.
    let mut s = empty_setup();
    s.ep_square = Some(43);
    s.board[35] = piece(Color::Black, Role::Knight);
    assert_eq!(compress(&s), Err(Error::MissingPiece(35)));
}

#[test]
fn truncated_clock_is_a_leb128_error() {
    // A continuation byte with nothing after it.
    assert!(matches!(decompress(&[0, 0, 0, 0, 0, 0, 0, 0, 0x80]), Err(Error::Leb128)));
}
