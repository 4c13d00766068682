use chesspack::position::piece_from_value;
use chesspack::position::piece_value;
use chesspack::setup::Color;
use chesspack::setup::Piece;
use chesspack::setup::Role;

fn p(color: Color, role: Role) -> Piece {
    Piece { color, role }
}

#[test]
fn plain_pieces_use_codes_0_to_11() {
    let table = [
        (Color::White, Role::Pawn, 0u8),
        (Color::Black, Role::Pawn, 1),
        (Color::White, Role::Knight, 2),
        (Color::Black, Role::Knight, 3),
        (Color::White, Role::Bishop, 4),
        (Color::Black, Role::Bishop, 5),
        (Color::White, Role::Rook, 6),
        (Color::Black, Role::Rook, 7),
        (Color::White, Role::Queen, 8),
        (Color::Black, Role::Queen, 9),
        (Color::White, Role::King, 10),
        (Color::Black, Role::King, 11),
    ];
    for &(color, role, code) in &table {
        assert_eq!(piece_value(p(color, role), 35, false, 0, None), code);
        assert_eq!(piece_from_value(code, 35), p(color, role));
    }
}

#[test]
fn rooks_with_castling_rights_use_13_and_14() {
    let rights = 1u64 | (1 << 63);
    assert_eq!(piece_value(p(Color::White, Role::Rook), 0, false, rights, None), 13);
    assert_eq!(piece_value(p(Color::Black, Role::Rook), 63, false, rights, None), 14);
    // The same rooks elsewhere stay plain.
    assert_eq!(piece_value(p(Color::White, Role::Rook), 1, false, rights, None), 6);
    assert_eq!(piece_from_value(13, 0), p(Color::White, Role::Rook));
    assert_eq!(piece_from_value(14, 63), p(Color::Black, Role::Rook));
}

#[test]
fn the_black_king_marks_the_side_to_move() {
    assert_eq!(piece_value(p(Color::Black, Role::King), 60, true, 0, None), 15);
    assert_eq!(piece_value(p(Color::Black, Role::King), 60, false, 0, None), 11);
    assert_eq!(piece_from_value(15, 60), p(Color::Black, Role::King));
}

#[test]
fn the_pushed_pawn_uses_code_12_whatever_its_colour() {
    assert_eq!(piece_value(p(Color::White, Role::Pawn), 28, true, 0, Some(28)), 12);
    assert_eq!(piece_value(p(Color::Black, Role::Pawn), 36, false, 0, Some(36)), 12);
    // Other pawns keep their plain codes.
    assert_eq!(piece_value(p(Color::White, Role::Pawn), 27, true, 0, Some(28)), 0);
}

#[test]
fn code_12_takes_its_colour_from_the_board_half() {
    assert_eq!(piece_from_value(12, 28), p(Color::White, Role::Pawn));
    assert_eq!(piece_from_value(12, 36), p(Color::Black, Role::Pawn));
}
