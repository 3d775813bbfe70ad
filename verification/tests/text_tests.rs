use nelfusion::board::bitboard::bitboard_text;
use nelfusion::board::position::{Color, Position};

#[test]
fn bitboard_picture_of_a1_and_h8() {
    let text = bitboard_text(1 | (1u64 << 63));
    let expected = "8 . . . . . . . 1 \n\
                    7 . . . . . . . . \n\
                    6 . . . . . . . . \n\
                    5 . . . . . . . . \n\
                    4 . . . . . . . . \n\
                    3 . . . . . . . . \n\
                    2 . . . . . . . . \n\
                    1 1 . . . . . . . \n\
                    \x20 a b c d e f g h\n\
                    Bitboard value: 9223372036854775809\n";
    assert_eq!(text, expected);
}

#[test]
fn bitboard_picture_of_empty_board_ends_with_zero() {
    let text = bitboard_text(0);
    assert!(text.ends_with("Bitboard value: 0\n"));
    assert_eq!(text.lines().count(), 10);
}

#[test]
fn board_picture_of_start_position() {
    let pos = Position::startpos();
    let expected = "8 r n b q k b n r \n\
                    7 p p p p p p p p \n\
                    6 . . . . . . . . \n\
                    5 . . . . . . . . \n\
                    4 . . . . . . . . \n\
                    3 . . . . . . . . \n\
                    2 P P P P P P P P \n\
                    1 R N B Q K B N R \n\
                    \x20 a b c d e f g h\n\
                    Side to move: White\n";
    assert_eq!(pos.board_text(), expected);
}

#[test]
fn board_picture_names_black_to_move() {
    let mut pos = Position::empty();
    pos.side_to_move = Color::Black;
    assert!(pos.board_text().ends_with("Side to move: Black\n"));
}
