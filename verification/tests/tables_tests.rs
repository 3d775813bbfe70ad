use nelfusion::board::bitboard::pop_count;
use nelfusion::movegen::tables::{
    king_attacks_from, king_attacks_table, knight_attacks_from, knight_attacks_table,
};

#[test]
fn test_knight_corner_attacks() {
    // Knight on a1 (square 0) should have exactly 2 attack squares.
    let attacks = knight_attacks_table()[0];
    assert_eq!(pop_count(attacks), 2);
}

#[test]
fn test_knight_center_attacks() {
    // Knight on e4 (square 28) should have 8 attack squares (fully surrounded).
    let attacks = knight_attacks_table()[28];
    assert_eq!(pop_count(attacks), 8);
}

#[test]
fn test_king_corner_attacks() {
    // King on a1 (square 0) should have exactly 3 attack squares.
    let attacks = king_attacks_table()[0];
    assert_eq!(pop_count(attacks), 3);
}

#[test]
fn test_king_center_attacks() {
    // King on e4 (square 28) should have 8 attack squares.
    let attacks = king_attacks_table()[28];
    assert_eq!(pop_count(attacks), 8);
}

#[test]
fn attacks_for_numbers_off_the_board() {
    assert_eq!(knight_attacks_from(-1), (1u64 << 16) | (1u64 << 9));
    assert_eq!(king_attacks_from(64), (1u64 << 56) | (1u64 << 57));
    assert_eq!(knight_attacks_from(1000), 0);
}
