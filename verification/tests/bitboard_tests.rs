use nelfusion::board::bitboard::{clear_bit, get_bit, pop_lsb, set_bit, Square, EMPTY};

#[test]
fn test_set_clear_get() {
    let mut bb = EMPTY;
    bb = set_bit(bb, Square::E4.index());
    assert!(get_bit(bb, Square::E4.index()));
    bb = clear_bit(bb, Square::E4.index());
    assert!(!get_bit(bb, Square::E4.index()));
}

#[test]
fn test_pop_lsb() {
    let mut bb = set_bit(set_bit(EMPTY, 5), 10);
    let first = pop_lsb(&mut bb);
    assert_eq!(first, 5);
    let second = pop_lsb(&mut bb);
    assert_eq!(second, 10);
    assert_eq!(bb, EMPTY);
}
