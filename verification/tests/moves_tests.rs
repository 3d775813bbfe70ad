use nelfusion::movegen::moves::{square_to_uci, Move, MoveList, MoveType, PromoPiece};

#[test]
fn test_normal_move_roundtrip() {
    let m = Move::new(12, 28);
    assert_eq!(m.from(), 12);
    assert_eq!(m.to(), 28);
    assert_eq!(m.move_type(), MoveType::Normal);
}

#[test]
fn test_promotion_roundtrip() {
    let m = Move::new_promotion(52, 60, PromoPiece::Queen);
    assert_eq!(m.from(), 52);
    assert_eq!(m.to(), 60);
    assert_eq!(m.move_type(), MoveType::Promotion);
    assert_eq!(m.promo_piece(), PromoPiece::Queen);
}

#[test]
fn test_en_passant_roundtrip() {
    let m = Move::new_en_passant(35, 44);
    assert_eq!(m.move_type(), MoveType::EnPassant);
}

#[test]
fn test_castling_roundtrip() {
    let m = Move::new_castling(4, 6);
    assert_eq!(m.move_type(), MoveType::Castling);
}

#[test]
fn test_uci_string() {
    let m = Move::new(12, 28);
    assert_eq!(m.to_uci_string(), "e2e4");
}

#[test]
fn test_move_list_push() {
    let mut list = MoveList::new();
    list.push(Move::new(0, 1));
    list.push(Move::new(2, 3));
    assert_eq!(list.len(), 2);
    assert_eq!(list.as_slice()[0].from(), 0);
}

#[test]
fn square_names() {
    assert_eq!(square_to_uci(0), "a1");
    assert_eq!(square_to_uci(63), "h8");
    assert_eq!(square_to_uci(70), "g9");
}
