use nelfusion::board::position::Position;
use nelfusion::movegen::movegen::{
    generate_castling_moves, generate_king_moves, generate_knight_moves, generate_pawn_moves,
    generate_pseudo_legal,
};
use nelfusion::movegen::moves::MoveList;

#[test]
fn generate_test_knight_moves_startpos() {
    let pos = Position::startpos();
    let mut list = MoveList::new();
    nelfusion::movegen::generate::generate_knight_moves(&pos, &mut list);
    // Each side starts with 2 knights, each has exactly 2 legal-looking
    // (pseudo-legal) moves from the back rank in the starting position.
    assert_eq!(list.len(), 4);
}

#[test]
fn movegen_test_knight_moves_startpos() {
    let pos = Position::startpos();
    let mut list = MoveList::new();
    generate_knight_moves(&pos, &mut list);
    assert_eq!(list.len(), 4);
}

#[test]
fn test_king_moves_startpos() {
    let pos = Position::startpos();
    let mut list = MoveList::new();
    generate_king_moves(&pos, &mut list);
    assert_eq!(list.len(), 0);
}

#[test]
fn test_pawn_moves_startpos_white() {
    let pos = Position::startpos();
    let mut list = MoveList::new();
    generate_pawn_moves(&pos, &mut list);
    assert_eq!(list.len(), 16);
}

#[test]
fn test_castling_startpos_none_available() {
    let pos = Position::startpos();
    let mut list = MoveList::new();
    generate_castling_moves(&pos, &mut list);
    assert_eq!(list.len(), 0);
}

#[test]
fn test_pseudo_legal_startpos_count() {
    let pos = Position::startpos();
    let mut list = MoveList::new();
    generate_pseudo_legal(&pos, &mut list);
    assert_eq!(list.len(), 20);
}

#[test]
fn generate_test_knight_moves_center() {
    let pos = Position::from_fen("8/8/8/4N3/8/8/8/8 w - - 0 1").unwrap();
    let mut list = MoveList::new();
    nelfusion::movegen::generate::generate_knight_moves(&pos, &mut list);
    // A lone knight in the center of an empty board has all 8 attacks available.
    assert_eq!(list.len(), 8);
}

#[test]
fn movegen_test_knight_moves_center() {
    let pos = Position::from_fen("8/8/8/4N3/8/8/8/8 w - - 0 1").unwrap();
    let mut list = MoveList::new();
    generate_knight_moves(&pos, &mut list);
    assert_eq!(list.len(), 8);
}

#[test]
fn test_king_moves_center() {
    let pos = Position::from_fen("8/8/8/4K3/8/8/8/8 w - - 0 1").unwrap();
    let mut list = MoveList::new();
    generate_king_moves(&pos, &mut list);
    assert_eq!(list.len(), 8);
}

#[test]
fn test_bishop_moves_center_open_board() {
    let pos = Position::from_fen("8/8/8/4B3/8/8/8/8 w - - 0 1").unwrap();
    let mut list = MoveList::new();
    nelfusion::movegen::movegen::generate_bishop_moves(&pos, &mut list);
    assert_eq!(list.len(), 13);
}

#[test]
fn test_rook_moves_corner_open_board() {
    let pos = Position::from_fen("R7/8/8/8/8/8/8/8 w - - 0 1").unwrap();
    let mut list = MoveList::new();
    nelfusion::movegen::movegen::generate_rook_moves(&pos, &mut list);
    assert_eq!(list.len(), 14);
}

#[test]
fn test_queen_moves_center_open_board() {
    let pos = Position::from_fen("8/8/8/4Q3/8/8/8/8 w - - 0 1").unwrap();
    let mut list = MoveList::new();
    nelfusion::movegen::movegen::generate_queen_moves(&pos, &mut list);
    assert_eq!(list.len(), 27);
}

#[test]
fn test_pawn_promotion() {
    let pos = Position::from_fen("8/P7/8/8/8/8/8/8 w - - 0 1").unwrap();
    let mut list = MoveList::new();
    generate_pawn_moves(&pos, &mut list);
    assert_eq!(list.len(), 4);
}

#[test]
fn test_pawn_en_passant() {
    let pos = Position::from_fen("8/8/8/8/Pp6/8/8/8 b - a3 0 1").unwrap();
    let mut list = MoveList::new();
    generate_pawn_moves(&pos, &mut list);
    let has_ep = list.as_slice().iter().any(|m| m.to() == 16);
    assert!(has_ep);
}

#[test]
fn test_castling_kingside_available() {
    let pos = Position::from_fen("r3k2r/8/8/8/8/8/8/R3K2R w KQkq - 0 1").unwrap();
    let mut list = MoveList::new();
    generate_castling_moves(&pos, &mut list);
    assert_eq!(list.len(), 2);
}

#[test]
fn test_castling_blocked_by_check() {
    let pos = Position::from_fen("4r3/8/8/8/8/8/8/R3K2R w KQkq - 0 1").unwrap();
    let mut list = MoveList::new();
    generate_castling_moves(&pos, &mut list);
    assert_eq!(list.len(), 0);
}

#[test]
fn test_castling_blocked_by_attacked_square() {
    let pos = Position::from_fen("5r2/8/8/8/8/8/8/R3K2R w KQ - 0 1").unwrap();
    let mut list = MoveList::new();
    generate_castling_moves(&pos, &mut list);
    assert_eq!(list.len(), 1);
    assert_eq!(list.as_slice()[0].to(), 2);
}

#[test]
fn generated_moves_come_lowest_square_first() {
    let pos = Position::from_fen("8/8/8/8/8/8/8/N6N w - - 0 1").unwrap();
    let mut list = MoveList::new();
    generate_knight_moves(&pos, &mut list);
    let names: Vec<String> = list.as_slice().iter().map(|m| m.to_uci_string()).collect();
    assert_eq!(names, vec!["a1c2", "a1b3", "h1f2", "h1g3"]);
}
