use nelfusion::board::bitboard::pop_count;
use nelfusion::board::position::{Color, PieceType, Position};
use nelfusion::movegen::moves::Move;

#[test]
fn test_startpos_piece_count() {
    let pos = Position::startpos();
    assert_eq!(pos.material_count(Color::White), 16);
    assert_eq!(pos.material_count(Color::Black), 16);
    assert_eq!(pop_count(pos.occupied), 32);
}

#[test]
fn test_piece_at() {
    let pos = Position::startpos();
    // e1 = white king, index 4
    assert_eq!(pos.piece_at(4), Some((Color::White, PieceType::King)));
    // e8 = black king, index 60
    assert_eq!(pos.piece_at(60), Some((Color::Black, PieceType::King)));
    // e4 = empty, index 28
    assert_eq!(pos.piece_at(28), None);
}

#[test]
fn test_make_move_simple_push() {
    let mut pos = Position::startpos();
    let m = Move::new(12, 28); // e2-e4
    pos.make_move(m);

    assert_eq!(pos.piece_at(12), None);
    assert_eq!(pos.piece_at(28), Some((Color::White, PieceType::Pawn)));
    assert_eq!(pos.side_to_move, Color::Black);
}

#[test]
fn test_make_move_capture() {
    let mut pos = Position::from_fen("8/1k6/8/8/4n3/8/4R3/7K w - - 0 1").unwrap();
    let m = Move::new(12, 28); // rook e2 captures knight on e4
    let info = pos.make_move(m);

    assert_eq!(info.captured_piece, Some(PieceType::Knight));
    assert_eq!(pos.piece_at(28), Some((Color::White, PieceType::Rook)));
    assert_eq!(pos.piece_at(12), None); // e2 empty
    assert_eq!(pos.side_to_move, Color::Black);
}

#[test]
fn make_then_unmake_restores_position() {
    let fens = [
        "r3k2r/p1ppqpb1/bn2pnp1/3PN3/1p2P3/2N2Q1p/PPPBBPPP/R3K2R w KQkq - 0 1",
        "rnbqkbnr/pppp1ppp/8/4p3/4P3/8/PPPP1PPP/RNBQKBNR w KQkq e6 0 2",
        "r3k2r/Pppp1ppp/1b3nbN/nP6/BBP1P3/q4N2/Pp1P2PP/R2Q1RK1 w kq - 0 1",
    ];
    for fen in fens.iter() {
        let pos = Position::from_fen(fen).unwrap();
        let mut list = nelfusion::movegen::moves::MoveList::new();
        nelfusion::movegen::movegen::generate_pseudo_legal(&pos, &mut list);
        for m in list.as_slice() {
            let mut p = pos;
            let info = p.make_move(*m);
            p.unmake_move(*m, info);
            assert_eq!(p.to_fen(), pos.to_fen());
            assert_eq!(p.occupied, pos.occupied);
        }
    }
}

#[test]
fn make_move_special_moves() {
    // castling moves the rook too
    let mut pos = Position::from_fen("r3k2r/8/8/8/8/8/8/R3K2R w KQkq - 0 1").unwrap();
    pos.make_move(Move::new_castling(4, 6));
    assert_eq!(pos.to_fen(), "r3k2r/8/8/8/8/8/8/R4RK1 b kq - 1 1");
    // en passant takes the pawn behind the target square
    let mut pos = Position::from_fen("8/8/8/3pP3/8/8/8/8 w - d6 0 1").unwrap();
    pos.make_move(Move::new_en_passant(36, 43));
    assert_eq!(pos.to_fen(), "8/8/3P4/8/8/8/8/8 b - - 0 1");
    // promotion
    let mut pos = Position::from_fen("8/P7/8/8/8/8/8/8 w - - 3 9").unwrap();
    pos.make_move(Move::new_promotion(48, 56, nelfusion::movegen::moves::PromoPiece::Knight));
    assert_eq!(pos.to_fen(), "N7/8/8/8/8/8/8/8 b - - 0 9");
    // a double push leaves the en passant square
    let mut pos = Position::startpos();
    pos.make_move(Move::new(12, 28));
    assert_eq!(pos.to_fen(), "rnbqkbnr/pppppppp/8/8/4P3/8/PPPP1PPP/RNBQKBNR b KQkq e3 0 1");
}
