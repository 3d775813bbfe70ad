use nelfusion::board::bitboard::{clear_bit, get_bit, set_bit, Square};
use nelfusion::board::position::{Color, Position};
use nelfusion::movegen::movegen::generate_pseudo_legal;
use nelfusion::movegen::moves::{Move, MoveList, MoveType, PromoPiece};
use nelfusion::movegen::perft::{perft, perft_divide};

fn same_position(a: &Position, b: &Position) -> bool {
    a.pieces == b.pieces
        && a.occupied_by == b.occupied_by
        && a.occupied == b.occupied
        && a.side_to_move == b.side_to_move
        && a.castling_rights == b.castling_rights
        && a.en_passant == b.en_passant
        && a.halfmove_clock == b.halfmove_clock
        && a.fullmove_number == b.fullmove_number
}

fn no_square_twice(pos: &Position) -> bool {
    let mut seen = 0u64;
    for c in 0..2 {
        for k in 0..6 {
            if seen & pos.pieces[c][k] != 0 {
                return false;
            }
            seen |= pos.pieces[c][k];
        }
    }
    true
}

#[test]
fn set_then_clear_reads_back() {
    let bb = set_bit(0x8000, 3);
    assert!(get_bit(bb, 3));
    assert!(get_bit(bb, 15));
    let bb = clear_bit(bb, 15);
    assert!(!get_bit(bb, 15));
    assert!(get_bit(bb, 3));
}

#[test]
fn square_numbers_round_trip() {
    for i in 0..64u8 {
        assert_eq!(Square::from_index(i).index(), i);
    }
    assert_eq!(Square::from_index(Square::G7.index()), Square::G7);
}

#[test]
fn constructors_read_back_their_parts() {
    let m = Move::new_promotion(54, 63, PromoPiece::Rook);
    assert_eq!((m.from(), m.to(), m.move_type(), m.promo_piece()), (54, 63, MoveType::Promotion, PromoPiece::Rook));
    let m = Move::new_castling(60, 58);
    assert_eq!((m.from(), m.to(), m.move_type()), (60, 58, MoveType::Castling));
}

#[test]
fn every_generated_move_is_undone_exactly() {
    let fens = [
        "r3k2r/p1ppqpb1/bn2pnp1/3PN3/1p2P3/2N2Q1p/PPPBBPPP/R3K2R w KQkq - 0 1",
        "rnbq1k1r/pp1Pbppp/2p5/8/2B5/8/PPP1NnPP/RNBQK2R w KQ - 1 8",
        "rnbqkbnr/ppp1p1pp/8/3pPp2/8/8/PPPP1PPP/RNBQKBNR w KQkq f6 0 3",
    ];
    for fen in fens {
        let mut pos = Position::from_fen(fen).unwrap();
        let start = pos;
        let mut list = MoveList::new();
        generate_pseudo_legal(&pos, &mut list);
        for &m in list.iter() {
            let info = pos.make_move(m);
            assert!(no_square_twice(&pos), "{} after {}", fen, m.to_uci_string());
            pos.unmake_move(m, info);
            assert!(same_position(&pos, &start), "{} after {}", fen, m.to_uci_string());
        }
    }
}

#[test]
fn move_list_iter_gives_pushed_moves_in_order() {
    let mut list = MoveList::new();
    list.push(Move::new(12, 28));
    list.push(Move::new(6, 21));
    let got: Vec<Move> = list.iter().copied().collect();
    assert_eq!(got, vec![Move::new(12, 28), Move::new(6, 21)]);
}

#[test]
fn perft_divide_matches_perft() {
    let mut pos = Position::startpos();
    let (entries, total) = perft_divide(&mut pos, 2);
    assert_eq!(entries.len(), 20);
    assert_eq!(total, 400);
    assert!(entries.iter().all(|(_, n)| *n == 20));
    let (entries, total) = perft_divide(&mut pos, 0);
    assert_eq!(entries.len(), 20);
    assert_eq!(total, 20);
    assert_eq!(total, perft(&mut pos, 1));
    assert!(same_position(&pos, &Position::startpos()));
}

#[test]
fn perft_divide_counts_per_move() {
    let mut pos =
        Position::from_fen("r3k2r/p1ppqpb1/bn2pnp1/3PN3/1p2P3/2N2Q1p/PPPBBPPP/R3K2R w KQkq - 0 1")
            .unwrap();
    let (entries, total) = perft_divide(&mut pos, 3);
    assert_eq!(total, 97_862);
    assert_eq!(entries.len(), 48);
    let castle = entries.iter().find(|(m, _)| m.to_uci_string() == "e1g1").unwrap();
    assert_eq!(castle.1, 2_059);
    assert_eq!(pos.side_to_move, Color::White);
}

#[test]
fn fen_text_reads_back_as_the_position() {
    let fens = [
        "rnbqkbnr/pppppppp/8/8/8/8/PPPPPPPP/RNBQKBNR w KQkq - 0 1",
        "r3k2r/p1ppqpb1/bn2pnp1/3PN3/1p2P3/2N2Q1p/PPPBBPPP/R3K2R w KQkq - 0 1",
        "8/2p5/3p4/KP5r/1R3p1k/8/4P1P1/8 w - - 0 1",
        "rnbqkbnr/pppp1ppp/8/4p3/4P3/8/PPPP1PPP/RNBQKBNR w KQkq e6 0 2",
        "4k3/8/8/8/8/8/8/4K2R b K - 65535 65535",
    ];
    for fen in fens {
        let pos = Position::from_fen(fen).unwrap();
        let text = pos.to_fen();
        assert_eq!(text, fen);
        let back = Position::from_fen(&text).unwrap();
        assert!(same_position(&back, &pos));
    }
}

#[test]
fn positions_reached_by_moves_read_back_from_their_fen() {
    let mut pos = Position::startpos();
    for m in [Move::new(12, 28), Move::new(51, 35), Move::new(28, 35), Move::new(59, 35)] {
        pos.make_move(m);
        let back = Position::from_fen(&pos.to_fen()).unwrap();
        assert!(same_position(&back, &pos));
    }
}

#[test]
fn perft_leaves_the_position_as_it_found_it() {
    let fens = [
        "r3k2r/p1ppqpb1/bn2pnp1/3PN3/1p2P3/2N2Q1p/PPPBBPPP/R3K2R w KQkq - 0 1",
        "rnbqkbnr/ppp1p1pp/8/3pPp2/8/8/PPPP1PPP/RNBQKBNR w KQkq f6 0 3",
    ];
    for fen in fens {
        let mut pos = Position::from_fen(fen).unwrap();
        let start = pos;
        perft(&mut pos, 3);
        assert!(same_position(&pos, &start), "{}", fen);
    }
}

#[test]
fn generated_moves_are_pairwise_distinct() {
    let fens = [
        "r3k2r/p1ppqpb1/bn2pnp1/3PN3/1p2P3/2N2Q1p/PPPBBPPP/R3K2R w KQkq - 0 1",
        "r3k2r/Pppp1ppp/1b3nbN/nP6/BBP1P3/q4N2/Pp1P2PP/R2Q1RK1 w kq - 0 1",
        "rnbqkbnr/ppp1p1pp/8/3pPp2/8/8/PPPP1PPP/RNBQKBNR w KQkq f6 0 3",
    ];
    for fen in fens {
        let pos = Position::from_fen(fen).unwrap();
        let mut list = MoveList::new();
        generate_pseudo_legal(&pos, &mut list);
        let moves = list.as_slice();
        for i in 0..moves.len() {
            for j in i + 1..moves.len() {
                assert_ne!(moves[i], moves[j], "{}", fen);
            }
        }
    }
}

#[test]
fn null_move_has_code_zero() {
    assert!(Move::null().is_null());
    assert!(!Move::new(12, 28).is_null());
}
