use nelfusion::board::fen::fen_ok;
use nelfusion::board::position::Position;
use nelfusion::movegen::magic::MagicTables;
use nelfusion::movegen::movegen::try_generate_pseudo_legal;
use nelfusion::movegen::moves::MoveList;
use nelfusion::movegen::perft::{divide_ok, perft, perft_checked, perft_divide};

#[test]
fn fen_ok_accepts_ordinary_text() {
    assert!(fen_ok("rnbqkbnr/pppppppp/8/8/8/8/PPPPPPPP/RNBQKBNR w KQkq - 0 1"));
    assert!(fen_ok("8/8/8/8/8/8/8/K6k w - - 0 1"));
    // Text that `from_fen` answers with an error is still text it can take.
    assert!(fen_ok("not a fen"));
    assert!(fen_ok("8/8/8/8/8/8/8/K6x w - - 0 1"));
    assert!(Position::from_fen("8/8/8/8/8/8/8/K6x w - - 0 1").is_err());
}

#[test]
fn fen_ok_refuses_placement_past_the_board() {
    assert!(!fen_ok("PPPPPPPPP/8/8/8/8/8/8/K6k w - - 0 1"));
    assert!(!fen_ok("99999999999999999999999999999/8/8/8/8/8/8/K6k w - - 0 1"));
}

#[test]
fn all_found_on_generated_tables() {
    let t = MagicTables::generate();
    assert!(t.all_found());
}

#[test]
fn try_generate_fills_the_start_position() {
    let pos = Position::startpos();
    let mut list = MoveList::new();
    assert!(try_generate_pseudo_legal(&pos, &mut list));
    assert_eq!(list.len(), 20);
}

#[test]
fn perft_checked_matches_perft() {
    let pos = Position::startpos();
    assert_eq!(perft_checked(&pos, 0), Some(1));
    assert_eq!(perft_checked(&pos, 3), Some(8_902));
    let mut p = Position::from_fen(
        "r3k2r/p1ppqpb1/bn2pnp1/3PN3/1p2P3/2N2Q1p/PPPBBPPP/R3K2R w KQkq - 0 1",
    )
    .unwrap();
    assert_eq!(perft_checked(&p, 2), Some(2_039));
    assert_eq!(perft(&mut p, 2), 2_039);
}

#[test]
fn perft_checked_refuses_a_clock_overflow() {
    // A quiet king move would take the halfmove clock past 65535.
    let pos = Position::from_fen("8/8/8/8/8/8/8/K6k w - - 65535 1").unwrap();
    assert_eq!(perft_checked(&pos, 0), Some(1));
    assert_eq!(perft_checked(&pos, 1), None);
    // Black's move would take the fullmove number past 65535.
    let pos = Position::from_fen("8/8/8/8/8/8/8/K6k b - - 0 65535").unwrap();
    assert_eq!(perft_checked(&pos, 1), None);
}

#[test]
fn divide_ok_follows_perft_checked() {
    let mut pos = Position::startpos();
    assert!(divide_ok(&pos, 2));
    let (entries, total) = perft_divide(&mut pos, 2);
    assert_eq!(entries.len(), 20);
    assert_eq!(total, 400);
    assert!(divide_ok(&pos, 0));
    let pos = Position::from_fen("8/8/8/8/8/8/8/K6k w - - 65535 1").unwrap();
    assert!(!divide_ok(&pos, 0));
    assert!(!divide_ok(&pos, 3));
}
