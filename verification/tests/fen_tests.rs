use nelfusion::board::bitboard::pop_count;
use nelfusion::board::fen::square_from_str;
use nelfusion::board::position::Position;

#[test]
fn test_startpos_fen_roundtrip() {
    let fen = "rnbqkbnr/pppppppp/8/8/8/8/PPPPPPPP/RNBQKBNR w KQkq - 0 1";
    let pos = Position::from_fen(fen).unwrap();
    assert_eq!(pop_count(pos.occupied), 32);
    assert_eq!(pos.to_fen(), fen);
}

#[test]
fn test_fen_with_en_passant() {
    let fen = "rnbqkbnr/pppp1ppp/8/4p3/4P3/8/PPPP1PPP/RNBQKBNR w KQkq e6 0 2";
    let pos = Position::from_fen(fen).unwrap();
    assert_eq!(pos.en_passant, Some(square_from_str("e6").unwrap()));
    assert_eq!(pos.to_fen(), fen);
}

#[test]
fn test_fen_no_castling() {
    let fen = "8/8/8/4k3/4K3/8/8/8 w - - 5 10";
    let pos = Position::from_fen(fen).unwrap();
    assert_eq!(pos.castling_rights, 0);
    assert_eq!(pos.halfmove_clock, 5);
    assert_eq!(pos.fullmove_number, 10);
}

#[test]
fn fen_errors_name_the_problem() {
    assert_eq!(
        Position::from_fen("8/8/8 w").unwrap_err(),
        "Invalid FEN: expected at least 4 fields, got 2"
    );
    assert_eq!(
        Position::from_fen("8/8/8/8/8/8/8 w - -").unwrap_err(),
        "Invalid FEN: expected 8 ranks, got 7"
    );
    assert_eq!(
        Position::from_fen("8/8/8/8/8/8/8/7X w - -").unwrap_err(),
        "Invalid piece character: x"
    );
    assert_eq!(
        Position::from_fen("8/8/8/8/8/8/8/8 x - -").unwrap_err(),
        "Invalid side to move: x"
    );
    assert_eq!(
        Position::from_fen("8/8/8/8/8/8/8/8 w KZ -").unwrap_err(),
        "Invalid castling char: Z"
    );
    assert_eq!(Position::from_fen("8/8/8/8/8/8/8/8 w - e9").unwrap_err(), "Invalid square: e9");
    assert_eq!(square_from_str("i1").unwrap_err(), "Invalid square: i1");
    assert_eq!(square_from_str("h8"), Ok(63));
}

#[test]
fn fen_optional_counters_default() {
    let pos = Position::from_fen("  8/8/8/8/8/8/8/8\tb Qk -  ").unwrap();
    assert_eq!(pos.halfmove_clock, 0);
    assert_eq!(pos.fullmove_number, 1);
    assert_eq!(pos.castling_rights, 2 | 4);
    let pos = Position::from_fen("8/8/8/8/8/8/8/8 w - - +7 70000").unwrap();
    assert_eq!(pos.halfmove_clock, 7);
    assert_eq!(pos.fullmove_number, 1);
    assert_eq!(pos.to_fen(), "8/8/8/8/8/8/8/8 w - - 7 1");
}
