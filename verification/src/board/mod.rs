pub mod bitboard;
pub mod fen;
pub mod fen_lemmas;
pub mod make_move;
pub mod position;
