pub mod board;
pub mod movegen;
pub mod text;
pub mod uci;
