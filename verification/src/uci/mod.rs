pub mod commands;
pub mod uci;
