pub mod attacks;
pub mod fits;
pub mod generate;
pub mod magic;
pub mod movegen;
pub mod moves;
pub mod perft;
pub mod tables;
