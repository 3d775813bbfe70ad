use vstd::prelude::*;
use crate::board::position::{ci, color_index, Color, Position};
use crate::movegen::magic::{
    bishop_attacks_slow, bishop_attacks_spec, rook_attacks_slow, rook_attacks_spec,
};
use crate::movegen::tables::{
    king_attacks_from, king_attacks_spec, knight_attacks_from, knight_attacks_spec,
    pawn_attacks_from, pawn_attacks_spec,
};

verus! {

/// Whether a piece of color slot `b` attacks `sq`, sliders being blocked by `occ`.
pub open spec fn attacked_spec(pos: Position, sq: int, b: int, occ: u64) -> bool {
    let p = pos.pieces[b];
    ||| pawn_attacks_spec(1 - b, sq) & p[0] != 0
    ||| knight_attacks_spec(sq) & p[1] != 0
    ||| king_attacks_spec(sq) & p[5] != 0
    ||| bishop_attacks_spec(sq, occ) & (p[2] | p[4]) != 0
    ||| rook_attacks_spec(sq, occ) & (p[3] | p[4]) != 0
}

impl Position {
    /// Whether a piece of color `by` attacks `sq`, with `occupied` as the blockers of sliding
    /// pieces: a pawn attacking it diagonally, a knight or king a step away, or a bishop, rook
    /// or queen with a free line to it.
    pub fn is_square_attacked(&self, sq: u8, by: Color, occupied: u64) -> (b: bool)
        requires
            sq < 64,
        ensures
            b == attacked_spec(*self, sq as int, ci(by), occupied),
    {
        let b = color_index(by);
        let p = self.pieces[b];
        let s = sq as i32;
        if pawn_attacks_from(1 - b, s) & p[0] != 0 {
            return true;
        }
        if knight_attacks_from(s) & p[1] != 0 {
            return true;
        }
        if king_attacks_from(s) & p[5] != 0 {
            return true;
        }
        if bishop_attacks_slow(s, occupied) & (p[2] | p[4]) != 0 {
            return true;
        }
        rook_attacks_slow(s, occupied) & (p[3] | p[4]) != 0
    }
}

} // verus!
