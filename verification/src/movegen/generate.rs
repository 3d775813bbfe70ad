use vstd::prelude::*;
use crate::board::position::Position;
use crate::movegen::movegen::knight_moves_spec;
use crate::movegen::moves::{MoveList, MAX_MOVES};

verus! {

/// Appends the knight moves of the side to move, as `movegen::generate_knight_moves` does.
pub fn generate_knight_moves(pos: &Position, list: &mut MoveList)
    requires
        old(list)@.len() + knight_moves_spec(*pos).len() <= MAX_MOVES,
    ensures
        final(list)@ == old(list)@ + knight_moves_spec(*pos),
{
    crate::movegen::movegen::generate_knight_moves(pos, list);
}

} // verus!
