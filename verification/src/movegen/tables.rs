use vstd::prelude::*;
use crate::board::bitboard::Bitboard;
use crate::movegen::magic::{trunc_file, trunc_rank};

verus! {

/// The bitboard of square (file `f`, rank `r`), or the empty bitboard off the board.
pub open spec fn sq_bit(f: int, r: int) -> u64 {
    if 0 <= f < 8 && 0 <= r < 8 {
        1u64 << ((r * 8 + f) as u64)
    } else {
        0u64
    }
}

/// The squares on the board a knight jump away from file `f` and rank `r`.
pub open spec fn knight_jumps(f: int, r: int) -> u64 {
    sq_bit(f + 1, r + 2) | sq_bit(f + 2, r + 1) | sq_bit(f + 2, r - 1) | sq_bit(f + 1, r - 2)
        | sq_bit(f - 1, r - 2) | sq_bit(f - 2, r - 1) | sq_bit(f - 2, r + 1) | sq_bit(f - 1, r + 2)
}

/// The squares on the board a king step away from file `f` and rank `r`.
pub open spec fn king_steps(f: int, r: int) -> u64 {
    sq_bit(f + 1, r) | sq_bit(f + 1, r + 1) | sq_bit(f, r + 1) | sq_bit(f - 1, r + 1) | sq_bit(
        f - 1,
        r,
    ) | sq_bit(f - 1, r - 1) | sq_bit(f, r - 1) | sq_bit(f + 1, r - 1)
}

/// The squares a knight on `sq` attacks.
pub open spec fn knight_attacks_spec(sq: int) -> u64 {
    knight_jumps(sq % 8, sq / 8)
}

/// The squares a king on `sq` attacks.
pub open spec fn king_attacks_spec(sq: int) -> u64 {
    king_steps(sq % 8, sq / 8)
}

/// The squares a pawn of the color with slot `c` (0 white, 1 black) attacks from `sq`.
pub open spec fn pawn_attacks_spec(c: int, sq: int) -> u64 {
    let f = sq % 8;
    let r = sq / 8;
    if c == 0 {
        sq_bit(f - 1, r + 1) | sq_bit(f + 1, r + 1)
    } else {
        sq_bit(f - 1, r - 1) | sq_bit(f + 1, r - 1)
    }
}

/// The bitboard of the square `(file + df, rank + dr)`, empty when that is off the board.
fn target_bit(file: i32, rank: i32, df: i32, dr: i32) -> (b: u64)
    requires
        -8 < file < 8,
        -0x1000_0000 <= rank <= 0x1000_0000,
        -2 <= df <= 2,
        -2 <= dr <= 2,
    ensures
        b == sq_bit(file + df, rank + dr),
{
    let new_file = file + df;
    let new_rank = rank + dr;
    if new_file >= 0 && new_file < 8 && new_rank >= 0 && new_rank < 8 {
        let target_sq = new_rank * 8 + new_file;
        1u64 << (target_sq as u64)
    } else {
        0
    }
}

/// The squares a knight on `sq` attacks; a number off the board is split into file and rank
/// as `i32` division does.
pub fn knight_attacks_from(sq: i32) -> (attacks: Bitboard)
    ensures
        attacks == knight_jumps(trunc_file(sq as int), trunc_rank(sq as int)),
        0 <= sq < 64 ==> attacks == knight_attacks_spec(sq as int),
{
    let rank = sq / 8;
    let file = sq % 8;
    assert(rank == trunc_rank(sq as int) && file == trunc_file(sq as int));
    let mut attacks: Bitboard = target_bit(file, rank, 1, 2);
    attacks = attacks | target_bit(file, rank, 2, 1);
    attacks = attacks | target_bit(file, rank, 2, -1);
    attacks = attacks | target_bit(file, rank, 1, -2);
    attacks = attacks | target_bit(file, rank, -1, -2);
    attacks = attacks | target_bit(file, rank, -2, -1);
    attacks = attacks | target_bit(file, rank, -2, 1);
    attacks = attacks | target_bit(file, rank, -1, 2);
    attacks
}

/// The squares a king on `sq` attacks; a number off the board is split into file and rank
/// as `i32` division does.
pub fn king_attacks_from(sq: i32) -> (attacks: Bitboard)
    ensures
        attacks == king_steps(trunc_file(sq as int), trunc_rank(sq as int)),
        0 <= sq < 64 ==> attacks == king_attacks_spec(sq as int),
{
    let rank = sq / 8;
    let file = sq % 8;
    assert(rank == trunc_rank(sq as int) && file == trunc_file(sq as int));
    let mut attacks: Bitboard = target_bit(file, rank, 1, 0);
    attacks = attacks | target_bit(file, rank, 1, 1);
    attacks = attacks | target_bit(file, rank, 0, 1);
    attacks = attacks | target_bit(file, rank, -1, 1);
    attacks = attacks | target_bit(file, rank, -1, 0);
    attacks = attacks | target_bit(file, rank, -1, -1);
    attacks = attacks | target_bit(file, rank, 0, -1);
    attacks = attacks | target_bit(file, rank, 1, -1);
    attacks
}

/// The squares a pawn of color slot `c` (0 white, 1 black) attacks from `sq`.
pub fn pawn_attacks_from(c: usize, sq: i32) -> (attacks: Bitboard)
    requires
        0 <= sq < 64,
        c < 2,
    ensures
        attacks == pawn_attacks_spec(c as int, sq as int),
{
    let rank = sq / 8;
    let file = sq % 8;
    if c == 0 {
        target_bit(file, rank, -1, 1) | target_bit(file, rank, 1, 1)
    } else {
        target_bit(file, rank, -1, -1) | target_bit(file, rank, 1, -1)
    }
}

/// The knight attacks of every square.
pub fn knight_attacks_table() -> (table: [Bitboard; 64])
    ensures
        forall|i: int| 0 <= i < 64 ==> table[i] == knight_attacks_spec(i),
{
    let mut table = [0u64; 64];
    let mut sq: usize = 0;
    while sq < 64
        invariant
            sq <= 64,
            forall|i: int| 0 <= i < sq ==> table[i] == knight_attacks_spec(i),
        decreases 64 - sq,
    {
        table[sq] = knight_attacks_from(sq as i32);
        sq += 1;
    }
    table
}

/// The king attacks of every square.
pub fn king_attacks_table() -> (table: [Bitboard; 64])
    ensures
        forall|i: int| 0 <= i < 64 ==> table[i] == king_attacks_spec(i),
{
    let mut table = [0u64; 64];
    let mut sq: usize = 0;
    while sq < 64
        invariant
            sq <= 64,
            forall|i: int| 0 <= i < sq ==> table[i] == king_attacks_spec(i),
        decreases 64 - sq,
    {
        table[sq] = king_attacks_from(sq as i32);
        sq += 1;
    }
    table
}

} // verus!
