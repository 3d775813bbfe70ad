use vstd::prelude::*;
use crate::board::bitboard::lsb_spec;
use crate::board::make_move::{lemma_unmake_undoes_make, make_ok, make_spec, unmake_ok, unmake_spec};
use crate::movegen::fits::{
    board_consistent, lemma_generated_moves_fit, lemma_make_keeps_consistent, step_ok,
};
use crate::board::position::{ci, color_index, Color, PieceType, Position};
use crate::movegen::attacks::attacked_spec;
use crate::board::make_move::move_fits;
use crate::movegen::movegen::{
    generate_pseudo_legal, pawn_ep_ok, pseudo_legal_spec, try_generate_pseudo_legal,
};
use crate::movegen::moves::{Move, MoveList, MAX_MOVES};

verus! {

/// `mover` still has a king on the board.
pub open spec fn has_king(pos: Position, mover: Color) -> bool {
    pos.pieces[ci(mover)][5] != 0
}

/// Whether the lowest square of `mover`'s king bitboard is attacked by the other side.
pub open spec fn king_in_check(pos: Position, mover: Color) -> bool {
    attacked_spec(pos, lsb_spec(pos.pieces[ci(mover)][5]), 1 - ci(mover), pos.occupied)
}

/// The node count of `perft` and the position it leaves behind: at depth 0 one node;
/// otherwise, for each pseudo-legal move in turn, the move is made, counted with the nodes
/// below it when it does not leave the mover's king attacked, and taken back.
pub open spec fn perft_spec(pos: Position, depth: nat) -> (nat, Position)
    decreases depth, 1nat, 0nat,
{
    if depth == 0 {
        (1, pos)
    } else {
        perft_loop(pos, pseudo_legal_spec(pos), 0, depth, pos.side_to_move)
    }
}

/// The part of `perft_spec` that handles `moves[i..]` from position `pos`.
pub open spec fn perft_loop(pos: Position, moves: Seq<Move>, i: int, depth: nat, mover: Color) -> (
    nat,
    Position,
)
    decreases depth, 0nat, moves.len() - i,
{
    if i < 0 || i >= moves.len() || depth == 0 {
        (0, pos)
    } else {
        let (p1, info) = make_spec(pos, moves[i]);
        let below = if !king_in_check(p1, mover) {
            perft_spec(p1, (depth - 1) as nat)
        } else {
            (0, p1)
        };
        let p3 = unmake_spec(below.1, moves[i], info);
        let rest = perft_loop(p3, moves, i + 1, depth, mover);
        (below.0 + rest.0, rest.1)
    }
}

/// `perft` runs without panicking: at each node the en passant square is usable, the moves fit
/// in a move list, every move can be made, the mover keeps a king and every move can be taken
/// back.
pub open spec fn perft_ok(pos: Position, depth: nat) -> bool
    decreases depth, 1nat, 0nat,
{
    depth == 0 || {
        &&& pawn_ep_ok(pos)
        &&& pseudo_legal_spec(pos).len() <= MAX_MOVES
        &&& perft_loop_ok(pos, pseudo_legal_spec(pos), 0, depth, pos.side_to_move)
    }
}

pub open spec fn perft_loop_ok(pos: Position, moves: Seq<Move>, i: int, depth: nat, mover: Color) -> bool
    decreases depth, 0nat, moves.len() - i,
{
    if i < 0 || i >= moves.len() || depth == 0 {
        true
    } else {
        let (p1, info) = make_spec(pos, moves[i]);
        let below = if !king_in_check(p1, mover) {
            perft_spec(p1, (depth - 1) as nat)
        } else {
            (0, p1)
        };
        &&& make_ok(pos, moves[i])
        &&& has_king(p1, mover)
        &&& (!king_in_check(p1, mover) ==> perft_ok(p1, (depth - 1) as nat))
        &&& unmake_ok(below.1)
        &&& perft_loop_ok(unmake_spec(below.1, moves[i], info), moves, i + 1, depth, mover)
    }
}

/// Whether the lowest square of `mover`'s king bitboard is attacked.
fn own_king_in_check(pos: &Position, mover: Color) -> (b: bool)
    requires
        has_king(*pos, mover),
    ensures
        b == king_in_check(*pos, mover),
{
    let king_bb = pos.pieces[color_index(mover)][5];
    proof {
        crate::board::bitboard::lemma_lsb(king_bb);
    }
    let king_sq = king_bb.trailing_zeros() as u8;
    pos.is_square_attacked(king_sq, mover.opposite(), pos.occupied)
}

/// Counts the leaf nodes of the legal move tree to `depth` plies, taking every move back.
pub fn perft(pos: &mut Position, depth: u32) -> (nodes: u64)
    requires
        perft_ok(*old(pos), depth as nat),
        perft_spec(*old(pos), depth as nat).0 <= u64::MAX,
    ensures
        nodes == perft_spec(*old(pos), depth as nat).0,
        *final(pos) == perft_spec(*old(pos), depth as nat).1,
    decreases depth,
{
    if depth == 0 {
        return 1;
    }
    let mut list = MoveList::new();
    generate_pseudo_legal(pos, &mut list);
    let ghost moves = pseudo_legal_spec(*old(pos));
    assert(list@ =~= moves);
    let mover = pos.side_to_move;
    let mut nodes = 0u64;
    let slice = list.as_slice();
    let n = slice.len();
    let mut i: usize = 0;
    while i < n
        invariant
            depth > 0,
            n == moves.len(),
            slice@ == moves,
            mover == old(pos).side_to_move,
            moves == pseudo_legal_spec(*old(pos)),
            i <= n,
            perft_loop(*old(pos), moves, 0, depth as nat, mover).0 == nodes + perft_loop(
                *pos,
                moves,
                i as int,
                depth as nat,
                mover,
            ).0,
            perft_loop(*old(pos), moves, 0, depth as nat, mover).1 == perft_loop(
                *pos,
                moves,
                i as int,
                depth as nat,
                mover,
            ).1,
            perft_loop(*old(pos), moves, 0, depth as nat, mover).0 <= u64::MAX,
            perft_loop_ok(*pos, moves, i as int, depth as nat, mover),
        decreases n - i,
    {
        let m = slice[i];
        let info = pos.make_move(m);
        if !own_king_in_check(pos, mover) {
            let sub = perft(pos, depth - 1);
            nodes = nodes + sub;
        }
        pos.unmake_move(m, info);
        i += 1;
    }
    nodes
}


/// The nodes below a move that `perft_divide` reports: one at depth 0, otherwise the perft
/// count of the position after the move.
pub open spec fn divide_count(p1: Position, depth: nat) -> (nat, Position) {
    if depth == 0 {
        (1, p1)
    } else {
        perft_spec(p1, (depth - 1) as nat)
    }
}

/// The entries of `perft_divide` for `moves[i..]` from position `pos`, and the position it
/// leaves: each move that does not leave the mover's king attacked, with the nodes below it.
pub open spec fn divide_loop(pos: Position, moves: Seq<Move>, i: int, depth: nat, mover: Color) -> (
    Seq<(Move, nat)>,
    Position,
)
    decreases moves.len() - i,
{
    if i < 0 || i >= moves.len() {
        (seq![], pos)
    } else {
        let (p1, info) = make_spec(pos, moves[i]);
        let legal = !king_in_check(p1, mover);
        let below = if legal {
            divide_count(p1, depth)
        } else {
            (0, p1)
        };
        let rest = divide_loop(unmake_spec(below.1, moves[i], info), moves, i + 1, depth, mover);
        (
            if legal {
                seq![(moves[i], below.0)] + rest.0
            } else {
                rest.0
            },
            rest.1,
        )
    }
}

/// `perft_divide` runs without panicking on `moves[i..]`.
pub open spec fn divide_loop_ok(pos: Position, moves: Seq<Move>, i: int, depth: nat, mover: Color) -> bool
    decreases moves.len() - i,
{
    if i < 0 || i >= moves.len() {
        true
    } else {
        let (p1, info) = make_spec(pos, moves[i]);
        let legal = !king_in_check(p1, mover);
        let below = if legal {
            divide_count(p1, depth)
        } else {
            (0, p1)
        };
        &&& make_ok(pos, moves[i])
        &&& has_king(p1, mover)
        &&& (legal && depth > 0 ==> perft_ok(p1, (depth - 1) as nat))
        &&& unmake_ok(below.1)
        &&& divide_loop_ok(unmake_spec(below.1, moves[i], info), moves, i + 1, depth, mover)
    }
}

/// The sum of the node counts of the entries.
pub open spec fn counts_total(s: Seq<(Move, nat)>) -> nat
    decreases s.len(),
{
    if s.len() == 0 {
        0
    } else {
        s[0].1 + counts_total(s.drop_first())
    }
}

/// The node counts below each legal move of the position to `depth` plies (one per move at
/// depth 0), in move generation order, and their total; every move is taken back.
pub fn perft_divide(pos: &mut Position, depth: u32) -> (r: (Vec<(Move, u64)>, u64))
    requires
        pawn_ep_ok(*old(pos)),
        pseudo_legal_spec(*old(pos)).len() <= MAX_MOVES,
        divide_loop_ok(
            *old(pos),
            pseudo_legal_spec(*old(pos)),
            0,
            depth as nat,
            old(pos).side_to_move,
        ),
        counts_total(
            divide_loop(
                *old(pos),
                pseudo_legal_spec(*old(pos)),
                0,
                depth as nat,
                old(pos).side_to_move,
            ).0,
        ) <= u64::MAX,
    ensures
        ({
            let d = divide_loop(
                *old(pos),
                pseudo_legal_spec(*old(pos)),
                0,
                depth as nat,
                old(pos).side_to_move,
            );
            &&& r.0@.len() == d.0.len()
            &&& forall|j: int|
                0 <= j < d.0.len() ==> (#[trigger] r.0@[j]).0 == d.0[j].0 && r.0@[j].1 == d.0[j].1
            &&& r.1 == counts_total(d.0)
            &&& *final(pos) == d.1
        }),
{
    let mut list = MoveList::new();
    generate_pseudo_legal(pos, &mut list);
    let ghost moves = pseudo_legal_spec(*old(pos));
    let ghost d0 = divide_loop(*old(pos), moves, 0, depth as nat, old(pos).side_to_move);
    assert(list@ =~= moves);
    let mover = pos.side_to_move;
    let mut entries: Vec<(Move, u64)> = Vec::new();
    let ghost mut done: Seq<(Move, nat)> = seq![];
    let mut total = 0u64;
    let slice = list.as_slice();
    let n = slice.len();
    let mut i: usize = 0;
    while i < n
        invariant
            n == moves.len(),
            slice@ == moves,
            mover == old(pos).side_to_move,
            moves == pseudo_legal_spec(*old(pos)),
            d0 == divide_loop(*old(pos), moves, 0, depth as nat, mover),
            i <= n,
            d0.0 == done + divide_loop(*pos, moves, i as int, depth as nat, mover).0,
            d0.1 == divide_loop(*pos, moves, i as int, depth as nat, mover).1,
            counts_total(d0.0) == total + counts_total(
                divide_loop(*pos, moves, i as int, depth as nat, mover).0,
            ),
            counts_total(d0.0) <= u64::MAX,
            entries@.len() == done.len(),
            forall|j: int|
                0 <= j < done.len() ==> (#[trigger] entries@[j]).0 == done[j].0 && entries@[j].1
                    == done[j].1,
            divide_loop_ok(*pos, moves, i as int, depth as nat, mover),
        decreases n - i,
    {
        let m = slice[i];
        let ghost before = *pos;
        let info = pos.make_move(m);
        if !own_king_in_check(pos, mover) {
            let ghost rest = divide_loop(
                unmake_spec(divide_count(*pos, depth as nat).1, m, info),
                moves,
                i + 1,
                depth as nat,
                mover,
            ).0;
            let ghost e = (m, divide_count(*pos, depth as nat).0);
            assert((seq![e] + rest).drop_first() =~= rest);
            let nodes = if depth == 0 {
                1
            } else {
                perft(pos, depth - 1)
            };
            entries.push((m, nodes));
            total = total + nodes;
            proof {
                assert(d0.0 == done.push(e) + rest) by {
                    assert(done + (seq![e] + rest) =~= done.push(e) + rest);
                }
                done = done.push(e);
            }
        }
        pos.unmake_move(m, info);
        i += 1;
    }
    proof {
        assert(done =~= d0.0);
    }
    (entries, total)
}


/// Whether `make_move` can make `m` on `pos` (`make_ok`).
fn can_make(pos: &Position, m: Move) -> (b: bool)
    ensures
        b == make_ok(*pos, m),
{
    match pos.piece_at(m.from()) {
        None => false,
        Some((_, pt)) => {
            let clock_ok = match pt {
                PieceType::Pawn => true,
                _ => pos.piece_at(m.to()).is_some() || pos.halfmove_clock < 0xFFFF,
            };
            clock_ok && (pos.side_to_move == Color::White || pos.fullmove_number < 0xFFFF)
        },
    }
}

/// Whether the pawn generator can read the en passant square of `pos` (`pawn_ep_ok`).
fn ep_usable(pos: &Position) -> (b: bool)
    ensures
        b == pawn_ep_ok(*pos),
{
    let us = color_index(pos.side_to_move);
    match pos.en_passant {
        Some(e) => pos.pieces[us][0] == 0 || e < 64,
        None => true,
    }
}

/// `perft` with every step that could panic tested first: `None`, with the position left
/// somewhere in the tree, where `perft` would panic or its count would not fit in a `u64`.
fn try_perft(pos: &mut Position, depth: u32) -> (r: Option<u64>)
    ensures
        r is Some <==> perft_ok(*old(pos), depth as nat) && perft_spec(*old(pos), depth as nat).0
            <= u64::MAX,
        r matches Some(n) ==> n == perft_spec(*old(pos), depth as nat).0 && *final(pos)
            == perft_spec(*old(pos), depth as nat).1,
    decreases depth,
{
    if depth == 0 {
        return Some(1);
    }
    if !ep_usable(pos) {
        return None;
    }
    let mut list = MoveList::new();
    if !try_generate_pseudo_legal(pos, &mut list) {
        return None;
    }
    let ghost moves = pseudo_legal_spec(*old(pos));
    assert(list@ =~= moves);
    let mover = pos.side_to_move;
    let mut nodes = 0u64;
    let slice = list.as_slice();
    let n = slice.len();
    let mut i: usize = 0;
    while i < n
        invariant
            depth > 0,
            n == moves.len(),
            slice@ == moves,
            mover == old(pos).side_to_move,
            moves == pseudo_legal_spec(*old(pos)),
            pawn_ep_ok(*old(pos)),
            moves.len() <= MAX_MOVES,
            i <= n,
            perft_loop(*old(pos), moves, 0, depth as nat, mover).0 == nodes + perft_loop(
                *pos,
                moves,
                i as int,
                depth as nat,
                mover,
            ).0,
            perft_loop(*old(pos), moves, 0, depth as nat, mover).1 == perft_loop(
                *pos,
                moves,
                i as int,
                depth as nat,
                mover,
            ).1,
            perft_loop_ok(*old(pos), moves, 0, depth as nat, mover) == perft_loop_ok(
                *pos,
                moves,
                i as int,
                depth as nat,
                mover,
            ),
        decreases n - i,
    {
        let m = slice[i];
        if !can_make(pos, m) {
            return None;
        }
        let info = pos.make_move(m);
        if pos.pieces[color_index(mover)][5] == 0 {
            return None;
        }
        if !own_king_in_check(pos, mover) {
            match try_perft(pos, depth - 1) {
                None => {
                    return None;
                },
                Some(sub) => {
                    match nodes.checked_add(sub) {
                        None => {
                            return None;
                        },
                        Some(t) => {
                            nodes = t;
                        },
                    }
                },
            }
        }
        if pos.side_to_move == Color::White && pos.fullmove_number == 0 {
            return None;
        }
        pos.unmake_move(m, info);
        i += 1;
    }
    Some(nodes)
}

/// The perft count of `pos` to `depth` plies, as `perft` gives it, where `perft` can compute
/// it: `None` exactly where `perft` would panic on the way (`perft_ok` fails) or its count
/// would not fit in a `u64`. `pos` itself is not touched.
pub fn perft_checked(pos: &Position, depth: u32) -> (r: Option<u64>)
    ensures
        r == (if perft_ok(*pos, depth as nat) && perft_spec(*pos, depth as nat).0 <= u64::MAX {
            Some(perft_spec(*pos, depth as nat).0 as u64)
        } else {
            None
        }),
{
    let mut work = *pos;
    try_perft(&mut work, depth)
}

/// `perft_divide` to `depth` plies walks the same tree as perft to `max(depth, 1)` plies:
/// it panics on the same positions, leaves the same position behind, and its entries add up
/// to that perft count.
proof fn lemma_divide_is_perft(pos: Position, moves: Seq<Move>, i: int, depth: nat, mover: Color)
    ensures
        ({
            let d1: nat = if depth == 0 {
                1
            } else {
                depth
            };
            &&& divide_loop_ok(pos, moves, i, depth, mover) == perft_loop_ok(pos, moves, i, d1, mover)
            &&& divide_loop(pos, moves, i, depth, mover).1 == perft_loop(pos, moves, i, d1, mover).1
            &&& counts_total(divide_loop(pos, moves, i, depth, mover).0) == perft_loop(
                pos,
                moves,
                i,
                d1,
                mover,
            ).0
        }),
    decreases moves.len() - i,
{
    if 0 <= i < moves.len() {
        let (p1, info) = make_spec(pos, moves[i]);
        let legal = !king_in_check(p1, mover);
        let below = if legal {
            divide_count(p1, depth)
        } else {
            (0, p1)
        };
        let d1: nat = if depth == 0 {
            1
        } else {
            depth
        };
        let pbelow = if legal {
            perft_spec(p1, (d1 - 1) as nat)
        } else {
            (0, p1)
        };
        assert(below == pbelow);
        assert(legal && depth > 0 ==> perft_ok(p1, (depth - 1) as nat) == perft_ok(
            p1,
            (d1 - 1) as nat,
        ));
        assert(perft_ok(p1, 0));
        let p3 = unmake_spec(below.1, moves[i], info);
        lemma_divide_is_perft(p3, moves, i + 1, depth, mover);
        let rest = divide_loop(p3, moves, i + 1, depth, mover).0;
        if legal {
            assert((seq![(moves[i], below.0)] + rest).drop_first() =~= rest);
        }
        assert(divide_loop_ok(pos, moves, i, depth, mover) == perft_loop_ok(pos, moves, i, d1, mover));
        assert(divide_loop(pos, moves, i, depth, mover).1 == perft_loop(pos, moves, i, d1, mover).1);
    }
}

/// Whether `perft_divide` can run on `pos` to `depth` plies: it would not panic on the way
/// and its total fits in a `u64`, which is what its precondition asks.
pub fn divide_ok(pos: &Position, depth: u32) -> (b: bool)
    ensures
        b == ({
            &&& pawn_ep_ok(*pos)
            &&& pseudo_legal_spec(*pos).len() <= MAX_MOVES
            &&& divide_loop_ok(*pos, pseudo_legal_spec(*pos), 0, depth as nat, pos.side_to_move)
            &&& counts_total(
                divide_loop(*pos, pseudo_legal_spec(*pos), 0, depth as nat, pos.side_to_move).0,
            ) <= u64::MAX
        }),
{
    let d1: u32 = if depth == 0 {
        1
    } else {
        depth
    };
    proof {
        lemma_divide_is_perft(*pos, pseudo_legal_spec(*pos), 0, depth as nat, pos.side_to_move);
    }
    perft_checked(pos, d1).is_some()
}

/// The move counters leave room for `depth` more plies: neither overflows on the way.
pub open spec fn clocks_ok(pos: Position, depth: nat) -> bool {
    pos.halfmove_clock + depth <= 0xFFFF && pos.fullmove_number + depth <= 0xFFFF
}

/// Perft takes back every move it plays: from a consistent position it comes back to exactly
/// that position, whatever the depth.
pub proof fn lemma_perft_restores(pos: Position, depth: nat)
    requires
        board_consistent(pos),
        clocks_ok(pos, depth),
    ensures
        perft_spec(pos, depth).1 == pos,
    decreases depth, 1nat, 0nat,
{
    if depth > 0 {
        lemma_generated_moves_fit(pos);
        lemma_perft_loop_restores(pos, pseudo_legal_spec(pos), 0, depth, pos.side_to_move);
    }
}

/// The moves `moves[i..]` of a perft node are each played and taken back, leaving the
/// position as it was.
proof fn lemma_perft_loop_restores(pos: Position, moves: Seq<Move>, i: int, depth: nat, mover: Color)
    requires
        board_consistent(pos),
        clocks_ok(pos, depth),
        depth > 0,
        forall|j: int|
            0 <= j < moves.len() ==> move_fits(pos, #[trigger] moves[j]) && step_ok(pos, moves[j]),
    ensures
        perft_loop(pos, moves, i, depth, mover).1 == pos,
    decreases depth, 0nat, moves.len() - i,
{
    if 0 <= i < moves.len() {
        let m = moves[i];
        let p1 = make_spec(pos, m).0;
        assert(move_fits(pos, m) && step_ok(pos, m));
        assert(make_ok(pos, m));
        lemma_make_keeps_consistent(pos, m);
        assert(clocks_ok(p1, (depth - 1) as nat));
        if !king_in_check(p1, mover) {
            lemma_perft_restores(p1, (depth - 1) as nat);
        }
        lemma_unmake_undoes_make(pos, m);
        lemma_perft_loop_restores(pos, moves, i + 1, depth, mover);
    }
}

} // verus!
