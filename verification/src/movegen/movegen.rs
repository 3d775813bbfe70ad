use vstd::prelude::*;
use crate::board::bitboard::{drop_lsb, lemma_drop_lsb_smaller, lsb_spec, pop_lsb, squares};
use crate::board::position::{
    ci, color_index, Color, Position, BK_CASTLE, BQ_CASTLE, WK_CASTLE, WQ_CASTLE,
};
use crate::movegen::attacks::attacked_spec;
use crate::movegen::magic::{
    bishop_attacks_slow, bishop_attacks_spec, rook_attacks_slow, rook_attacks_spec,
};
use crate::movegen::moves::{
    castling_move, en_passant_move, normal_move, promotion_move, Move, MoveList, PromoPiece,
    MAX_MOVES,
};
use crate::movegen::tables::{
    king_attacks_from, king_attacks_spec, knight_attacks_from, knight_attacks_spec,
    pawn_attacks_from, pawn_attacks_spec,
};

verus! {

/// The color slot of the side to move.
pub open spec fn us(pos: Position) -> int {
    ci(pos.side_to_move)
}

/// Plain moves from `from` to each square of `targets`, lowest target first.
pub open spec fn target_moves(from: u8, targets: u64) -> Seq<Move> {
    squares(targets).map_values(|to: u8| normal_move(from, to))
}

/// For each square of `pieces`, lowest first, the plain moves to the squares of `tf(from)`.
pub open spec fn piece_moves(pieces: u64, tf: spec_fn(u8) -> u64) -> Seq<Move>
    decreases pieces,
{
    if pieces == 0 {
        Seq::empty()
    } else {
        proof {
            lemma_drop_lsb_smaller(pieces);
        }
        target_moves(lsb_spec(pieces) as u8, tf(lsb_spec(pieces) as u8)) + piece_moves(
            drop_lsb(pieces),
            tf,
        )
    }
}

/// Knight targets from a square: attacked squares not held by `own`.
pub open spec fn knight_targets(own: u64) -> spec_fn(u8) -> u64 {
    |from: u8| knight_attacks_spec(from as int) & !own
}

pub open spec fn bishop_targets(occ: u64, own: u64) -> spec_fn(u8) -> u64 {
    |from: u8| bishop_attacks_spec(from as int, occ) & !own
}

pub open spec fn rook_targets(occ: u64, own: u64) -> spec_fn(u8) -> u64 {
    |from: u8| rook_attacks_spec(from as int, occ) & !own
}

pub open spec fn queen_targets(occ: u64, own: u64) -> spec_fn(u8) -> u64 {
    |from: u8| (bishop_attacks_spec(from as int, occ) | rook_attacks_spec(from as int, occ)) & !own
}

/// The target function of piece slot `kind`: 1 knight, 2 bishop, 3 rook, 4 queen.
pub open spec fn targets_fn(kind: int, occ: u64, own: u64) -> spec_fn(u8) -> u64 {
    if kind == 1 {
        knight_targets(own)
    } else if kind == 2 {
        bishop_targets(occ, own)
    } else if kind == 3 {
        rook_targets(occ, own)
    } else {
        queen_targets(occ, own)
    }
}

/// The knight moves `generate_knight_moves` appends.
#[verifier::opaque]
pub open spec fn knight_moves_spec(pos: Position) -> Seq<Move> {
    piece_moves(pos.pieces[us(pos)][1], knight_targets(pos.occupied_by[us(pos)]))
}

#[verifier::opaque]
pub open spec fn bishop_moves_spec(pos: Position) -> Seq<Move> {
    piece_moves(pos.pieces[us(pos)][2], bishop_targets(pos.occupied, pos.occupied_by[us(pos)]))
}

#[verifier::opaque]
pub open spec fn rook_moves_spec(pos: Position) -> Seq<Move> {
    piece_moves(pos.pieces[us(pos)][3], rook_targets(pos.occupied, pos.occupied_by[us(pos)]))
}

#[verifier::opaque]
pub open spec fn queen_moves_spec(pos: Position) -> Seq<Move> {
    piece_moves(pos.pieces[us(pos)][4], queen_targets(pos.occupied, pos.occupied_by[us(pos)]))
}

/// The plain moves from `from` to those squares of `targets` on which `keep` holds, lowest first.
pub open spec fn kept_moves(from: u8, targets: u64, keep: spec_fn(u8) -> bool) -> Seq<Move>
    decreases targets,
{
    if targets == 0 {
        Seq::empty()
    } else {
        proof {
            lemma_drop_lsb_smaller(targets);
        }
        let to = lsb_spec(targets) as u8;
        (if keep(to) {
            seq![normal_move(from, to)]
        } else {
            Seq::empty()
        }) + kept_moves(from, drop_lsb(targets), keep)
    }
}

/// The king moves `generate_king_moves` appends: from the lowest square of the king bitboard
/// to each neighbouring square not held by the mover and not attacked by the other side once
/// the mover's kings are taken off the board.
#[verifier::opaque]
pub open spec fn king_moves_spec(pos: Position) -> Seq<Move> {
    let u = us(pos);
    let king_bb = pos.pieces[u][5];
    if king_bb == 0 {
        Seq::empty()
    } else {
        let from = lsb_spec(king_bb) as u8;
        let occ_no_king = pos.occupied ^ king_bb;
        kept_moves(
            from,
            king_attacks_spec(from as int) & !pos.occupied_by[u],
            king_keep(pos, 1 - u, occ_no_king),
        )
    }
}

/// A king target is kept when color slot `them` does not attack it with `occ` as blockers.
pub open spec fn king_keep(pos: Position, them: int, occ: u64) -> spec_fn(u8) -> bool {
    |to: u8| !attacked_spec(pos, to as int, them, occ)
}

/// The four promotions of a pawn move, queen first.
pub open spec fn promotions(from: u8, to: u8) -> Seq<Move> {
    seq![
        promotion_move(from, to, PromoPiece::Queen),
        promotion_move(from, to, PromoPiece::Rook),
        promotion_move(from, to, PromoPiece::Bishop),
        promotion_move(from, to, PromoPiece::Knight),
    ]
}

/// A pawn move to `to`: its four promotions on the last rank, else the plain move.
pub open spec fn pawn_step(from: u8, to: u8, promo_rank: int) -> Seq<Move> {
    if to / 8 == promo_rank {
        promotions(from, to)
    } else {
        seq![normal_move(from, to)]
    }
}

/// Pawn captures from `from` to each square of `targets`, lowest first.
pub open spec fn pawn_captures(from: u8, targets: u64, promo_rank: int) -> Seq<Move>
    decreases targets,
{
    if targets == 0 {
        Seq::empty()
    } else {
        proof {
            lemma_drop_lsb_smaller(targets);
        }
        pawn_step(from, lsb_spec(targets) as u8, promo_rank) + pawn_captures(
            from,
            drop_lsb(targets),
            promo_rank,
        )
    }
}

/// Pawn slot facts of the side to move: push offset, start rank and promotion rank.
pub open spec fn push_offset(u: int) -> int {
    if u == 0 {
        8
    } else {
        -8
    }
}

pub open spec fn start_rank(u: int) -> int {
    if u == 0 {
        1
    } else {
        6
    }
}

pub open spec fn promo_rank(u: int) -> int {
    if u == 0 {
        7
    } else {
        0
    }
}

/// The pushes of the pawn on `from`: one square forward onto an empty square (four
/// promotions on the last rank), and from the start rank two squares when both are empty.
pub open spec fn pawn_pushes(pos: Position, from: u8) -> Seq<Move> {
    let u = us(pos);
    let empty = !pos.occupied;
    let to_push = from + push_offset(u);
    let to_double = from + 2 * push_offset(u);
    if 0 <= to_push < 64 && crate::board::bitboard::bit(empty, to_push) {
        if to_push / 8 == promo_rank(u) {
            promotions(from, to_push as u8)
        } else {
            seq![normal_move(from, to_push as u8)] + if from / 8 == start_rank(u) && 0 <= to_double
                < 64 && crate::board::bitboard::bit(empty, to_double) {
                seq![normal_move(from, to_double as u8)]
            } else {
                Seq::empty()
            }
        }
    } else {
        Seq::empty()
    }
}

/// The en passant capture of the pawn on `from`, when it attacks the en passant square.
pub open spec fn pawn_ep(pos: Position, from: u8) -> Seq<Move> {
    match pos.en_passant {
        Some(e) => if crate::board::bitboard::bit(pawn_attacks_spec(us(pos), from as int), e as int) {
            seq![en_passant_move(from, e)]
        } else {
            Seq::empty()
        },
        None => Seq::empty(),
    }
}

/// The moves of the pawn on `from`, in the order `generate_pawn_moves` appends them: the
/// pushes, the captures, then the en passant capture.
pub open spec fn pawn_moves_from(pos: Position, from: u8) -> Seq<Move> {
    let u = us(pos);
    pawn_pushes(pos, from) + pawn_captures(
        from,
        pawn_attacks_spec(u, from as int) & pos.occupied_by[1 - u],
        promo_rank(u),
    ) + pawn_ep(pos, from)
}

/// The moves of the pawns in `pawns`, lowest square first.
pub open spec fn pawn_moves_of(pos: Position, pawns: u64) -> Seq<Move>
    decreases pawns,
{
    if pawns == 0 {
        Seq::empty()
    } else {
        proof {
            lemma_drop_lsb_smaller(pawns);
        }
        pawn_moves_from(pos, lsb_spec(pawns) as u8) + pawn_moves_of(pos, drop_lsb(pawns))
    }
}

#[verifier::opaque]
pub open spec fn pawn_moves_spec(pos: Position) -> Seq<Move> {
    pawn_moves_of(pos, pos.pieces[us(pos)][0])
}

/// `generate_pawn_moves` reads the en passant square only when it is below 64.
pub open spec fn pawn_ep_ok(pos: Position) -> bool {
    pos.pieces[us(pos)][0] != 0 && pos.en_passant is Some ==> pos.en_passant->0 < 64
}

/// Whether a square is empty in `occ` and not attacked by color slot `them`.
pub open spec fn free_safe(pos: Position, occ: u64, sq: int, them: int) -> bool {
    !crate::board::bitboard::bit(occ, sq) && !attacked_spec(pos, sq, them, occ)
}

/// The castling moves `generate_castling_moves` appends.
#[verifier::opaque]
pub open spec fn castling_moves_spec(pos: Position) -> Seq<Move> {
    let u = us(pos);
    let them = 1 - u;
    let occ = pos.occupied;
    let king_sq: int = if u == 0 {
        4
    } else {
        60
    };
    if attacked_spec(pos, king_sq, them, occ) {
        Seq::empty()
    } else if u == 0 {
        (if pos.castling_rights & WK_CASTLE != 0 && free_safe(pos, occ, 5, them) && free_safe(
            pos,
            occ,
            6,
            them,
        ) {
            seq![castling_move(4, 6)]
        } else {
            Seq::empty()
        }) + (if pos.castling_rights & WQ_CASTLE != 0 && !crate::board::bitboard::bit(occ, 1)
            && free_safe(pos, occ, 2, them) && free_safe(pos, occ, 3, them) {
            seq![castling_move(4, 2)]
        } else {
            Seq::empty()
        })
    } else {
        (if pos.castling_rights & BK_CASTLE != 0 && free_safe(pos, occ, 61, them) && free_safe(
            pos,
            occ,
            62,
            them,
        ) {
            seq![castling_move(60, 62)]
        } else {
            Seq::empty()
        }) + (if pos.castling_rights & BQ_CASTLE != 0 && !crate::board::bitboard::bit(occ, 57)
            && free_safe(pos, occ, 58, them) && free_safe(pos, occ, 59, them) {
            seq![castling_move(60, 58)]
        } else {
            Seq::empty()
        })
    }
}

/// All pseudo-legal moves, in the order `generate_pseudo_legal` appends them.
pub open spec fn pseudo_legal_spec(pos: Position) -> Seq<Move> {
    knight_moves_spec(pos) + king_moves_spec(pos) + bishop_moves_spec(pos) + rook_moves_spec(pos)
        + queen_moves_spec(pos) + pawn_moves_spec(pos) + castling_moves_spec(pos)
}

/// Appends a plain move from `from` to each square of `targets`, lowest first; false, with
/// the list partly filled, when they do not all fit.
fn try_push_targets(list: &mut MoveList, from: u8, targets: u64) -> (ok: bool)
    ensures
        ok ==> final(list)@ == old(list)@ + target_moves(from, targets),
        !ok ==> old(list)@.len() + target_moves(from, targets).len() > MAX_MOVES,
{
    let mut rest = targets;
    while rest != 0
        invariant
            list@ + target_moves(from, rest) == old(list)@ + target_moves(from, targets),
        decreases rest,
    {
        let ghost before = rest;
        let to = pop_lsb(&mut rest);
        proof {
            lemma_drop_lsb_smaller(before);
            assert(target_moves(from, before) =~= seq![normal_move(from, to)] + target_moves(
                from,
                rest,
            ));
            assert(list@.push(normal_move(from, to)) + target_moves(from, rest) =~= list@
                + target_moves(from, before));
        }
        if list.len() >= MAX_MOVES {
            assert((list@ + target_moves(from, before)).len() == list@.len() + target_moves(
                from,
                before,
            ).len());
            return false;
        }
        list.push(Move::new(from, to));
    }
    assert(target_moves(from, 0) =~= Seq::<Move>::empty());
    assert(list@ + target_moves(from, 0) =~= list@);
    true
}

/// Appends the moves of the pieces in `pieces` of piece slot `kind` (1 knight, 2 bishop,
/// 3 rook, 4 queen); false, with the list partly filled, when they do not all fit.
fn try_push_piece_moves(list: &mut MoveList, pieces: u64, kind: usize, occ: u64, own: u64) -> (ok:
    bool)
    requires
        1 <= kind <= 4,
    ensures
        ok ==> final(list)@ == old(list)@ + piece_moves(pieces, targets_fn(kind as int, occ, own)),
        !ok ==> old(list)@.len() + piece_moves(pieces, targets_fn(kind as int, occ, own)).len()
            > MAX_MOVES,
{
    let ghost tf = targets_fn(kind as int, occ, own);
    let mut rest = pieces;
    while rest != 0
        invariant
            1 <= kind <= 4,
            tf == targets_fn(kind as int, occ, own),
            list@ + piece_moves(rest, tf) == old(list)@ + piece_moves(pieces, tf),
        decreases rest,
    {
        let ghost before = rest;
        let ghost mid = list@;
        let from = pop_lsb(&mut rest);
        let f = from as i32;
        let targets = if kind == 1 {
            knight_attacks_from(f) & !own
        } else if kind == 2 {
            bishop_attacks_slow(f, occ) & !own
        } else if kind == 3 {
            rook_attacks_slow(f, occ) & !own
        } else {
            (bishop_attacks_slow(f, occ) | rook_attacks_slow(f, occ)) & !own
        };
        proof {
            lemma_drop_lsb_smaller(before);
            assert(targets == tf(from));
            assert(piece_moves(before, tf) == target_moves(from, targets) + piece_moves(rest, tf));
        }
        if !try_push_targets(list, from, targets) {
            assert((mid + piece_moves(before, tf)).len() == mid.len() + target_moves(
                from,
                targets,
            ).len() + piece_moves(rest, tf).len());
            return false;
        }
        proof {
            assert(list@ + piece_moves(rest, tf) =~= old(list)@ + piece_moves(pieces, tf));
        }
    }
    assert(list@ + piece_moves(0, tf) =~= list@);
    true
}

pub fn generate_knight_moves(pos: &Position, list: &mut MoveList)
    requires
        old(list)@.len() + knight_moves_spec(*pos).len() <= MAX_MOVES,
    ensures
        final(list)@ == old(list)@ + knight_moves_spec(*pos),
{
    reveal(knight_moves_spec);
    let us = color_index(pos.side_to_move);
    let ok = try_push_piece_moves(list, pos.pieces[us][1], 1, pos.occupied, pos.occupied_by[us]);
    assert(ok);
}

pub fn generate_bishop_moves(pos: &Position, list: &mut MoveList)
    requires
        old(list)@.len() + bishop_moves_spec(*pos).len() <= MAX_MOVES,
    ensures
        final(list)@ == old(list)@ + bishop_moves_spec(*pos),
{
    reveal(bishop_moves_spec);
    let us = color_index(pos.side_to_move);
    let ok = try_push_piece_moves(list, pos.pieces[us][2], 2, pos.occupied, pos.occupied_by[us]);
    assert(ok);
}

pub fn generate_rook_moves(pos: &Position, list: &mut MoveList)
    requires
        old(list)@.len() + rook_moves_spec(*pos).len() <= MAX_MOVES,
    ensures
        final(list)@ == old(list)@ + rook_moves_spec(*pos),
{
    reveal(rook_moves_spec);
    let us = color_index(pos.side_to_move);
    let ok = try_push_piece_moves(list, pos.pieces[us][3], 3, pos.occupied, pos.occupied_by[us]);
    assert(ok);
}

pub fn generate_queen_moves(pos: &Position, list: &mut MoveList)
    requires
        old(list)@.len() + queen_moves_spec(*pos).len() <= MAX_MOVES,
    ensures
        final(list)@ == old(list)@ + queen_moves_spec(*pos),
{
    reveal(queen_moves_spec);
    let us = color_index(pos.side_to_move);
    let ok = try_push_piece_moves(list, pos.pieces[us][4], 4, pos.occupied, pos.occupied_by[us]);
    assert(ok);
}

/// Appends the king moves; false, with the list partly filled, when they do not all fit.
fn try_king_moves(pos: &Position, list: &mut MoveList) -> (ok: bool)
    ensures
        ok ==> final(list)@ == old(list)@ + king_moves_spec(*pos),
        !ok ==> old(list)@.len() + king_moves_spec(*pos).len() > MAX_MOVES,
{
    reveal(king_moves_spec);
    let us = color_index(pos.side_to_move);
    let king_bb = pos.pieces[us][5];
    let own_pieces = pos.occupied_by[us];
    if king_bb == 0 {
        assert(list@ =~= old(list)@ + king_moves_spec(*pos));
        return true;
    }
    let from = king_bb.trailing_zeros() as u8;
    proof {
        crate::board::bitboard::lemma_lsb(king_bb);
    }
    let them = pos.side_to_move.opposite();
    let occ_no_king = pos.occupied ^ king_bb;
    let ghost keep = king_keep(*pos, 1 - us, occ_no_king);
    let ghost all = king_attacks_spec(from as int) & !own_pieces;
    let mut targets = king_attacks_from(from as i32) & !own_pieces;
    assert(king_moves_spec(*pos) == kept_moves(from, all, keep));
    while targets != 0
        invariant
            from < 64,
            ci(them) == 1 - us,
            keep == king_keep(*pos, 1 - us, occ_no_king),
            king_moves_spec(*pos) == kept_moves(from, all, keep),
            list@ + kept_moves(from, targets, keep) == old(list)@ + kept_moves(from, all, keep),
        decreases targets,
    {
        let ghost before = targets;
        let to = pop_lsb(&mut targets);
        proof {
            lemma_drop_lsb_smaller(before);
            assert(kept_moves(from, before, keep) == (if keep(to) {
                seq![normal_move(from, to)]
            } else {
                Seq::empty()
            }) + kept_moves(from, targets, keep));
        }
        if !pos.is_square_attacked(to, them, occ_no_king) {
            if list.len() >= MAX_MOVES {
                assert(keep(to));
                assert(kept_moves(from, before, keep).len() >= 1);
                assert((list@ + kept_moves(from, before, keep)).len() == list@.len()
                    + kept_moves(from, before, keep).len());
                return false;
            }
            list.push(Move::new(from, to));
            assert(list@ + kept_moves(from, targets, keep) =~= old(list)@ + kept_moves(
                from,
                all,
                keep,
            ));
        } else {
            assert(list@ + kept_moves(from, targets, keep) =~= old(list)@ + kept_moves(
                from,
                all,
                keep,
            ));
        }
    }
    assert(list@ =~= old(list)@ + king_moves_spec(*pos));
    true
}

pub fn generate_king_moves(pos: &Position, list: &mut MoveList)
    requires
        old(list)@.len() + king_moves_spec(*pos).len() <= MAX_MOVES,
    ensures
        final(list)@ == old(list)@ + king_moves_spec(*pos),
{
    let ok = try_king_moves(pos, list);
    assert(ok);
}

fn try_promotions(list: &mut MoveList, from: u8, to: u8) -> (ok: bool)
    ensures
        ok ==> final(list)@ == old(list)@ + promotions(from, to),
        !ok ==> final(list)@ == old(list)@ && old(list)@.len() + 4 > MAX_MOVES,
{
    if list.len() + 4 > MAX_MOVES {
        return false;
    }
    list.push(Move::new_promotion(from, to, PromoPiece::Queen));
    list.push(Move::new_promotion(from, to, PromoPiece::Rook));
    list.push(Move::new_promotion(from, to, PromoPiece::Bishop));
    list.push(Move::new_promotion(from, to, PromoPiece::Knight));
    assert(list@ =~= old(list)@ + promotions(from, to));
    true
}

/// Appends the moves of the pawn on `from` for the side to move; false, with the list partly
/// filled, when they do not all fit.
fn try_pawn_moves_from(pos: &Position, list: &mut MoveList, from: u8) -> (ok: bool)
    requires
        from < 64,
        pawn_ep_ok(*pos),
        pos.pieces[us(*pos)][0] != 0,
    ensures
        ok ==> final(list)@ == old(list)@ + pawn_moves_from(*pos, from),
        !ok ==> old(list)@.len() + pawn_moves_from(*pos, from).len() > MAX_MOVES,
{
    let us = color_index(pos.side_to_move);
    let enemies = pos.occupied_by[1 - us];
    let empty = !pos.occupied;
    let push_off: i32 = if us == 0 {
        8
    } else {
        -8
    };
    let start: u8 = if us == 0 {
        1
    } else {
        6
    };
    let promo: u8 = if us == 0 {
        7
    } else {
        0
    };
    let ghost pushes = pawn_pushes(*pos, from);
    let ghost attacks_s = pawn_attacks_spec(us as int, from as int);
    let ghost captures = pawn_captures(from, attacks_s & enemies, promo as int);
    let ghost ep = pawn_ep(*pos, from);
    assert(pawn_moves_from(*pos, from) == pushes + captures + ep);
    // pushes
    let from_rank = from / 8;
    let to_push = from as i32 + push_off;
    if to_push >= 0 && to_push < 64 && (empty >> (to_push as u64)) & 1 != 0 {
        assert((empty >> (to_push as u64)) & 1 != 0 ==> (empty >> (to_push as u64)) & 1 == 1)
            by (bit_vector);
        let tp = to_push as u8;
        if tp / 8 == promo {
            if !try_promotions(list, from, tp) {
                return false;
            }
        } else {
            if list.len() >= MAX_MOVES {
                return false;
            }
            list.push(Move::new(from, tp));
            if from_rank == start {
                let to_double = from as i32 + push_off * 2;
                if to_double >= 0 && to_double < 64 && (empty >> (to_double as u64)) & 1 != 0 {
                    assert((empty >> (to_double as u64)) & 1 != 0 ==> (empty >> (to_double as u64))
                        & 1 == 1) by (bit_vector);
                    if list.len() >= MAX_MOVES {
                        return false;
                    }
                    list.push(Move::new(from, to_double as u8));
                } else {
                    assert(!crate::board::bitboard::bit(empty, to_double as int)) by {
                        if 0 <= to_double < 64 {
                            assert((empty >> (to_double as u64)) & 1 == 0);
                        }
                    }
                }
            }
        }
    } else {
        assert(!(0 <= to_push < 64 && crate::board::bitboard::bit(empty, to_push as int))) by {
            if 0 <= to_push < 64 {
                assert((empty >> (to_push as u64)) & 1 == 0);
            }
        }
    }
    assert(list@ =~= old(list)@ + pushes);
    // captures
    let attacks = pawn_attacks_from(us, from as i32);
    let ghost all = attacks & enemies;
    let mut caps = attacks & enemies;
    while caps != 0
        invariant
            list@ + pawn_captures(from, caps, promo as int) == old(list)@ + pushes + captures,
            captures == pawn_captures(from, all, promo as int),
            pawn_moves_from(*pos, from) == pushes + captures + ep,
        decreases caps,
    {
        let ghost before = caps;
        let to = pop_lsb(&mut caps);
        proof {
            lemma_drop_lsb_smaller(before);
            assert(pawn_captures(from, before, promo as int) == pawn_step(from, to, promo as int)
                + pawn_captures(from, caps, promo as int));
        }
        let ghost mid = list@;
        proof {
            assert((mid + pawn_captures(from, before, promo as int)).len() == mid.len()
                + pawn_step(from, to, promo as int).len() + pawn_captures(
                from,
                caps,
                promo as int,
            ).len());
            assert((old(list)@ + pushes + captures).len() + ep.len() == old(list)@.len()
                + pawn_moves_from(*pos, from).len());
        }
        if to / 8 == promo {
            if !try_promotions(list, from, to) {
                return false;
            }
        } else {
            if list.len() >= MAX_MOVES {
                return false;
            }
            list.push(Move::new(from, to));
        }
        assert(list@ + pawn_captures(from, caps, promo as int) =~= old(list)@ + pushes
            + captures);
    }
    assert(list@ =~= old(list)@ + pushes + captures);
    // en passant
    match pos.en_passant {
        Some(ep_sq) => {
            if (attacks >> (ep_sq as u64)) & 1 != 0 {
                assert((attacks >> (ep_sq as u64)) & 1 != 0 ==> (attacks >> (ep_sq as u64)) & 1
                    == 1) by (bit_vector);
                if list.len() >= MAX_MOVES {
                    return false;
                }
                list.push(Move::new_en_passant(from, ep_sq));
            } else {
                assert(!crate::board::bitboard::bit(attacks, ep_sq as int));
            }
        },
        None => {},
    }
    assert(list@ =~= old(list)@ + pawn_moves_from(*pos, from));
    true
}

/// Appends the pawn moves; false, with the list partly filled, when they do not all fit.
fn try_pawn_moves(pos: &Position, list: &mut MoveList) -> (ok: bool)
    requires
        pawn_ep_ok(*pos),
    ensures
        ok ==> final(list)@ == old(list)@ + pawn_moves_spec(*pos),
        !ok ==> old(list)@.len() + pawn_moves_spec(*pos).len() > MAX_MOVES,
{
    reveal(pawn_moves_spec);
    let us = color_index(pos.side_to_move);
    let ghost all = pos.pieces[us as int][0];
    let mut pawns = pos.pieces[us][0];
    while pawns != 0
        invariant
            all == pos.pieces[us as int][0],
            pawns <= all,
            us == ci(pos.side_to_move),
            pawn_ep_ok(*pos),
            pawn_moves_spec(*pos) == pawn_moves_of(*pos, all),
            list@ + pawn_moves_of(*pos, pawns) == old(list)@ + pawn_moves_of(*pos, all),
        decreases pawns,
    {
        let ghost before = pawns;
        let ghost mid = list@;
        let from = pop_lsb(&mut pawns);
        proof {
            lemma_drop_lsb_smaller(before);
            assert(all != 0);
            assert(pawn_moves_of(*pos, before) == pawn_moves_from(*pos, from) + pawn_moves_of(
                *pos,
                pawns,
            ));
        }
        if !try_pawn_moves_from(pos, list, from) {
            assert((mid + pawn_moves_of(*pos, before)).len() == mid.len() + pawn_moves_from(
                *pos,
                from,
            ).len() + pawn_moves_of(*pos, pawns).len());
            return false;
        }
        assert(list@ + pawn_moves_of(*pos, pawns) =~= old(list)@ + pawn_moves_of(*pos, all));
    }
    assert(list@ =~= old(list)@ + pawn_moves_spec(*pos));
    true
}

pub fn generate_pawn_moves(pos: &Position, list: &mut MoveList)
    requires
        pawn_ep_ok(*pos),
        old(list)@.len() + pawn_moves_spec(*pos).len() <= MAX_MOVES,
    ensures
        final(list)@ == old(list)@ + pawn_moves_spec(*pos),
{
    let ok = try_pawn_moves(pos, list);
    assert(ok);
}

/// Appends the castling moves; false, with the list partly filled, when they do not all fit.
fn try_castling_moves(pos: &Position, list: &mut MoveList) -> (ok: bool)
    ensures
        ok ==> final(list)@ == old(list)@ + castling_moves_spec(*pos),
        !ok ==> old(list)@.len() + castling_moves_spec(*pos).len() > MAX_MOVES,
{
    reveal(castling_moves_spec);
    let us = pos.side_to_move;
    let them = us.opposite();
    let occupied = pos.occupied;
    let king_sq = if us == Color::White {
        4u8
    } else {
        60u8
    };
    if pos.is_square_attacked(king_sq, them, occupied) {
        assert(list@ =~= old(list)@ + castling_moves_spec(*pos));
        return true;
    }
    assert forall|k: u64| k < 64 implies ((occupied >> k) & 1 == 0) == !crate::board::bitboard::bit(
        occupied,
        k as int,
    ) by {
        assert((occupied >> k) & 1 != 0 ==> (occupied >> k) & 1 == 1) by (bit_vector);
    }
    if us == Color::White {
        if pos.castling_rights & WK_CASTLE != 0 {
            if (occupied >> 5u64) & 1 == 0 && (occupied >> 6u64) & 1 == 0
                && !pos.is_square_attacked(5, them, occupied) && !pos.is_square_attacked(
                6,
                them,
                occupied,
            ) {
                if list.len() >= MAX_MOVES {
                    return false;
                }
                list.push(Move::new_castling(4, 6));
            }
        }
        let ghost mid = list@;
        if pos.castling_rights & WQ_CASTLE != 0 {
            if (occupied >> 1u64) & 1 == 0 && (occupied >> 2u64) & 1 == 0 && (occupied >> 3u64) & 1
                == 0 && !pos.is_square_attacked(3, them, occupied) && !pos.is_square_attacked(
                2,
                them,
                occupied,
            ) {
                if list.len() >= MAX_MOVES {
                    return false;
                }
                list.push(Move::new_castling(4, 2));
            }
        }
    } else {
        if pos.castling_rights & BK_CASTLE != 0 {
            if (occupied >> 61u64) & 1 == 0 && (occupied >> 62u64) & 1 == 0
                && !pos.is_square_attacked(61, them, occupied) && !pos.is_square_attacked(
                62,
                them,
                occupied,
            ) {
                if list.len() >= MAX_MOVES {
                    return false;
                }
                list.push(Move::new_castling(60, 62));
            }
        }
        if pos.castling_rights & BQ_CASTLE != 0 {
            if (occupied >> 57u64) & 1 == 0 && (occupied >> 58u64) & 1 == 0 && (occupied >> 59u64)
                & 1 == 0 && !pos.is_square_attacked(59, them, occupied)
                && !pos.is_square_attacked(58, them, occupied) {
                if list.len() >= MAX_MOVES {
                    return false;
                }
                list.push(Move::new_castling(60, 58));
            }
        }
    }
    assert(list@ =~= old(list)@ + castling_moves_spec(*pos));
    true
}

pub fn generate_castling_moves(pos: &Position, list: &mut MoveList)
    requires
        old(list)@.len() + castling_moves_spec(*pos).len() <= MAX_MOVES,
    ensures
        final(list)@ == old(list)@ + castling_moves_spec(*pos),
{
    let ok = try_castling_moves(pos, list);
    assert(ok);
}

/// Appends all pseudo-legal moves when they fit in the list and says whether they did; when
/// they do not, the list is left partly filled.
pub fn try_generate_pseudo_legal(pos: &Position, list: &mut MoveList) -> (ok: bool)
    requires
        pawn_ep_ok(*pos),
    ensures
        ok == (old(list)@.len() + pseudo_legal_spec(*pos).len() <= MAX_MOVES),
        ok ==> final(list)@ == old(list)@ + pseudo_legal_spec(*pos),
{
    let ghost s0 = old(list)@;
    let ghost a = knight_moves_spec(*pos);
    let ghost b = king_moves_spec(*pos);
    let ghost c = bishop_moves_spec(*pos);
    let ghost d = rook_moves_spec(*pos);
    let ghost e = queen_moves_spec(*pos);
    let ghost f = pawn_moves_spec(*pos);
    let ghost g = castling_moves_spec(*pos);
    assert(pseudo_legal_spec(*pos).len() == a.len() + b.len() + c.len() + d.len() + e.len()
        + f.len() + g.len());
    let us = color_index(pos.side_to_move);
    proof {
        reveal(knight_moves_spec);
        reveal(bishop_moves_spec);
        reveal(rook_moves_spec);
        reveal(queen_moves_spec);
    }
    if !try_push_piece_moves(list, pos.pieces[us][1], 1, pos.occupied, pos.occupied_by[us]) {
        return false;
    }
    if !try_king_moves(pos, list) {
        return false;
    }
    if !try_push_piece_moves(list, pos.pieces[us][2], 2, pos.occupied, pos.occupied_by[us]) {
        return false;
    }
    if !try_push_piece_moves(list, pos.pieces[us][3], 3, pos.occupied, pos.occupied_by[us]) {
        return false;
    }
    if !try_push_piece_moves(list, pos.pieces[us][4], 4, pos.occupied, pos.occupied_by[us]) {
        return false;
    }
    if !try_pawn_moves(pos, list) {
        return false;
    }
    if !try_castling_moves(pos, list) {
        return false;
    }
    assert(list@ =~= s0 + pseudo_legal_spec(*pos));
    let n = list.len();
    assert(n == s0.len() + pseudo_legal_spec(*pos).len());
    true
}

pub fn generate_pseudo_legal(pos: &Position, list: &mut MoveList)
    requires
        pawn_ep_ok(*pos),
        old(list)@.len() + pseudo_legal_spec(*pos).len() <= MAX_MOVES,
    ensures
        final(list)@ == old(list)@ + pseudo_legal_spec(*pos),
{
    let ok = try_generate_pseudo_legal(pos, list);
    assert(ok);
}

} // verus!
