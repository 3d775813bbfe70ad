use vstd::prelude::*;
use crate::board::bitboard::{bit, drop_lsb, group_bit_lemmas, lemma_lsb, lsb_spec, squares};
use crate::board::make_move::{
    castle_rook, lemma_make_keeps_disjoint, lemma_piece_at_bits, make_spec, move_fits,
    moving_slot, pieces_disjoint, rights_keep,
};
use crate::board::position::{
    ci, color_of, occupancy_ok, pi, piece_at_spec, ptype_of, Color, PieceType, Position,
};
use crate::movegen::moves::{
    castling_move, en_passant_move, lemma_constructors_roundtrip, lemma_square_fields, move_from,
    move_kind, move_to,
    normal_move, promotion_move, Move, MoveType, PromoPiece,
};
use crate::movegen::movegen::{
    bishop_moves_spec, bishop_targets, king_moves_spec, kept_moves, knight_moves_spec,
    knight_targets, pawn_captures, pawn_ep, pawn_moves_from, pawn_moves_of, pawn_moves_spec,
    pawn_pushes, pawn_step, piece_moves, promo_rank, promotions, push_offset, queen_moves_spec,
    queen_targets, rook_moves_spec, rook_targets, start_rank, target_moves, us,
    castling_moves_spec, free_safe, pseudo_legal_spec,
};
use crate::movegen::tables::{king_attacks_spec, pawn_attacks_spec, sq_bit};
use crate::movegen::attacks::attacked_spec;

verus! {

broadcast use group_bit_lemmas;

/// A pawn of the side to move stands on `from` on its starting rank, and `to` lies two ranks
/// ahead of it with the square between them empty.
pub open spec fn double_push_ok(pos: Position, from: int, to: int) -> bool {
    &&& ((pos.side_to_move == Color::White && 8 <= from < 16 && to == from + 16) || (
    pos.side_to_move == Color::Black && 48 <= from < 56 && to == from - 16))
    &&& piece_at_spec(pos, (from + to) / 2) is None
}

/// The generator's shape of a move: a pawn moves two ranks only as a plain double push, and
/// castling moves a king from its home square two files towards a corner.
pub open spec fn step_ok(pos: Position, m: Move) -> bool {
    let from = move_from(m) as int;
    let to = move_to(m) as int;
    &&& (moving_slot(pos, m) == 0 && (to - from == 16 || from - to == 16)) ==> move_kind(m)
        == MoveType::Normal && double_push_ok(pos, from, to)
    &&& move_kind(m) == MoveType::Castling ==> (from == 4 && (to == 6 || to == 2)) || (from == 60
        && (to == 62 || to == 58))
}

/// Every move of `s` fits the board and has the generator's shape.
pub open spec fn all_fit(pos: Position, s: Seq<Move>) -> bool {
    forall|j: int| 0 <= j < s.len() ==> move_fits(pos, #[trigger] s[j]) && step_ok(pos, s[j])
}

/// A pawn stands on `sq`.
pub open spec fn pawn_on(pos: Position, sq: int) -> bool {
    piece_at_spec(pos, sq) matches Some((_, pt)) && pt == PieceType::Pawn
}

/// A piece of the side to move stands on `sq`.
pub open spec fn ours(pos: Position, sq: int) -> bool {
    piece_at_spec(pos, sq) matches Some((c, _)) && c == pos.side_to_move
}

/// No piece of the side to move stands on `sq`.
pub open spec fn not_ours(pos: Position, sq: int) -> bool {
    piece_at_spec(pos, sq) matches Some((c, _)) ==> c == pos.side_to_move.spec_opposite()
}

proof fn lemma_all_fit_concat(pos: Position, a: Seq<Move>, b: Seq<Move>)
    requires
        all_fit(pos, a),
        all_fit(pos, b),
    ensures
        all_fit(pos, a + b),
{
    assert forall|j: int| 0 <= j < (a + b).len() implies move_fits(pos, #[trigger] (a + b)[j])
        && step_ok(pos, (a + b)[j]) by {
        if j < a.len() {
            assert((a + b)[j] == a[j]);
        } else {
            assert((a + b)[j] == b[j - a.len()]);
        }
    }
}

/// The squares that `squares` lists are squares of the bitboard.
proof fn lemma_squares_bits(bb: u64)
    ensures
        forall|j: int|
            0 <= j < squares(bb).len() ==> #[trigger] squares(bb)[j] < 64 && bit(
                bb,
                squares(bb)[j] as int,
            ),
    decreases bb,
{
    if bb != 0 {
        crate::board::bitboard::lemma_drop_lsb_smaller(bb);
        lemma_lsb(bb);
        lemma_squares_bits(drop_lsb(bb));
        let s = squares(bb);
        let rest = squares(drop_lsb(bb));
        assert(s == seq![lsb_spec(bb) as u8] + rest);
        assert forall|j: int| 0 <= j < s.len() implies #[trigger] s[j] < 64 && bit(bb, s[j] as int) by {
            if j > 0 {
                assert(s[j] == rest[j - 1]);
            }
        }
    }
}

/// A plain move from one of the mover's squares to a square without a piece of its own fits.
proof fn lemma_normal_fits(pos: Position, from: u8, to: u8)
    requires
        from < 64,
        to < 64,
        from != to,
        ours(pos, from as int),
        not_ours(pos, to as int),
        !pawn_on(pos, from as int) || (to - from != 16 && from - to != 16) || double_push_ok(
            pos,
            from as int,
            to as int,
        ),
    ensures
        move_fits(pos, normal_move(from, to)),
        step_ok(pos, normal_move(from, to)),
{
    lemma_constructors_roundtrip(from, to, PromoPiece::Queen);
}

/// Plain moves from `from` to squares of `targets` fit when each target is another square
/// without a piece of the mover.
proof fn lemma_target_moves_fit(pos: Position, from: u8, targets: u64)
    requires
        from < 64,
        ours(pos, from as int),
        !pawn_on(pos, from as int),
        forall|to: int| #[trigger] bit(targets, to) ==> to != from && not_ours(pos, to),
    ensures
        all_fit(pos, target_moves(from, targets)),
{
    lemma_squares_bits(targets);
    let s = squares(targets);
    assert forall|j: int| 0 <= j < target_moves(from, targets).len() implies move_fits(
        pos,
        #[trigger] target_moves(from, targets)[j],
    ) && step_ok(pos, target_moves(from, targets)[j]) by {
        assert(target_moves(from, targets)[j] == normal_move(from, s[j]));
        assert(bit(targets, s[j] as int));
        lemma_normal_fits(pos, from, s[j]);
    }
}

/// The plain moves of the pieces on `pieces` fit when each stands on a square of the mover and
/// its targets are other squares without a piece of the mover.
proof fn lemma_piece_moves_fit(pos: Position, pieces: u64, tf: spec_fn(u8) -> u64)
    requires
        forall|from: int| #[trigger] bit(pieces, from) ==> ours(pos, from) && !pawn_on(pos, from),
        forall|from: int, to: int|
            bit(pieces, from) && #[trigger] bit(tf(from as u8), to) ==> to != from && not_ours(pos, to),
    ensures
        all_fit(pos, piece_moves(pieces, tf)),
    decreases pieces,
{
    if pieces != 0 {
        crate::board::bitboard::lemma_drop_lsb_smaller(pieces);
        lemma_lsb(pieces);
        let from = lsb_spec(pieces);
        assert(bit(pieces, from));
        assert(from as u8 as int == from);
        lemma_target_moves_fit(pos, from as u8, tf(from as u8));
        lemma_piece_moves_fit(pos, drop_lsb(pieces), tf);
        lemma_all_fit_concat(
            pos,
            target_moves(from as u8, tf(from as u8)),
            piece_moves(drop_lsb(pieces), tf),
        );
    }
}

/// The kept plain moves from `from` fit under the same conditions as all of them.
proof fn lemma_kept_moves_fit(pos: Position, from: u8, targets: u64, keep: spec_fn(u8) -> bool)
    requires
        from < 64,
        ours(pos, from as int),
        !pawn_on(pos, from as int),
        forall|to: int| #[trigger] bit(targets, to) ==> to != from && not_ours(pos, to),
    ensures
        all_fit(pos, kept_moves(from, targets, keep)),
    decreases targets,
{
    if targets != 0 {
        crate::board::bitboard::lemma_drop_lsb_smaller(targets);
        lemma_lsb(targets);
        let to = lsb_spec(targets);
        assert(bit(targets, to));
        let head = if keep(to as u8) {
            seq![normal_move(from, to as u8)]
        } else {
            Seq::empty()
        };
        if keep(to as u8) {
            lemma_normal_fits(pos, from, to as u8);
        }
        lemma_kept_moves_fit(pos, from, drop_lsb(targets), keep);
        lemma_all_fit_concat(pos, head, kept_moves(from, drop_lsb(targets), keep));
    }
}


/// The castling rights and the en passant square agree with the board: each castling right
/// has its king and rook at home, and an en passant square is an empty square on the board
/// just behind an enemy pawn; besides, no square holds two pieces and the occupancy fields
/// agree with the pieces.
pub open spec fn board_consistent(pos: Position) -> bool {
    let them = pos.side_to_move.spec_opposite();
    &&& pieces_disjoint(pos.pieces)
    &&& occupancy_ok(pos)
    &&& (pos.castling_rights & 1u8 != 0 ==> piece_at_spec(pos, 4) == Some(
        (Color::White, PieceType::King),
    ) && piece_at_spec(pos, 7) == Some((Color::White, PieceType::Rook)))
    &&& (pos.castling_rights & 2u8 != 0 ==> piece_at_spec(pos, 4) == Some(
        (Color::White, PieceType::King),
    ) && piece_at_spec(pos, 0) == Some((Color::White, PieceType::Rook)))
    &&& (pos.castling_rights & 4u8 != 0 ==> piece_at_spec(pos, 60) == Some(
        (Color::Black, PieceType::King),
    ) && piece_at_spec(pos, 63) == Some((Color::Black, PieceType::Rook)))
    &&& (pos.castling_rights & 8u8 != 0 ==> piece_at_spec(pos, 60) == Some(
        (Color::Black, PieceType::King),
    ) && piece_at_spec(pos, 56) == Some((Color::Black, PieceType::Rook)))
    &&& (pos.en_passant matches Some(e) ==> e < 64 && piece_at_spec(pos, e as int) is None
        && piece_at_spec(pos, (e ^ 8u8) as int) == Some((them, PieceType::Pawn)))
}

/// What the occupancy bitboards say of one square.
proof fn lemma_square_facts(pos: Position, sq: int)
    requires
        pieces_disjoint(pos.pieces),
        occupancy_ok(pos),
        0 <= sq < 64,
    ensures
        bit(pos.occupied_by[us(pos)], sq) == ours(pos, sq),
        !bit(pos.occupied_by[us(pos)], sq) ==> not_ours(pos, sq),
        bit(pos.occupied_by[1 - us(pos)], sq) ==> not_ours(pos, sq) && piece_at_spec(pos, sq)
            is Some,
        bit(pos.occupied, sq) == piece_at_spec(pos, sq) is Some,
        forall|k: int| 0 <= k < 6 && #[trigger] bit(pos.pieces[us(pos)][k], sq) ==> ours(pos, sq)
            && piece_at_spec(pos, sq) == Some((pos.side_to_move, ptype_of(k))),
        bit(pos.pieces[us(pos)][0], sq) ==> piece_at_spec(pos, sq) == Some(
            (pos.side_to_move, PieceType::Pawn),
        ),
{
    lemma_piece_at_bits(pos, sq);
    let u = us(pos);
    assert(color_of(u) == pos.side_to_move);
    assert(color_of(1 - u) == pos.side_to_move.spec_opposite());
    match piece_at_spec(pos, sq) {
        Some((c, pt)) => {
            assert(bit(pos.pieces[ci(c)][pi(pt)], sq));
        },
        None => {},
    }
}

/// Plain moves of the pieces in slot `k` of the side to move fit when no target square holds
/// a piece of its own.
proof fn lemma_own_targets_fit(pos: Position, k: int, tf: spec_fn(u8) -> u64)
    requires
        pieces_disjoint(pos.pieces),
        occupancy_ok(pos),
        1 <= k < 6,
        forall|from: int, to: int| #[trigger] bit(tf(from as u8), to) ==> !bit(
            pos.occupied_by[us(pos)],
            to,
        ),
    ensures
        all_fit(pos, piece_moves(pos.pieces[us(pos)][k], tf)),
{
    let pieces = pos.pieces[us(pos)][k];
    assert forall|from: int| #[trigger] bit(pieces, from) implies ours(pos, from) && !pawn_on(
        pos,
        from,
    ) by {
        lemma_square_facts(pos, from);
    }
    assert forall|from: int, to: int|
        bit(pieces, from) && #[trigger] bit(tf(from as u8), to) implies to != from && not_ours(
        pos,
        to,
    ) by {
        lemma_square_facts(pos, from);
        lemma_square_facts(pos, to);
    }
    lemma_piece_moves_fit(pos, pieces, tf);
}

/// The knight, bishop, rook and queen moves fit the board.
proof fn lemma_piece_kinds_fit(pos: Position)
    requires
        pieces_disjoint(pos.pieces),
        occupancy_ok(pos),
    ensures
        all_fit(pos, knight_moves_spec(pos)),
        all_fit(pos, bishop_moves_spec(pos)),
        all_fit(pos, rook_moves_spec(pos)),
        all_fit(pos, queen_moves_spec(pos)),
{
    reveal(knight_moves_spec);
    reveal(bishop_moves_spec);
    reveal(rook_moves_spec);
    reveal(queen_moves_spec);
    let own = pos.occupied_by[us(pos)];
    let occ = pos.occupied;
    lemma_own_targets_fit(pos, 1, knight_targets(own));
    lemma_own_targets_fit(pos, 2, bishop_targets(occ, own));
    lemma_own_targets_fit(pos, 3, rook_targets(occ, own));
    lemma_own_targets_fit(pos, 4, queen_targets(occ, own));
}

/// The king moves fit the board.
proof fn lemma_king_fit(pos: Position)
    requires
        pieces_disjoint(pos.pieces),
        occupancy_ok(pos),
    ensures
        all_fit(pos, king_moves_spec(pos)),
{
    reveal(king_moves_spec);
    let u = us(pos);
    let king_bb = pos.pieces[u][5];
    if king_bb != 0 {
        lemma_lsb(king_bb);
        let from = lsb_spec(king_bb);
        lemma_square_facts(pos, from);
        let targets = king_attacks_spec(from as u8 as int) & !pos.occupied_by[u];
        assert forall|to: int| #[trigger] bit(targets, to) implies to != from && not_ours(pos, to) by {
            lemma_square_facts(pos, to);
        }
        let occ_no_king = pos.occupied ^ king_bb;
        lemma_kept_moves_fit(pos, from as u8, targets, crate::movegen::movegen::king_keep(pos, 1 - u, occ_no_king));
    }
}


/// A pawn attacks only squares one file aside and one rank ahead, never two ranks away.
proof fn lemma_pawn_attack_distance(u: int, from: int, to: int)
    requires
        0 <= from < 64,
        bit(pawn_attacks_spec(u, from), to),
    ensures
        to - from != 16 && from - to != 16,
        to - from != 8 && from - to != 8,
        to != from,
{
    let f = from % 8;
    let r = from / 8;
    let a = crate::movegen::tables::sq_bit(f - 1, if u == 0 { r + 1 } else { r - 1 });
    let b = crate::movegen::tables::sq_bit(f + 1, if u == 0 { r + 1 } else { r - 1 });
    assert(pawn_attacks_spec(u, from) == a | b);
    assert(from == r * 8 + f);
    if bit(a, to) {
        if 0 <= f - 1 < 8 && 0 <= (if u == 0 { r + 1 } else { r - 1 }) < 8 {
            let s = (if u == 0 { r + 1 } else { r - 1 }) * 8 + (f - 1);
            assert(bit(1u64 << (s as u64), to) == (to == s));
        }
    } else {
        assert(bit(b, to));
        if 0 <= f + 1 < 8 && 0 <= (if u == 0 { r + 1 } else { r - 1 }) < 8 {
            let s = (if u == 0 { r + 1 } else { r - 1 }) * 8 + (f + 1);
            assert(bit(1u64 << (s as u64), to) == (to == s));
        }
    }
}

/// The four promotions of the mover's pawn on `from` to a square without a piece of its own fit.
proof fn lemma_promotions_fit(pos: Position, from: u8, to: u8)
    requires
        from < 64,
        to < 64,
        from != to,
        to - from != 16 && from - to != 16,
        piece_at_spec(pos, from as int) == Some((pos.side_to_move, PieceType::Pawn)),
        not_ours(pos, to as int),
    ensures
        all_fit(pos, promotions(from, to)),
{
    lemma_constructors_roundtrip(from, to, PromoPiece::Queen);
    lemma_constructors_roundtrip(from, to, PromoPiece::Rook);
    lemma_constructors_roundtrip(from, to, PromoPiece::Bishop);
    lemma_constructors_roundtrip(from, to, PromoPiece::Knight);
    let s = promotions(from, to);
    assert forall|j: int| 0 <= j < s.len() implies move_fits(pos, #[trigger] s[j]) && step_ok(
        pos,
        s[j],
    ) by {
        assert(moving_slot(pos, s[j]) == 0);
    }
}

/// A pawn move of the mover's pawn on `from` to a square without a piece of its own fits.
proof fn lemma_pawn_step_fit(pos: Position, from: u8, to: u8, pr: int)
    requires
        from < 64,
        to < 64,
        from != to,
        to - from != 16 && from - to != 16,
        piece_at_spec(pos, from as int) == Some((pos.side_to_move, PieceType::Pawn)),
        not_ours(pos, to as int),
    ensures
        all_fit(pos, pawn_step(from, to, pr)),
{
    if to / 8 == pr {
        lemma_promotions_fit(pos, from, to);
    } else {
        lemma_normal_fits(pos, from, to);
        assert(all_fit(pos, seq![normal_move(from, to)]));
    }
}

/// Pawn captures of the mover's pawn on `from` onto enemy squares fit.
proof fn lemma_pawn_captures_fit(pos: Position, from: u8, targets: u64, pr: int)
    requires
        pieces_disjoint(pos.pieces),
        occupancy_ok(pos),
        from < 64,
        piece_at_spec(pos, from as int) == Some((pos.side_to_move, PieceType::Pawn)),
        forall|to: int| #[trigger] bit(targets, to) ==> bit(pos.occupied_by[1 - us(pos)], to)
            && bit(pawn_attacks_spec(us(pos), from as int), to),
    ensures
        all_fit(pos, pawn_captures(from, targets, pr)),
    decreases targets,
{
    if targets != 0 {
        crate::board::bitboard::lemma_drop_lsb_smaller(targets);
        lemma_lsb(targets);
        let to = lsb_spec(targets);
        assert(bit(targets, to));
        lemma_square_facts(pos, to);
        lemma_pawn_attack_distance(us(pos), from as int, to);
        lemma_pawn_step_fit(pos, from, to as u8, pr);
        lemma_pawn_captures_fit(pos, from, drop_lsb(targets), pr);
        lemma_all_fit_concat(pos, pawn_step(from, to as u8, pr), pawn_captures(from, drop_lsb(targets), pr));
    }
}

/// The moves of the mover's pawn on `from` fit.
proof fn lemma_pawn_from_fit(pos: Position, from: u8)
    requires
        board_consistent(pos),
        from < 64,
        bit(pos.pieces[us(pos)][0], from as int),
    ensures
        all_fit(pos, pawn_moves_from(pos, from)),
{
    let u = us(pos);
    lemma_square_facts(pos, from as int);
    let empty = !pos.occupied;
    let to_push = from + push_offset(u);
    let to_double = from + 2 * push_offset(u);
    if 0 <= to_push < 64 {
        lemma_square_facts(pos, to_push);
    }
    if 0 <= to_double < 64 {
        lemma_square_facts(pos, to_double);
    }
    let pushes = pawn_pushes(pos, from);
    if 0 <= to_push < 64 && bit(empty, to_push) {
        if to_push / 8 == promo_rank(u) {
            lemma_promotions_fit(pos, from, to_push as u8);
        } else {
            lemma_normal_fits(pos, from, to_push as u8);
            let second = if from / 8 == start_rank(u) && 0 <= to_double < 64 && bit(empty, to_double) {
                seq![normal_move(from, to_double as u8)]
            } else {
                Seq::empty()
            };
            if from / 8 == start_rank(u) && 0 <= to_double < 64 && bit(empty, to_double) {
                assert((from + to_double) / 2 == to_push);
                lemma_normal_fits(pos, from, to_double as u8);
            }
            assert(all_fit(pos, seq![normal_move(from, to_push as u8)]));
            assert(all_fit(pos, second));
            lemma_all_fit_concat(pos, seq![normal_move(from, to_push as u8)], second);
        }
    }
    assert(all_fit(pos, pushes));
    let targets = pawn_attacks_spec(u, from as int) & pos.occupied_by[1 - u];
    lemma_pawn_captures_fit(pos, from, targets, promo_rank(u));
    let ep = pawn_ep(pos, from);
    match pos.en_passant {
        Some(e) => {
            if bit(pawn_attacks_spec(u, from as int), e as int) {
                lemma_pawn_attack_distance(u, from as int, e as int);
                lemma_constructors_roundtrip(from, e, PromoPiece::Queen);
                let m = en_passant_move(from, e);
                assert(moving_slot(pos, m) == 0);
                assert(move_fits(pos, m));
                assert(step_ok(pos, m));
                assert(all_fit(pos, seq![m]));
            }
        },
        None => {},
    }
    assert(all_fit(pos, ep));
    lemma_all_fit_concat(pos, pushes, pawn_captures(from, targets, promo_rank(u)));
    lemma_all_fit_concat(pos, pushes + pawn_captures(from, targets, promo_rank(u)), ep);
}

/// The moves of the mover's pawns in `pawns` fit.
proof fn lemma_pawn_moves_of_fit(pos: Position, pawns: u64)
    requires
        board_consistent(pos),
        forall|sq: int| #[trigger] bit(pawns, sq) ==> bit(pos.pieces[us(pos)][0], sq),
    ensures
        all_fit(pos, pawn_moves_of(pos, pawns)),
    decreases pawns,
{
    if pawns != 0 {
        crate::board::bitboard::lemma_drop_lsb_smaller(pawns);
        lemma_lsb(pawns);
        let from = lsb_spec(pawns);
        assert(bit(pawns, from));
        lemma_pawn_from_fit(pos, from as u8);
        lemma_pawn_moves_of_fit(pos, drop_lsb(pawns));
        lemma_all_fit_concat(pos, pawn_moves_from(pos, from as u8), pawn_moves_of(pos, drop_lsb(pawns)));
    }
}


/// A castling move of the king on `from` to `to` fits when the king and the rook of that side
/// stand at home and the king's and the rook's target squares are empty.
proof fn lemma_castle_fit(pos: Position, from: u8, to: u8, rf: int, rt: int)
    requires
        pieces_disjoint(pos.pieces),
        occupancy_ok(pos),
        (from == 4 && pos.side_to_move == Color::White) || (from == 60 && pos.side_to_move == Color::Black),
        (to == from + 2 && rf == from + 3 && rt == from + 1) || (to == from - 2 && rf == from - 4
            && rt == from - 1),
        piece_at_spec(pos, from as int) == Some((pos.side_to_move, PieceType::King)),
        piece_at_spec(pos, rf) == Some((pos.side_to_move, PieceType::Rook)),
        !bit(pos.occupied, to as int),
        !bit(pos.occupied, rt),
    ensures
        all_fit(pos, seq![castling_move(from, to)]),
{
    lemma_constructors_roundtrip(from, to, PromoPiece::Queen);
    lemma_square_facts(pos, to as int);
    lemma_square_facts(pos, rt);
    assert(move_fits(pos, castling_move(from, to)));
}

/// The castling moves fit the board.
proof fn lemma_castling_fit(pos: Position)
    requires
        board_consistent(pos),
    ensures
        all_fit(pos, castling_moves_spec(pos)),
{
    reveal(castling_moves_spec);
    let u = us(pos);
    let them = 1 - u;
    let occ = pos.occupied;
    let rights = pos.castling_rights;
    if u == 0 {
        let k = if rights & 1u8 != 0 && free_safe(pos, occ, 5, them) && free_safe(pos, occ, 6, them) {
            lemma_castle_fit(pos, 4, 6, 7, 5);
            seq![castling_move(4, 6)]
        } else {
            Seq::empty()
        };
        let q = if rights & 2u8 != 0 && !bit(occ, 1) && free_safe(pos, occ, 2, them) && free_safe(
            pos,
            occ,
            3,
            them,
        ) {
            lemma_castle_fit(pos, 4, 2, 0, 3);
            seq![castling_move(4, 2)]
        } else {
            Seq::empty()
        };
        lemma_all_fit_concat(pos, k, q);
    } else {
        let k = if rights & 4u8 != 0 && free_safe(pos, occ, 61, them) && free_safe(pos, occ, 62, them) {
            lemma_castle_fit(pos, 60, 62, 63, 61);
            seq![castling_move(60, 62)]
        } else {
            Seq::empty()
        };
        let q = if rights & 8u8 != 0 && !bit(occ, 57) && free_safe(pos, occ, 58, them) && free_safe(
            pos,
            occ,
            59,
            them,
        ) {
            lemma_castle_fit(pos, 60, 58, 56, 59);
            seq![castling_move(60, 58)]
        } else {
            Seq::empty()
        };
        lemma_all_fit_concat(pos, k, q);
    }
}

/// Every pseudo-legal move that the generator lists for a consistent position fits the board,
/// so that it can be played and taken back exactly, and has the generator's shape.
pub proof fn lemma_generated_moves_fit(pos: Position)
    requires
        board_consistent(pos),
    ensures
        forall|j: int|
            0 <= j < pseudo_legal_spec(pos).len() ==> move_fits(pos, #[trigger] pseudo_legal_spec(pos)[j])
                && step_ok(pos, pseudo_legal_spec(pos)[j]),
{
    lemma_piece_kinds_fit(pos);
    lemma_king_fit(pos);
    reveal(pawn_moves_spec);
    lemma_pawn_moves_of_fit(pos, pos.pieces[us(pos)][0]);
    lemma_castling_fit(pos);
    let a = knight_moves_spec(pos);
    let b = king_moves_spec(pos);
    let c = bishop_moves_spec(pos);
    let d = rook_moves_spec(pos);
    let e = queen_moves_spec(pos);
    let f = pawn_moves_spec(pos);
    let g = castling_moves_spec(pos);
    lemma_all_fit_concat(pos, a, b);
    lemma_all_fit_concat(pos, a + b, c);
    lemma_all_fit_concat(pos, a + b + c, d);
    lemma_all_fit_concat(pos, a + b + c + d, e);
    lemma_all_fit_concat(pos, a + b + c + d + e, f);
    lemma_all_fit_concat(pos, a + b + c + d + e + f, g);
}


/// The squares a move touches: its from- and to-squares, the pawn taken en passant, and the
/// squares of the castling rook.
pub open spec fn touched(m: Move, sq: int) -> bool {
    let to = move_to(m) as int;
    ||| sq == move_from(m) as int
    ||| sq == to
    ||| (move_kind(m) == MoveType::EnPassant && sq == (move_to(m) ^ 8u8) as int)
    ||| (move_kind(m) == MoveType::Castling && (castle_rook(to) matches Some((rf, rt)) && (sq == rf
        || sq == rt)))
}

/// A move leaves the piece of every square it does not touch in place.
proof fn lemma_untouched(pos: Position, m: Move, sq: int)
    requires
        pieces_disjoint(pos.pieces),
        move_fits(pos, m),
        0 <= sq < 64,
        !touched(m, sq),
    ensures
        piece_at_spec(make_spec(pos, m).0, sq) == piece_at_spec(pos, sq),
{
    let next = make_spec(pos, m).0;
    let p = pos.pieces;
    let q = next.pieces;
    lemma_square_fields(m@);
    lemma_make_keeps_disjoint(pos, m);
    let from = move_from(m) as int;
    let to = move_to(m) as int;
    lemma_piece_at_bits(pos, from);
    lemma_piece_at_bits(pos, to);
    if move_kind(m) == MoveType::EnPassant {
        crate::board::make_move::lemma_xor8(move_to(m));
    }
    assert(sq != from && sq != to);
    assert forall|c: int, k: int| 0 <= c < 2 && 0 <= k < 6 implies #[trigger] bit(q[c][k], sq)
        == bit(p[c][k], sq) by {
        crate::board::make_move::lemma_add_sq(p[c][k], to, sq);
    }
    lemma_piece_at_bits(pos, sq);
    lemma_piece_at_bits(next, sq);
    match piece_at_spec(pos, sq) {
        Some((c, pt)) => {
            assert(bit(q[ci(c)][pi(pt)], sq));
        },
        None => {
            match piece_at_spec(next, sq) {
                Some((c, pt)) => {
                    assert(bit(q[ci(c)][pi(pt)], sq));
                },
                None => {},
            }
        },
    }
}

/// Castling flags and the rights that a move on `from` and `to` keeps.
proof fn lemma_rights_bits(r: u8, from: int, to: int)
    ensures
        ((r & rights_keep(from) & rights_keep(to)) & 1u8 != 0) ==> (r & 1u8 != 0 && from != 4
            && from != 7 && to != 4 && to != 7),
        ((r & rights_keep(from) & rights_keep(to)) & 2u8 != 0) ==> (r & 2u8 != 0 && from != 4
            && from != 0 && to != 4 && to != 0),
        ((r & rights_keep(from) & rights_keep(to)) & 4u8 != 0) ==> (r & 4u8 != 0 && from != 60
            && from != 63 && to != 60 && to != 63),
        ((r & rights_keep(from) & rights_keep(to)) & 8u8 != 0) ==> (r & 8u8 != 0 && from != 60
            && from != 56 && to != 60 && to != 56),
{
    let a = rights_keep(from);
    let b = rights_keep(to);
    assert(forall|x: u8, y: u8, z: u8, f: u8|
        #![trigger ((x & y) & z) & f]
        (((x & y) & z) & f != 0) ==> (x & f != 0 && y & f != 0 && z & f != 0)) by (bit_vector);
    assert(0xFDu8 & 2u8 == 0 && 0xFCu8 & 1u8 == 0 && 0xFCu8 & 2u8 == 0 && 0xFEu8 & 1u8 == 0
        && 0xF7u8 & 8u8 == 0 && 0xF3u8 & 4u8 == 0 && 0xF3u8 & 8u8 == 0 && 0xFBu8 & 4u8 == 0)
        by (bit_vector);
}


/// The square between the two squares of a pawn's double step, flipped back by one rank,
/// is the square the pawn lands on.
proof fn lemma_passed_square(x: u8)
    ensures
        16 <= x < 24 ==> x ^ 8u8 == x + 8,
        40 <= x < 48 ==> x ^ 8u8 == x - 8,
{
    assert((16 <= x < 24 ==> x ^ 8u8 == x + 8) && (40 <= x < 48 ==> x ^ 8u8 == x - 8))
        by (bit_vector);
}

/// Playing a move of the generator's shape that fits a consistent position gives a consistent
/// position: castling rights still find their king and rook at home, and a new en passant
/// square lies behind the pawn that just made its double step.
pub proof fn lemma_make_keeps_consistent(pos: Position, m: Move)
    requires
        board_consistent(pos),
        move_fits(pos, m),
        step_ok(pos, m),
    ensures
        board_consistent(make_spec(pos, m).0),
{
    let next = make_spec(pos, m).0;
    lemma_make_keeps_disjoint(pos, m);
    let from = move_from(m) as int;
    let to = move_to(m) as int;
    let kind = move_kind(m);
    lemma_square_fields(m@);
    lemma_rights_bits(pos.castling_rights, from, to);
    if kind == MoveType::EnPassant {
        crate::board::make_move::lemma_xor8(move_to(m));
    }
    let r = next.castling_rights;
    if r & 1u8 != 0 {
        assert(!touched(m, 4) && !touched(m, 7));
        lemma_untouched(pos, m, 4);
        lemma_untouched(pos, m, 7);
    }
    if r & 2u8 != 0 {
        assert(!touched(m, 4) && !touched(m, 0));
        lemma_untouched(pos, m, 4);
        lemma_untouched(pos, m, 0);
    }
    if r & 4u8 != 0 {
        assert(!touched(m, 60) && !touched(m, 63));
        lemma_untouched(pos, m, 60);
        lemma_untouched(pos, m, 63);
    }
    if r & 8u8 != 0 {
        assert(!touched(m, 60) && !touched(m, 56));
        lemma_untouched(pos, m, 60);
        lemma_untouched(pos, m, 56);
    }
    match next.en_passant {
        Some(e) => {
            assert(moving_slot(pos, m) == 0 && (to - from == 16 || from - to == 16));
            assert(kind == MoveType::Normal);
            let mid = (from + to) / 2;
            assert(e == mid);
            lemma_passed_square(e);
            assert((e ^ 8u8) as int == to);
            assert(!touched(m, mid));
            lemma_untouched(pos, m, mid);
            let u = ci(pos.side_to_move);
            assert(bit(next.pieces[u][0], to));
            lemma_piece_at_bits(next, to);
            assert(ptype_of(0) == PieceType::Pawn);
            assert(color_of(u) == pos.side_to_move);
        },
        None => {},
    }
}



/// No move occurs twice in `s`.
pub open spec fn distinct(s: Seq<Move>) -> bool {
    forall|i: int, j: int| 0 <= i < j < s.len() ==> s[i] != s[j]
}

/// Every move of `s` starts on a square of `bb` and is not castling.
pub open spec fn froms_in(s: Seq<Move>, bb: u64) -> bool {
    forall|i: int|
        0 <= i < s.len() ==> bit(bb, move_from(#[trigger] s[i]) as int) && move_kind(s[i])
            != MoveType::Castling
}

proof fn lemma_distinct_concat(a: Seq<Move>, b: Seq<Move>)
    requires
        distinct(a),
        distinct(b),
        forall|i: int, j: int| 0 <= i < a.len() && 0 <= j < b.len() ==> a[i] != b[j],
    ensures
        distinct(a + b),
{
    assert forall|i: int, j: int| 0 <= i < j < (a + b).len() implies (a + b)[i] != (a + b)[j] by {
        if j < a.len() {
            assert((a + b)[i] == a[i] && (a + b)[j] == a[j]);
        } else if i >= a.len() {
            assert((a + b)[i] == b[i - a.len()] && (a + b)[j] == b[j - a.len()]);
        } else {
            assert((a + b)[i] == a[i] && (a + b)[j] == b[j - a.len()]);
        }
    }
}

proof fn lemma_froms_concat(a: Seq<Move>, b: Seq<Move>, x: u64, y: u64)
    requires
        froms_in(a, x),
        froms_in(b, y),
    ensures
        froms_in(a + b, x | y),
{
    assert forall|i: int| 0 <= i < (a + b).len() implies bit(x | y, move_from(#[trigger] (a + b)[i]) as int)
        && move_kind((a + b)[i]) != MoveType::Castling by {
        if i < a.len() {
            assert((a + b)[i] == a[i]);
        } else {
            assert((a + b)[i] == b[i - a.len()]);
        }
    }
}

/// The squares that `squares` lists are all different.
proof fn lemma_squares_distinct(bb: u64)
    ensures
        forall|i: int, j: int| 0 <= i < j < squares(bb).len() ==> squares(bb)[i] != squares(bb)[j],
    decreases bb,
{
    if bb != 0 {
        crate::board::bitboard::lemma_drop_lsb_smaller(bb);
        lemma_lsb(bb);
        lemma_squares_distinct(drop_lsb(bb));
        lemma_squares_bits(drop_lsb(bb));
        let s = squares(bb);
        let rest = squares(drop_lsb(bb));
        assert(s == seq![lsb_spec(bb) as u8] + rest);
        assert forall|i: int, j: int| 0 <= i < j < s.len() implies s[i] != s[j] by {
            assert(s[j] == rest[j - 1]);
            if i == 0 {
                assert(bit(drop_lsb(bb), rest[j - 1] as int));
            } else {
                assert(s[i] == rest[i - 1]);
            }
        }
    }
}

/// Plain moves from `from` to the squares of `targets` are all different.
proof fn lemma_target_moves_distinct(from: u8, targets: u64)
    requires
        from < 64,
    ensures
        distinct(target_moves(from, targets)),
        forall|i: int|
            0 <= i < target_moves(from, targets).len() ==> move_from(
                #[trigger] target_moves(from, targets)[i],
            ) == from && move_kind(target_moves(from, targets)[i]) == MoveType::Normal,
{
    lemma_squares_bits(targets);
    lemma_squares_distinct(targets);
    let sq = squares(targets);
    let tm = target_moves(from, targets);
    assert forall|i: int| 0 <= i < tm.len() implies move_from(#[trigger] tm[i]) == from
        && move_kind(tm[i]) == MoveType::Normal by {
        lemma_constructors_roundtrip(from, sq[i], PromoPiece::Queen);
    }
    assert forall|i: int, j: int| 0 <= i < j < tm.len() implies tm[i] != tm[j] by {
        lemma_constructors_roundtrip(from, sq[i], PromoPiece::Queen);
        lemma_constructors_roundtrip(from, sq[j], PromoPiece::Queen);
    }
}

/// The plain moves of the pieces on `pieces` are all different and start on those pieces.
proof fn lemma_piece_moves_distinct(pieces: u64, tf: spec_fn(u8) -> u64)
    ensures
        distinct(piece_moves(pieces, tf)),
        froms_in(piece_moves(pieces, tf), pieces),
    decreases pieces,
{
    if pieces != 0 {
        crate::board::bitboard::lemma_drop_lsb_smaller(pieces);
        lemma_lsb(pieces);
        let from = lsb_spec(pieces);
        let head = target_moves(from as u8, tf(from as u8));
        let rest = piece_moves(drop_lsb(pieces), tf);
        lemma_target_moves_distinct(from as u8, tf(from as u8));
        lemma_piece_moves_distinct(drop_lsb(pieces), tf);
        assert forall|i: int, j: int| 0 <= i < head.len() && 0 <= j < rest.len() implies head[i]
            != rest[j] by {
            assert(bit(drop_lsb(pieces), move_from(rest[j]) as int));
        }
        lemma_distinct_concat(head, rest);
        assert(froms_in(head, pieces));
        assert(froms_in(rest, pieces));
        lemma_froms_concat(head, rest, pieces, pieces);
        assert(pieces | pieces == pieces) by {
            crate::board::bitboard::lemma_or_laws();
            assert forall|i: int| 0 <= i < 64 implies bit(pieces | pieces, i) == bit(pieces, i) by {}
            crate::board::bitboard::lemma_bit_ext(pieces | pieces, pieces);
        }
    }
}

/// The kept plain moves from `from` are all different and start on `from`.
proof fn lemma_kept_moves_distinct(from: u8, targets: u64, keep: spec_fn(u8) -> bool)
    requires
        from < 64,
    ensures
        distinct(kept_moves(from, targets, keep)),
        forall|i: int|
            0 <= i < kept_moves(from, targets, keep).len() ==> move_from(
                #[trigger] kept_moves(from, targets, keep)[i],
            ) == from && move_kind(kept_moves(from, targets, keep)[i]) == MoveType::Normal && bit(
                targets,
                move_to(kept_moves(from, targets, keep)[i]) as int,
            ),
    decreases targets,
{
    if targets != 0 {
        crate::board::bitboard::lemma_drop_lsb_smaller(targets);
        lemma_lsb(targets);
        let to = lsb_spec(targets);
        let head = if keep(to as u8) {
            seq![normal_move(from, to as u8)]
        } else {
            Seq::empty()
        };
        let rest = kept_moves(from, drop_lsb(targets), keep);
        lemma_constructors_roundtrip(from, to as u8, PromoPiece::Queen);
        lemma_kept_moves_distinct(from, drop_lsb(targets), keep);
        assert forall|i: int, j: int| 0 <= i < head.len() && 0 <= j < rest.len() implies head[i]
            != rest[j] by {
            assert(bit(drop_lsb(targets), move_to(rest[j]) as int));
        }
        lemma_distinct_concat(head, rest);
        let all = head + rest;
        assert forall|i: int| 0 <= i < all.len() implies move_from(#[trigger] all[i]) == from
            && move_kind(all[i]) == MoveType::Normal && bit(targets, move_to(all[i]) as int) by {
            if i < head.len() {
                assert(all[i] == head[i]);
            } else {
                assert(all[i] == rest[i - head.len()]);
            }
        }
    }
}


/// A pawn step to `to` gives different moves, each from `from` to `to`, plain or promoting.
proof fn lemma_pawn_step_distinct(from: u8, to: u8, pr: int)
    requires
        from < 64,
        to < 64,
    ensures
        distinct(pawn_step(from, to, pr)),
        forall|i: int|
            0 <= i < pawn_step(from, to, pr).len() ==> move_from(#[trigger] pawn_step(from, to, pr)[i])
                == from && move_to(pawn_step(from, to, pr)[i]) == to && (move_kind(
                pawn_step(from, to, pr)[i],
            ) == MoveType::Normal || move_kind(pawn_step(from, to, pr)[i]) == MoveType::Promotion),
{
    lemma_constructors_roundtrip(from, to, PromoPiece::Queen);
    lemma_constructors_roundtrip(from, to, PromoPiece::Rook);
    lemma_constructors_roundtrip(from, to, PromoPiece::Bishop);
    lemma_constructors_roundtrip(from, to, PromoPiece::Knight);
}

/// Pawn captures from `from` are all different, start on `from` and land on squares of
/// `targets`.
proof fn lemma_pawn_captures_distinct(from: u8, targets: u64, pr: int)
    requires
        from < 64,
    ensures
        distinct(pawn_captures(from, targets, pr)),
        forall|i: int|
            0 <= i < pawn_captures(from, targets, pr).len() ==> move_from(
                #[trigger] pawn_captures(from, targets, pr)[i],
            ) == from && bit(targets, move_to(pawn_captures(from, targets, pr)[i]) as int) && (
            move_kind(pawn_captures(from, targets, pr)[i]) == MoveType::Normal || move_kind(
                pawn_captures(from, targets, pr)[i],
            ) == MoveType::Promotion),
    decreases targets,
{
    if targets != 0 {
        crate::board::bitboard::lemma_drop_lsb_smaller(targets);
        lemma_lsb(targets);
        let to = lsb_spec(targets);
        let head = pawn_step(from, to as u8, pr);
        let rest = pawn_captures(from, drop_lsb(targets), pr);
        lemma_pawn_step_distinct(from, to as u8, pr);
        lemma_pawn_captures_distinct(from, drop_lsb(targets), pr);
        assert forall|i: int, j: int| 0 <= i < head.len() && 0 <= j < rest.len() implies head[i]
            != rest[j] by {
            assert(bit(drop_lsb(targets), move_to(rest[j]) as int));
        }
        lemma_distinct_concat(head, rest);
        let all = head + rest;
        assert forall|i: int| 0 <= i < all.len() implies move_from(#[trigger] all[i]) == from
            && bit(targets, move_to(all[i]) as int) && (move_kind(all[i]) == MoveType::Normal
            || move_kind(all[i]) == MoveType::Promotion) by {
            if i < head.len() {
                assert(all[i] == head[i]);
            } else {
                assert(all[i] == rest[i - head.len()]);
            }
        }
    }
}

/// The moves of the pawn on `from` are all different, start on `from` and are not castling.
proof fn lemma_pawn_from_distinct(pos: Position, from: u8)
    requires
        from < 64,
    ensures
        distinct(pawn_moves_from(pos, from)),
        forall|i: int|
            0 <= i < pawn_moves_from(pos, from).len() ==> move_from(
                #[trigger] pawn_moves_from(pos, from)[i],
            ) == from && move_kind(pawn_moves_from(pos, from)[i]) != MoveType::Castling,
{
    let u = us(pos);
    let empty = !pos.occupied;
    let to_push = from + push_offset(u);
    let to_double = from + 2 * push_offset(u);
    let pushes = pawn_pushes(pos, from);
    if 0 <= to_push < 64 && bit(empty, to_push) {
        if to_push / 8 == promo_rank(u) {
            lemma_pawn_step_distinct(from, to_push as u8, promo_rank(u));
            assert(pushes == pawn_step(from, to_push as u8, promo_rank(u)));
        } else {
            lemma_constructors_roundtrip(from, to_push as u8, PromoPiece::Queen);
            if from / 8 == start_rank(u) && 0 <= to_double < 64 && bit(empty, to_double) {
                lemma_constructors_roundtrip(from, to_double as u8, PromoPiece::Queen);
            }
        }
    }
    assert(distinct(pushes));
    assert forall|i: int| 0 <= i < pushes.len() implies move_from(#[trigger] pushes[i]) == from
        && (move_to(pushes[i]) == to_push || move_to(pushes[i]) == to_double) && (move_kind(
        pushes[i],
    ) == MoveType::Normal || move_kind(pushes[i]) == MoveType::Promotion) by {}
    let targets = pawn_attacks_spec(u, from as int) & pos.occupied_by[1 - u];
    let caps = pawn_captures(from, targets, promo_rank(u));
    lemma_pawn_captures_distinct(from, targets, promo_rank(u));
    assert forall|i: int, j: int| 0 <= i < pushes.len() && 0 <= j < caps.len() implies pushes[i]
        != caps[j] by {
        assert(bit(targets, move_to(caps[j]) as int));
        lemma_pawn_attack_distance(u, from as int, move_to(caps[j]) as int);
    }
    lemma_distinct_concat(pushes, caps);
    let ep = pawn_ep(pos, from);
    match pos.en_passant {
        Some(e) => {
            if e < 64 {
                lemma_constructors_roundtrip(from, e, PromoPiece::Queen);
            }
        },
        None => {},
    }
    assert(distinct(ep));
    assert forall|i: int, j: int| 0 <= i < (pushes + caps).len() && 0 <= j < ep.len() implies (
    pushes + caps)[i] != ep[j] by {
        if i < pushes.len() {
            assert((pushes + caps)[i] == pushes[i]);
        } else {
            assert((pushes + caps)[i] == caps[i - pushes.len()]);
        }
    }
    lemma_distinct_concat(pushes + caps, ep);
    let all = pushes + caps + ep;
    assert forall|i: int| 0 <= i < all.len() implies move_from(#[trigger] all[i]) == from
        && move_kind(all[i]) != MoveType::Castling by {
        if i < pushes.len() {
            assert(all[i] == pushes[i]);
        } else if i < pushes.len() + caps.len() {
            assert(all[i] == caps[i - pushes.len()]);
        } else {
            assert(all[i] == ep[i - pushes.len() - caps.len()]);
        }
    }
}

/// The moves of the pawns on `pawns` are all different, start on those pawns and are not
/// castling.
proof fn lemma_pawn_moves_of_distinct(pos: Position, pawns: u64)
    ensures
        distinct(pawn_moves_of(pos, pawns)),
        froms_in(pawn_moves_of(pos, pawns), pawns),
    decreases pawns,
{
    if pawns != 0 {
        crate::board::bitboard::lemma_drop_lsb_smaller(pawns);
        lemma_lsb(pawns);
        let from = lsb_spec(pawns);
        let head = pawn_moves_from(pos, from as u8);
        let rest = pawn_moves_of(pos, drop_lsb(pawns));
        lemma_pawn_from_distinct(pos, from as u8);
        lemma_pawn_moves_of_distinct(pos, drop_lsb(pawns));
        assert forall|i: int, j: int| 0 <= i < head.len() && 0 <= j < rest.len() implies head[i]
            != rest[j] by {
            assert(bit(drop_lsb(pawns), move_from(rest[j]) as int));
        }
        lemma_distinct_concat(head, rest);
        let all = head + rest;
        assert forall|i: int| 0 <= i < all.len() implies bit(pawns, move_from(#[trigger] all[i]) as int)
            && move_kind(all[i]) != MoveType::Castling by {
            if i < head.len() {
                assert(all[i] == head[i]);
            } else {
                assert(all[i] == rest[i - head.len()]);
            }
        }
    }
}


/// Moves starting on two bitboards with no square in common are different.
proof fn lemma_cross_distinct(a: Seq<Move>, x: u64, b: Seq<Move>, y: u64)
    requires
        froms_in(a, x),
        froms_in(b, y),
        forall|i: int| !(#[trigger] bit(x, i) && bit(y, i)),
    ensures
        forall|i: int, j: int| 0 <= i < a.len() && 0 <= j < b.len() ==> a[i] != b[j],
{
    assert forall|i: int, j: int| 0 <= i < a.len() && 0 <= j < b.len() implies a[i] != b[j] by {
        if a[i] == b[j] {
            assert(bit(x, move_from(a[i]) as int));
            assert(bit(y, move_from(b[j]) as int));
        }
    }
}

/// The king moves are all different and start on the king.
proof fn lemma_king_distinct(pos: Position)
    ensures
        distinct(king_moves_spec(pos)),
        froms_in(king_moves_spec(pos), pos.pieces[us(pos)][5]),
{
    reveal(king_moves_spec);
    let u = us(pos);
    let king_bb = pos.pieces[u][5];
    if king_bb != 0 {
        lemma_lsb(king_bb);
        let from = lsb_spec(king_bb);
        let targets = king_attacks_spec(from as u8 as int) & !pos.occupied_by[u];
        let occ_no_king = pos.occupied ^ king_bb;
        lemma_kept_moves_distinct(
            from as u8,
            targets,
            crate::movegen::movegen::king_keep(pos, 1 - u, occ_no_king),
        );
    }
}

/// The castling moves are all different, and all of them castle.
proof fn lemma_castling_distinct(pos: Position)
    ensures
        distinct(castling_moves_spec(pos)),
        forall|i: int|
            0 <= i < castling_moves_spec(pos).len() ==> move_kind(#[trigger] castling_moves_spec(pos)[i])
                == MoveType::Castling,
{
    reveal(castling_moves_spec);
    lemma_constructors_roundtrip(4, 6, PromoPiece::Queen);
    lemma_constructors_roundtrip(4, 2, PromoPiece::Queen);
    lemma_constructors_roundtrip(60, 62, PromoPiece::Queen);
    lemma_constructors_roundtrip(60, 58, PromoPiece::Queen);
}

/// No move occurs twice among the pseudo-legal moves the generator lists for a position
/// where no square holds two pieces.
pub proof fn lemma_generated_moves_distinct(pos: Position)
    requires
        pieces_disjoint(pos.pieces),
    ensures
        forall|i: int, j: int|
            0 <= i < j < pseudo_legal_spec(pos).len() ==> pseudo_legal_spec(pos)[i]
                != pseudo_legal_spec(pos)[j],
{
    reveal(knight_moves_spec);
    reveal(bishop_moves_spec);
    reveal(rook_moves_spec);
    reveal(queen_moves_spec);
    reveal(pawn_moves_spec);
    let u = us(pos);
    let p = pos.pieces[u];
    let own = pos.occupied_by[u];
    let occ = pos.occupied;
    let a = knight_moves_spec(pos);
    let b = king_moves_spec(pos);
    let c = bishop_moves_spec(pos);
    let d = rook_moves_spec(pos);
    let e = queen_moves_spec(pos);
    let f = pawn_moves_spec(pos);
    let g = castling_moves_spec(pos);
    lemma_piece_moves_distinct(p[1], knight_targets(own));
    lemma_king_distinct(pos);
    lemma_piece_moves_distinct(p[2], bishop_targets(occ, own));
    lemma_piece_moves_distinct(p[3], rook_targets(occ, own));
    lemma_piece_moves_distinct(p[4], queen_targets(occ, own));
    lemma_pawn_moves_of_distinct(pos, p[0]);
    lemma_castling_distinct(pos);
    assert(forall|i: int| !(#[trigger] bit(p[1], i) && bit(p[5], i)));
    lemma_cross_distinct(a, p[1], b, p[5]);
    lemma_distinct_concat(a, b);
    lemma_froms_concat(a, b, p[1], p[5]);
    assert(forall|i: int| !(#[trigger] bit(p[1] | p[5], i) && bit(p[2], i)));
    lemma_cross_distinct(a + b, p[1] | p[5], c, p[2]);
    lemma_distinct_concat(a + b, c);
    lemma_froms_concat(a + b, c, p[1] | p[5], p[2]);
    assert(forall|i: int| !(#[trigger] bit(p[1] | p[5] | p[2], i) && bit(p[3], i)));
    lemma_cross_distinct(a + b + c, p[1] | p[5] | p[2], d, p[3]);
    lemma_distinct_concat(a + b + c, d);
    lemma_froms_concat(a + b + c, d, p[1] | p[5] | p[2], p[3]);
    assert(forall|i: int| !(#[trigger] bit(p[1] | p[5] | p[2] | p[3], i) && bit(p[4], i)));
    lemma_cross_distinct(a + b + c + d, p[1] | p[5] | p[2] | p[3], e, p[4]);
    lemma_distinct_concat(a + b + c + d, e);
    lemma_froms_concat(a + b + c + d, e, p[1] | p[5] | p[2] | p[3], p[4]);
    let x = p[1] | p[5] | p[2] | p[3] | p[4];
    assert(forall|i: int| !(#[trigger] bit(x, i) && bit(p[0], i)));
    lemma_cross_distinct(a + b + c + d + e, x, f, p[0]);
    lemma_distinct_concat(a + b + c + d + e, f);
    lemma_froms_concat(a + b + c + d + e, f, x, p[0]);
    let h = a + b + c + d + e + f;
    assert forall|i: int, j: int| 0 <= i < h.len() && 0 <= j < g.len() implies h[i] != g[j] by {
        assert(move_kind(h[i]) != MoveType::Castling);
    }
    lemma_distinct_concat(h, g);
}

/// Two optional moves, in order: `m` is among them exactly when it is a present one.
proof fn lemma_two_options(a: bool, m1: Move, b: bool, m2: Move, m: Move)
    ensures
        ((if a {
            seq![m1]
        } else {
            Seq::<Move>::empty()
        }) + (if b {
            seq![m2]
        } else {
            Seq::<Move>::empty()
        })).contains(m) == ((a && m == m1) || (b && m == m2)),
{
    let x = if a {
        seq![m1]
    } else {
        Seq::<Move>::empty()
    };
    let y = if b {
        seq![m2]
    } else {
        Seq::<Move>::empty()
    };
    let s = x + y;
    if a && m == m1 {
        assert(s[0] == m1);
    }
    if b && m == m2 {
        assert(s[s.len() - 1] == m2);
    }
    if s.contains(m) {
        let i = choose|i: int| 0 <= i < s.len() && s[i] == m;
        if i < x.len() {
            assert(s[i] == x[i]);
        } else {
            assert(s[i] == y[i - x.len()]);
        }
    }
}

/// A castling move is among `h + g` exactly when it is among `g`, where no move of `h`
/// castles.
proof fn lemma_castle_in_tail(h: Seq<Move>, g: Seq<Move>, m: Move)
    requires
        forall|i: int| 0 <= i < h.len() ==> move_kind(#[trigger] h[i]) != MoveType::Castling,
        move_kind(m) == MoveType::Castling,
    ensures
        (h + g).contains(m) == g.contains(m),
{
    let s = h + g;
    if s.contains(m) {
        let i = choose|i: int| 0 <= i < s.len() && s[i] == m;
        if i < h.len() {
            assert(s[i] == h[i]);
        } else {
            assert(s[i] == g[i - h.len()]);
        }
    }
    if g.contains(m) {
        let j = choose|j: int| 0 <= j < g.len() && g[j] == m;
        assert(s[h.len() + j] == g[j]);
    }
}

/// The castling rule: the generator lists a castle exactly when it is the castling side's
/// move, it holds that right, the squares between king and rook are empty, and the other
/// side attacks neither the king's square nor the squares the king passes and lands on.
/// For the queenside castles the square next to the rook (b1, b8) must be empty but may be
/// attacked.
pub proof fn lemma_castling_rule(pos: Position)
    ensures
        pseudo_legal_spec(pos).contains(castling_move(4, 6)) <==> {
            &&& pos.side_to_move == Color::White
            &&& pos.castling_rights & 1u8 != 0
            &&& !bit(pos.occupied, 5) && !bit(pos.occupied, 6)
            &&& !attacked_spec(pos, 4, 1, pos.occupied)
            &&& !attacked_spec(pos, 5, 1, pos.occupied)
            &&& !attacked_spec(pos, 6, 1, pos.occupied)
        },
        pseudo_legal_spec(pos).contains(castling_move(4, 2)) <==> {
            &&& pos.side_to_move == Color::White
            &&& pos.castling_rights & 2u8 != 0
            &&& !bit(pos.occupied, 1) && !bit(pos.occupied, 2) && !bit(pos.occupied, 3)
            &&& !attacked_spec(pos, 4, 1, pos.occupied)
            &&& !attacked_spec(pos, 3, 1, pos.occupied)
            &&& !attacked_spec(pos, 2, 1, pos.occupied)
        },
        pseudo_legal_spec(pos).contains(castling_move(60, 62)) <==> {
            &&& pos.side_to_move == Color::Black
            &&& pos.castling_rights & 4u8 != 0
            &&& !bit(pos.occupied, 61) && !bit(pos.occupied, 62)
            &&& !attacked_spec(pos, 60, 0, pos.occupied)
            &&& !attacked_spec(pos, 61, 0, pos.occupied)
            &&& !attacked_spec(pos, 62, 0, pos.occupied)
        },
        pseudo_legal_spec(pos).contains(castling_move(60, 58)) <==> {
            &&& pos.side_to_move == Color::Black
            &&& pos.castling_rights & 8u8 != 0
            &&& !bit(pos.occupied, 57) && !bit(pos.occupied, 58) && !bit(pos.occupied, 59)
            &&& !attacked_spec(pos, 60, 0, pos.occupied)
            &&& !attacked_spec(pos, 59, 0, pos.occupied)
            &&& !attacked_spec(pos, 58, 0, pos.occupied)
        },
{
    reveal(knight_moves_spec);
    reveal(bishop_moves_spec);
    reveal(rook_moves_spec);
    reveal(queen_moves_spec);
    reveal(pawn_moves_spec);
    let u = us(pos);
    let p = pos.pieces[u];
    let own = pos.occupied_by[u];
    let occ = pos.occupied;
    let a = knight_moves_spec(pos);
    let b = king_moves_spec(pos);
    let c = bishop_moves_spec(pos);
    let d = rook_moves_spec(pos);
    let e = queen_moves_spec(pos);
    let f = pawn_moves_spec(pos);
    let g = castling_moves_spec(pos);
    lemma_piece_moves_distinct(p[1], knight_targets(own));
    lemma_king_distinct(pos);
    lemma_piece_moves_distinct(p[2], bishop_targets(occ, own));
    lemma_piece_moves_distinct(p[3], rook_targets(occ, own));
    lemma_piece_moves_distinct(p[4], queen_targets(occ, own));
    lemma_pawn_moves_of_distinct(pos, p[0]);
    lemma_froms_concat(a, b, p[1], p[5]);
    lemma_froms_concat(a + b, c, p[1] | p[5], p[2]);
    lemma_froms_concat(a + b + c, d, p[1] | p[5] | p[2], p[3]);
    lemma_froms_concat(a + b + c + d, e, p[1] | p[5] | p[2] | p[3], p[4]);
    let x = p[1] | p[5] | p[2] | p[3] | p[4];
    lemma_froms_concat(a + b + c + d + e, f, x, p[0]);
    let h = a + b + c + d + e + f;
    assert(pseudo_legal_spec(pos) == h + g);
    assert(forall|i: int| 0 <= i < h.len() ==> move_kind(#[trigger] h[i]) != MoveType::Castling);
    lemma_constructors_roundtrip(4, 6, PromoPiece::Queen);
    lemma_constructors_roundtrip(4, 2, PromoPiece::Queen);
    lemma_constructors_roundtrip(60, 62, PromoPiece::Queen);
    lemma_constructors_roundtrip(60, 58, PromoPiece::Queen);
    lemma_castle_in_tail(h, g, castling_move(4, 6));
    lemma_castle_in_tail(h, g, castling_move(4, 2));
    lemma_castle_in_tail(h, g, castling_move(60, 62));
    lemma_castle_in_tail(h, g, castling_move(60, 58));
    reveal(castling_moves_spec);
    let them = 1 - u;
    if u == 0 {
        let ka = pos.castling_rights & 1u8 != 0 && free_safe(pos, occ, 5, them) && free_safe(
            pos,
            occ,
            6,
            them,
        );
        let qa = pos.castling_rights & 2u8 != 0 && !bit(occ, 1) && free_safe(pos, occ, 2, them)
            && free_safe(pos, occ, 3, them);
        if !attacked_spec(pos, 4, them, occ) {
            lemma_two_options(ka, castling_move(4, 6), qa, castling_move(4, 2), castling_move(4, 6));
            lemma_two_options(ka, castling_move(4, 6), qa, castling_move(4, 2), castling_move(4, 2));
            lemma_two_options(ka, castling_move(4, 6), qa, castling_move(4, 2), castling_move(60, 62));
            lemma_two_options(ka, castling_move(4, 6), qa, castling_move(4, 2), castling_move(60, 58));
        } else {
            assert(g =~= Seq::<Move>::empty());
        }
    } else {
        let ka = pos.castling_rights & 4u8 != 0 && free_safe(pos, occ, 61, them) && free_safe(
            pos,
            occ,
            62,
            them,
        );
        let qa = pos.castling_rights & 8u8 != 0 && !bit(occ, 57) && free_safe(pos, occ, 58, them)
            && free_safe(pos, occ, 59, them);
        if !attacked_spec(pos, 60, them, occ) {
            lemma_two_options(ka, castling_move(60, 62), qa, castling_move(60, 58), castling_move(4, 6));
            lemma_two_options(ka, castling_move(60, 62), qa, castling_move(60, 58), castling_move(4, 2));
            lemma_two_options(ka, castling_move(60, 62), qa, castling_move(60, 58), castling_move(60, 62));
            lemma_two_options(ka, castling_move(60, 62), qa, castling_move(60, 58), castling_move(60, 58));
        } else {
            assert(g =~= Seq::<Move>::empty());
        }
    }
}

/// A move is in `a + b` exactly when it is in `a` or in `b`.
proof fn lemma_contains_concat(a: Seq<Move>, b: Seq<Move>, m: Move)
    ensures
        (a + b).contains(m) == (a.contains(m) || b.contains(m)),
{
    let s = a + b;
    if s.contains(m) {
        let i = choose|i: int| 0 <= i < s.len() && s[i] == m;
        if i < a.len() {
            assert(s[i] == a[i]);
        } else {
            assert(s[i] == b[i - a.len()]);
        }
    }
    if a.contains(m) {
        let i = choose|i: int| 0 <= i < a.len() && a[i] == m;
        assert(s[i] == a[i]);
    }
    if b.contains(m) {
        let j = choose|j: int| 0 <= j < b.len() && b[j] == m;
        assert(s[a.len() + j] == b[j]);
    }
}

/// The pawns' moves hold `m` exactly when a pawn stands on its from-square and that pawn's
/// moves hold it.
proof fn lemma_pawn_moves_of_contains(pos: Position, pawns: u64, m: Move)
    ensures
        pawn_moves_of(pos, pawns).contains(m) <==> bit(pawns, move_from(m) as int)
            && pawn_moves_from(pos, move_from(m)).contains(m),
    decreases pawns,
{
    if pawns != 0 {
        crate::board::bitboard::lemma_drop_lsb_smaller(pawns);
        lemma_lsb(pawns);
        let from = lsb_spec(pawns);
        let head = pawn_moves_from(pos, from as u8);
        let rest = pawn_moves_of(pos, drop_lsb(pawns));
        lemma_pawn_moves_of_contains(pos, drop_lsb(pawns), m);
        lemma_pawn_from_distinct(pos, from as u8);
        lemma_contains_concat(head, rest, m);
        if head.contains(m) {
            let i = choose|i: int| 0 <= i < head.len() && head[i] == m;
            assert(move_from(head[i]) == from);
        }
    }
}

/// For a pawn of the side to move on `from`, a plain or promoting move from `from` one or two
/// ranks straight ahead or back is among the pawn moves exactly when it is among its pushes.
proof fn lemma_push_only(pos: Position, from: u8, m: Move)
    requires
        from < 64,
        bit(pos.pieces[us(pos)][0], from as int),
        move_from(m) == from,
        move_kind(m) == MoveType::Normal || move_kind(m) == MoveType::Promotion,
        move_to(m) - from == 8 || move_to(m) - from == -8 || move_to(m) - from == 16 || move_to(m)
            - from == -16,
    ensures
        pawn_moves_spec(pos).contains(m) == pawn_pushes(pos, from).contains(m),
{
    reveal(pawn_moves_spec);
    let u = us(pos);
    let pushes = pawn_pushes(pos, from);
    let targets = pawn_attacks_spec(u, from as int) & pos.occupied_by[1 - u];
    let caps = pawn_captures(from, targets, promo_rank(u));
    let ep = pawn_ep(pos, from);
    lemma_pawn_captures_distinct(from, targets, promo_rank(u));
    if caps.contains(m) {
        let i = choose|i: int| 0 <= i < caps.len() && caps[i] == m;
        assert(bit(targets, move_to(caps[i]) as int));
        lemma_pawn_attack_distance(u, from as int, move_to(caps[i]) as int);
    }
    if ep.contains(m) {
        let i = choose|i: int| 0 <= i < ep.len() && ep[i] == m;
        match pos.en_passant {
            Some(e) => {
                assert(bit(pawn_attacks_spec(us(pos), from as int), e as int));
                lemma_constructors_roundtrip(from, e, PromoPiece::Queen);
            },
            None => {},
        }
    }
    lemma_pawn_moves_of_contains(pos, pos.pieces[u][0], m);
    lemma_contains_concat(pushes, caps, m);
    lemma_contains_concat(pushes + caps, ep, m);
}

/// The pushes of a pawn of the side to move: one square ahead onto an empty square, as a plain
/// move below the last rank and as the four promotions onto it; two squares ahead from the
/// starting rank when both squares are empty. White pawns move up the board, Black pawns
/// down.
pub proof fn lemma_pawn_push_rule(pos: Position, from: u8, p: PromoPiece)
    requires
        from < 64,
    ensures
        pos.side_to_move == Color::White && bit(pos.pieces[0][0], from as int) && from < 56 ==> {
            &&& pawn_moves_spec(pos).contains(normal_move(from, (from + 8) as u8)) <==> (from / 8
                != 6 && !bit(pos.occupied, from + 8))
            &&& pawn_moves_spec(pos).contains(promotion_move(from, (from + 8) as u8, p)) <==> (from
                / 8 == 6 && !bit(pos.occupied, from + 8))
            &&& from < 48 ==> (pawn_moves_spec(pos).contains(normal_move(from, (from + 16) as u8))
                <==> (from / 8 == 1 && !bit(pos.occupied, from + 8) && !bit(
                pos.occupied,
                from + 16,
            )))
        },
        pos.side_to_move == Color::Black && bit(pos.pieces[1][0], from as int) && from >= 8 ==> {
            &&& pawn_moves_spec(pos).contains(normal_move(from, (from - 8) as u8)) <==> (from / 8
                != 1 && !bit(pos.occupied, from - 8))
            &&& pawn_moves_spec(pos).contains(promotion_move(from, (from - 8) as u8, p)) <==> (from
                / 8 == 1 && !bit(pos.occupied, from - 8))
            &&& from >= 16 ==> (pawn_moves_spec(pos).contains(normal_move(from, (from - 16) as u8))
                <==> (from / 8 == 6 && !bit(pos.occupied, from - 8) && !bit(
                pos.occupied,
                from - 16,
            )))
        },
{
    let u = us(pos);
    let white = pos.side_to_move == Color::White;
    if (white && bit(pos.pieces[0][0], from as int) && from < 56) || (!white && bit(
        pos.pieces[1][0],
        from as int,
    ) && from >= 8) {
        let dir: int = if white {
            8
        } else {
            -8
        };
        assert(push_offset(u) == dir);
        let one = (from + dir) as u8;
        let m1 = normal_move(from, one);
        let mp = promotion_move(from, one, p);
        lemma_constructors_roundtrip(from, one, p);
        lemma_push_only(pos, from, m1);
        lemma_push_only(pos, from, mp);
        let two_ok = 0 <= from + 2 * dir < 64;
        let two = (from + 2 * dir) as u8;
        let md = normal_move(from, two);
        if two_ok {
            lemma_constructors_roundtrip(from, two, p);
            lemma_push_only(pos, from, md);
        }
        let pushes = pawn_pushes(pos, from);
        let empty = !pos.occupied;
        assert(bit(empty, one as int) == !bit(pos.occupied, one as int));
        if two_ok {
            assert(bit(empty, two as int) == !bit(pos.occupied, two as int));
        }
        if bit(empty, one as int) {
            if one / 8 == promo_rank(u) {
                lemma_constructors_roundtrip(from, one, PromoPiece::Queen);
                lemma_constructors_roundtrip(from, one, PromoPiece::Rook);
                lemma_constructors_roundtrip(from, one, PromoPiece::Bishop);
                lemma_constructors_roundtrip(from, one, PromoPiece::Knight);
                let ps = promotions(from, one);
                assert(pushes == ps);
                assert(ps[0] == promotion_move(from, one, PromoPiece::Queen));
                assert(ps[1] == promotion_move(from, one, PromoPiece::Rook));
                assert(ps[2] == promotion_move(from, one, PromoPiece::Bishop));
                assert(ps[3] == promotion_move(from, one, PromoPiece::Knight));
                assert(ps.contains(mp));
                if ps.contains(m1) {
                    let i = choose|i: int| 0 <= i < ps.len() && ps[i] == m1;
                }
                if two_ok && ps.contains(md) {
                    let i = choose|i: int| 0 <= i < ps.len() && ps[i] == md;
                }
            } else {
                let dbl = if from / 8 == start_rank(u) && 0 <= from + 2 * push_offset(u) < 64 && bit(
                    empty,
                    from + 2 * push_offset(u),
                ) {
                    seq![normal_move(from, (from + 2 * push_offset(u)) as u8)]
                } else {
                    Seq::empty()
                };
                let single = seq![m1];
                assert(pushes == single + dbl);
                lemma_contains_concat(single, dbl, m1);
                lemma_contains_concat(single, dbl, mp);
                assert(single[0] == m1);
                if single.contains(mp) {
                    let i = choose|i: int| 0 <= i < single.len() && single[i] == mp;
                }
                if dbl.contains(mp) {
                    let i = choose|i: int| 0 <= i < dbl.len() && dbl[i] == mp;
                }
                if two_ok {
                    lemma_contains_concat(single, dbl, md);
                    if single.contains(md) {
                        let i = choose|i: int| 0 <= i < single.len() && single[i] == md;
                    }
                    if dbl.len() > 0 {
                        assert(dbl[0] == md);
                    }
                    if dbl.contains(md) {
                        let i = choose|i: int| 0 <= i < dbl.len() && dbl[i] == md;
                    }
                }
            }
        } else {
            assert(pushes =~= Seq::<Move>::empty());
        }
    }
}

/// Pawn captures from `from` onto the squares of `targets` hold `m` exactly when `m` starts on
/// `from`, lands on a square of `targets` and is one of the pawn steps onto that square.
proof fn lemma_pawn_captures_contains(from: u8, targets: u64, pr: int, m: Move)
    requires
        from < 64,
    ensures
        pawn_captures(from, targets, pr).contains(m) <==> move_from(m) == from && bit(
            targets,
            move_to(m) as int,
        ) && pawn_step(from, move_to(m), pr).contains(m),
    decreases targets,
{
    if targets != 0 {
        crate::board::bitboard::lemma_drop_lsb_smaller(targets);
        lemma_lsb(targets);
        let to = lsb_spec(targets);
        let head = pawn_step(from, to as u8, pr);
        let rest = pawn_captures(from, drop_lsb(targets), pr);
        lemma_pawn_captures_contains(from, drop_lsb(targets), pr, m);
        lemma_pawn_step_distinct(from, to as u8, pr);
        lemma_contains_concat(head, rest, m);
        if head.contains(m) {
            let i = choose|i: int| 0 <= i < head.len() && head[i] == m;
            assert(move_to(head[i]) == to);
        }
    }
}

/// Every push of the pawn on `from` is a plain or promoting move from `from` that stays on
/// its file.
proof fn lemma_pushes_straight(pos: Position, from: u8, m: Move)
    requires
        from < 64,
        pawn_pushes(pos, from).contains(m),
    ensures
        move_from(m) == from,
        move_to(m) % 8 == from % 8,
        move_kind(m) == MoveType::Normal || move_kind(m) == MoveType::Promotion,
{
    let u = us(pos);
    let empty = !pos.occupied;
    let to_push = from + push_offset(u);
    let to_double = from + 2 * push_offset(u);
    let pushes = pawn_pushes(pos, from);
    let i = choose|i: int| 0 <= i < pushes.len() && pushes[i] == m;
    if 0 <= to_push < 64 && bit(empty, to_push) {
        if to_push / 8 == promo_rank(u) {
            lemma_pawn_step_distinct(from, to_push as u8, promo_rank(u));
            assert(pushes == pawn_step(from, to_push as u8, promo_rank(u)));
        } else {
            lemma_constructors_roundtrip(from, to_push as u8, PromoPiece::Queen);
            if from / 8 == start_rank(u) && 0 <= to_double < 64 && bit(empty, to_double) {
                lemma_constructors_roundtrip(from, to_double as u8, PromoPiece::Queen);
            }
        }
    }
}

/// The captures of a pawn of the side to move on `from` onto `to`, one file aside and one rank
/// ahead (up the board for White, down for Black): onto a piece of the other side, a plain
/// capture below the last rank and the four promotions on the last rank; onto the en passant
/// square, the en passant capture.
pub proof fn lemma_pawn_capture_rule(pos: Position, from: u8, to: u8, p: PromoPiece)
    requires
        from < 64,
        to < 64,
        bit(
            pos.pieces[if pos.side_to_move == Color::White {
                0int
            } else {
                1int
            }][0],
            from as int,
        ),
        to / 8 == from / 8 + (if pos.side_to_move == Color::White {
            1int
        } else {
            -1int
        }),
        to % 8 == from % 8 + 1 || to % 8 + 1 == from % 8,
    ensures
        pawn_moves_spec(pos).contains(normal_move(from, to)) <==> bit(
            pos.occupied_by[if pos.side_to_move == Color::White {
                1int
            } else {
                0int
            }],
            to as int,
        ) && to / 8 != (if pos.side_to_move == Color::White {
            7int
        } else {
            0int
        }),
        pawn_moves_spec(pos).contains(promotion_move(from, to, p)) <==> bit(
            pos.occupied_by[if pos.side_to_move == Color::White {
                1int
            } else {
                0int
            }],
            to as int,
        ) && to / 8 == (if pos.side_to_move == Color::White {
            7int
        } else {
            0int
        }),
        pawn_moves_spec(pos).contains(en_passant_move(from, to)) <==> pos.en_passant == Some(to),
{
    reveal(pawn_moves_spec);
    let u = us(pos);
    let f = from % 8;
    let r = from / 8;
    assert(to == (to / 8) * 8 + to % 8);
    let attacks = pawn_attacks_spec(u, from as int);
    assert(bit(attacks, to as int)) by {
        if u == 0 {
            if to % 8 + 1 == f {
                assert(sq_bit(f - 1, r + 1) == 1u64 << (to as u64));
            } else {
                assert(sq_bit(f + 1, r + 1) == 1u64 << (to as u64));
            }
        } else {
            if to % 8 + 1 == f {
                assert(sq_bit(f - 1, r - 1) == 1u64 << (to as u64));
            } else {
                assert(sq_bit(f + 1, r - 1) == 1u64 << (to as u64));
            }
        }
    }
    let targets = attacks & pos.occupied_by[1 - u];
    let pr = promo_rank(u);
    let pushes = pawn_pushes(pos, from);
    let caps = pawn_captures(from, targets, pr);
    let ep = pawn_ep(pos, from);
    let mn = normal_move(from, to);
    let mp = promotion_move(from, to, p);
    let me = en_passant_move(from, to);
    lemma_constructors_roundtrip(from, to, p);
    lemma_constructors_roundtrip(from, to, PromoPiece::Queen);
    lemma_constructors_roundtrip(from, to, PromoPiece::Rook);
    lemma_constructors_roundtrip(from, to, PromoPiece::Bishop);
    lemma_constructors_roundtrip(from, to, PromoPiece::Knight);
    lemma_pawn_moves_of_contains(pos, pos.pieces[u][0], mn);
    lemma_pawn_moves_of_contains(pos, pos.pieces[u][0], mp);
    lemma_pawn_moves_of_contains(pos, pos.pieces[u][0], me);
    // no push leaves the file
    if pushes.contains(mn) {
        lemma_pushes_straight(pos, from, mn);
    }
    if pushes.contains(mp) {
        lemma_pushes_straight(pos, from, mp);
    }
    if pushes.contains(me) {
        lemma_pushes_straight(pos, from, me);
    }
    // the captures
    lemma_pawn_captures_contains(from, targets, pr, mn);
    lemma_pawn_captures_contains(from, targets, pr, mp);
    lemma_pawn_captures_contains(from, targets, pr, me);
    lemma_pawn_step_distinct(from, to, pr);
    let st = pawn_step(from, to, pr);
    if to / 8 == pr {
        assert(st == promotions(from, to));
        assert(st[0] == promotion_move(from, to, PromoPiece::Queen));
        assert(st[1] == promotion_move(from, to, PromoPiece::Rook));
        assert(st[2] == promotion_move(from, to, PromoPiece::Bishop));
        assert(st[3] == promotion_move(from, to, PromoPiece::Knight));
        assert(st.contains(mp));
        if st.contains(mn) {
            let i = choose|i: int| 0 <= i < st.len() && st[i] == mn;
        }
    } else {
        assert(st == seq![mn]);
        assert(st[0] == mn);
        if st.contains(mp) {
            let i = choose|i: int| 0 <= i < st.len() && st[i] == mp;
        }
    }
    if st.contains(me) {
        let i = choose|i: int| 0 <= i < st.len() && st[i] == me;
    }
    // the en passant capture
    match pos.en_passant {
        Some(e) => {
            if bit(attacks, e as int) {
                lemma_constructors_roundtrip(from, e, PromoPiece::Queen);
                assert(ep == seq![en_passant_move(from, e)]);
                assert(ep[0] == en_passant_move(from, e));
                if e == to {
                    assert(ep.contains(me));
                }
            } else {
                assert(ep =~= Seq::<Move>::empty());
            }
        },
        None => {
            assert(ep =~= Seq::<Move>::empty());
        },
    }
    if ep.contains(mn) || ep.contains(mp) || ep.contains(me) {
        let i = choose|i: int| 0 <= i < ep.len() && (ep[i] == mn || ep[i] == mp || ep[i] == me);
    }
    lemma_contains_concat(pushes, caps, mn);
    lemma_contains_concat(pushes + caps, ep, mn);
    lemma_contains_concat(pushes, caps, mp);
    lemma_contains_concat(pushes + caps, ep, mp);
    lemma_contains_concat(pushes, caps, me);
    lemma_contains_concat(pushes + caps, ep, me);
}

} // verus!
