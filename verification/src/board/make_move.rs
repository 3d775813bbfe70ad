use vstd::prelude::*;
use crate::board::bitboard::{bit, clear_bit, get_bit, group_bit_lemmas, lemma_bit_ext, set_bit};
use crate::board::position::{
    ci, color_index, color_of, occupancy_ok, pi, piece_at_from, piece_at_spec, piece_index,
    ptype_of, with_occupancy, Color, PieceType, Position,
};
use crate::movegen::moves::{
    lemma_square_fields, move_from, move_kind, move_promo, move_to, Move, MoveType, PromoPiece,
};

verus! {

broadcast use group_bit_lemmas;

#[derive(Copy, Clone, Debug)]
pub struct UnmakeInfo {
    pub captured_piece: Option<PieceType>,
    pub prev_castling_rights: u8,
    pub prev_en_passant: Option<u8>,
    pub prev_halfmove_clock: u16,
}

/// `bb` with square `s` added.
pub open spec fn add_sq(bb: u64, s: int) -> u64 {
    bb | (1u64 << (s as u64))
}

/// `bb` with square `s` removed.
pub open spec fn del_sq(bb: u64, s: int) -> u64 {
    bb & !(1u64 << (s as u64))
}

pub broadcast proof fn lemma_add_sq(bb: u64, s: int, i: int)
    requires
        0 <= s < 64,
    ensures
        #[trigger] bit(add_sq(bb, s), i) == (bit(bb, i) || i == s),
{
    assert(bit(1u64 << (s as u64), i) == (i == s));
}

/// The piece bitboards `p` with the board of color slot `c` and piece slot `k` set to `v`.
pub open spec fn upd(p: [[u64; 6]; 2], c: int, k: int, v: u64) -> [[u64; 6]; 2] {
    [
        [if c == 0 && k == 0 { v } else { p[0][0] }, if c == 0 && k == 1 { v } else { p[0][1] }, if c == 0 && k == 2 { v } else { p[0][2] }, if c == 0 && k == 3 { v } else { p[0][3] }, if c == 0 && k == 4 { v } else { p[0][4] }, if c == 0 && k == 5 { v } else { p[0][5] }],
        [if c == 1 && k == 0 { v } else { p[1][0] }, if c == 1 && k == 1 { v } else { p[1][1] }, if c == 1 && k == 2 { v } else { p[1][2] }, if c == 1 && k == 3 { v } else { p[1][3] }, if c == 1 && k == 4 { v } else { p[1][4] }, if c == 1 && k == 5 { v } else { p[1][5] }],
    ]
}

/// The piece slot of a promotion piece.
pub open spec fn promo_slot(p: PromoPiece) -> int {
    match p {
        PromoPiece::Knight => 1,
        PromoPiece::Bishop => 2,
        PromoPiece::Rook => 3,
        PromoPiece::Queen => 4,
    }
}

/// The rook's from- and to-square of a castling move whose king lands on `to`, if any.
pub open spec fn castle_rook(to: int) -> Option<(int, int)> {
    if to == 6 {
        Some((7, 5))
    } else if to == 2 {
        Some((0, 3))
    } else if to == 62 {
        Some((63, 61))
    } else if to == 58 {
        Some((56, 59))
    } else {
        None
    }
}

/// The castling rights kept when a move leaves or lands on `sq`: moving the king or a rook
/// from its home square, or capturing on a rook's home square, gives up the rights it served.
pub open spec fn rights_keep(sq: int) -> u8 {
    if sq == 0 {
        0xFD
    } else if sq == 4 {
        0xFC
    } else if sq == 7 {
        0xFE
    } else if sq == 56 {
        0xF7
    } else if sq == 60 {
        0xF3
    } else if sq == 63 {
        0xFB
    } else {
        0xFF
    }
}

/// The piece slot of the piece on `from`.
pub open spec fn moving_slot(pos: Position, m: Move) -> int {
    match piece_at_spec(pos, move_from(m) as int) {
        Some((_, pt)) => pi(pt),
        None => 0,
    }
}

/// The piece type on the to-square, whatever its color.
pub open spec fn captured_spec(pos: Position, m: Move) -> Option<PieceType> {
    match piece_at_spec(pos, move_to(m) as int) {
        Some((_, pt)) => Some(pt),
        None => None,
    }
}

/// `make_move` does not panic: a piece stands on the from-square and the move counters do not
/// overflow.
pub open spec fn make_ok(pos: Position, m: Move) -> bool {
    &&& piece_at_spec(pos, move_from(m) as int) is Some
    &&& (moving_slot(pos, m) == 0 || captured_spec(pos, m) is Some || pos.halfmove_clock < 0xFFFF)
    &&& (pos.side_to_move == Color::White || pos.fullmove_number < 0xFFFF)
}

/// The piece bitboards after a move: the capture on the to-square is taken off (not for en
/// passant), the moving piece goes from the from-square to the to-square, then a promotion
/// turns the pawn into the promotion piece, an en passant capture takes off the pawn passed
/// by, and castling moves the rook.
pub open spec fn make_pieces(pos: Position, m: Move) -> [[u64; 6]; 2] {
    let u = ci(pos.side_to_move);
    let t = 1 - u;
    let from = move_from(m) as int;
    let to = move_to(m) as int;
    let mp = moving_slot(pos, m);
    let kind = move_kind(m);
    let p0 = pos.pieces;
    let p1 = match captured_spec(pos, m) {
        Some(c) => if kind != MoveType::EnPassant {
            upd(p0, t, pi(c), del_sq(p0[t][pi(c)], to))
        } else {
            p0
        },
        None => p0,
    };
    let p2 = upd(p1, u, mp, add_sq(del_sq(p1[u][mp], from), to));
    if kind == MoveType::Promotion {
        let p3 = upd(p2, u, 0, del_sq(p2[u][0], to));
        let k = promo_slot(move_promo(m));
        upd(p3, u, k, add_sq(p3[u][k], to))
    } else if kind == MoveType::EnPassant {
        upd(p2, t, 0, del_sq(p2[t][0], (move_to(m) ^ 8u8) as int))
    } else if kind == MoveType::Castling {
        match castle_rook(to) {
            Some((rf, rt)) => upd(p2, u, 3, add_sq(del_sq(p2[u][3], rf), rt)),
            None => p2,
        }
    } else {
        p2
    }
}

/// The position and undo record `make_move` gives.
pub open spec fn make_spec(pos: Position, m: Move) -> (Position, UnmakeInfo) {
    let from = move_from(m) as int;
    let to = move_to(m) as int;
    let mp = moving_slot(pos, m);
    let cap = captured_spec(pos, m);
    let info = UnmakeInfo {
        captured_piece: cap,
        prev_castling_rights: pos.castling_rights,
        prev_en_passant: pos.en_passant,
        prev_halfmove_clock: pos.halfmove_clock,
    };
    let next = Position {
        pieces: make_pieces(pos, m),
        castling_rights: pos.castling_rights & rights_keep(from) & rights_keep(to),
        halfmove_clock: if mp == 0 || cap is Some {
            0
        } else {
            (pos.halfmove_clock + 1) as u16
        },
        en_passant: if mp == 0 && (to - from == 16 || from - to == 16) {
            Some(((from + to) / 2) as u8)
        } else {
            None
        },
        side_to_move: pos.side_to_move.spec_opposite(),
        fullmove_number: if pos.side_to_move == Color::Black {
            (pos.fullmove_number + 1) as u16
        } else {
            pos.fullmove_number
        },
        ..pos
    };
    (with_occupancy(next), info)
}

/// The first piece slot from `k` on whose bitboard of color slot `c` holds `sq`.
pub open spec fn slot_from(p: [[u64; 6]; 2], c: int, sq: int, k: int) -> Option<int>
    decreases 6 - k,
{
    if k < 0 || k >= 6 {
        None
    } else if bit(p[c][k], sq) {
        Some(k)
    } else {
        slot_from(p, c, sq, k + 1)
    }
}

/// `unmake_move` does not panic: the move number does not go below zero.
pub open spec fn unmake_ok(pos: Position) -> bool {
    pos.side_to_move == Color::White ==> pos.fullmove_number > 0
}

/// The piece bitboards after taking back `m`: castling puts the rook back, a promotion turns
/// the piece back into a pawn on the from-square, otherwise the mover's piece on the to-square
/// goes back to the from-square; then the captured piece (or the pawn taken en passant)
/// returns.
pub open spec fn unmake_pieces(pos: Position, m: Move, info: UnmakeInfo) -> [[u64; 6]; 2] {
    let t = ci(pos.side_to_move);
    let u = 1 - t;
    let from = move_from(m) as int;
    let to = move_to(m) as int;
    let kind = move_kind(m);
    let p0 = pos.pieces;
    let p1 = if kind == MoveType::Promotion {
        let k = promo_slot(move_promo(m));
        let a = upd(p0, u, k, del_sq(p0[u][k], to));
        upd(a, u, 0, add_sq(a[u][0], from))
    } else {
        let p = if kind == MoveType::Castling {
            match castle_rook(to) {
                Some((rf, rt)) => upd(p0, u, 3, add_sq(del_sq(p0[u][3], rt), rf)),
                None => p0,
            }
        } else {
            p0
        };
        match slot_from(p, u, to, 0) {
            Some(k) => upd(p, u, k, add_sq(del_sq(p[u][k], to), from)),
            None => p,
        }
    };
    if kind == MoveType::EnPassant {
        upd(p1, t, 0, add_sq(p1[t][0], (move_to(m) ^ 8u8) as int))
    } else {
        match info.captured_piece {
            Some(c) => upd(p1, t, pi(c), add_sq(p1[t][pi(c)], to)),
            None => p1,
        }
    }
}

/// The position `unmake_move` gives.
pub open spec fn unmake_spec(pos: Position, m: Move, info: UnmakeInfo) -> Position {
    let mover = pos.side_to_move.spec_opposite();
    with_occupancy(
        Position {
            pieces: unmake_pieces(pos, m, info),
            side_to_move: mover,
            fullmove_number: if mover == Color::Black {
                (pos.fullmove_number - 1) as u16
            } else {
                pos.fullmove_number
            },
            castling_rights: info.prev_castling_rights,
            en_passant: info.prev_en_passant,
            halfmove_clock: info.prev_halfmove_clock,
            ..pos
        },
    )
}

/// Two piece arrays with the same 12 bitboards are equal.
pub proof fn lemma_pieces_ext(a: [[u64; 6]; 2], b: [[u64; 6]; 2])
    requires
        forall|c: int, k: int| 0 <= c < 2 && 0 <= k < 6 ==> a[c][k] == b[c][k],
    ensures
        a == b,
{
    assert(a[0] =~= b[0]);
    assert(a[1] =~= b[1]);
    assert(a =~= b);
}

/// Writing bitboard `[c][k]` gives `upd`.
proof fn lemma_upd_write(p: [[u64; 6]; 2], q: [[u64; 6]; 2], c: int, k: int, v: u64)
    requires
        0 <= c < 2,
        0 <= k < 6,
        q[c][k] == v,
        forall|c2: int, k2: int|
            0 <= c2 < 2 && 0 <= k2 < 6 && (c2 != c || k2 != k) ==> q[c2][k2] == p[c2][k2],
    ensures
        q == upd(p, c, k, v),
{
    lemma_pieces_ext(q, upd(p, c, k, v));
}

/// The castling rights kept by a move touching `sq`.
fn rights_keep_exec(sq: u8) -> (r: u8)
    ensures
        r == rights_keep(sq as int),
{
    if sq == 0 {
        0xFD
    } else if sq == 4 {
        0xFC
    } else if sq == 7 {
        0xFE
    } else if sq == 56 {
        0xF7
    } else if sq == 60 {
        0xF3
    } else if sq == 63 {
        0xFB
    } else {
        0xFF
    }
}

impl Position {
    /// Writes bitboard `[c][k]`.
    fn set_board(&mut self, c: usize, k: usize, v: u64)
        requires
            c < 2,
            k < 6,
        ensures
            *final(self) == (Position { pieces: upd(old(self).pieces, c as int, k as int, v), ..*old(self) }),
    {
        let mut row = self.pieces[c];
        row[k] = v;
        self.pieces[c] = row;
        proof {
            lemma_upd_write(old(self).pieces, self.pieces, c as int, k as int, v);
        }
    }

    /// Plays `m`: takes off a captured piece, moves the piece, handles promotion, en passant
    /// and castling, updates castling rights, the en passant square, the clocks and the side to
    /// move, and returns what `unmake_move` needs to take the move back.
    pub fn make_move(&mut self, m: Move) -> (info: UnmakeInfo)
        requires
            make_ok(*old(self), m),
        ensures
            (*final(self), info) == make_spec(*old(self), m),
    {
        let us = self.side_to_move;
        let them = us.opposite();
        let u = color_index(us);
        let t = color_index(them);
        let from = m.from();
        let to = m.to();
        let moving_pt = match self.piece_at(from) {
            Some((_, pt)) => pt,
            None => PieceType::Pawn,
        };
        let captured = match self.piece_at(to) {
            Some((_, pt)) => Some(pt),
            None => None,
        };
        let info = UnmakeInfo {
            captured_piece: captured,
            prev_castling_rights: self.castling_rights,
            prev_en_passant: self.en_passant,
            prev_halfmove_clock: self.halfmove_clock,
        };
        let kind = m.move_type();
        let ghost p0 = self.pieces;
        // Remove the captured piece (en passant is handled below)
        if kind != MoveType::EnPassant {
            if let Some(captured_pt) = captured {
                let c = piece_index(captured_pt);
                let v = clear_bit(self.pieces[t][c], to);
                self.set_board(t, c, v);
            }
        }
        // Move the piece: clear from-square, set to-square
        let mp = piece_index(moving_pt);
        let v = set_bit(clear_bit(self.pieces[u][mp], from), to);
        self.set_board(u, mp, v);
        match kind {
            MoveType::Promotion => {
                let v = clear_bit(self.pieces[u][0], to);
                self.set_board(u, 0, v);
                let k: usize = match m.promo_piece() {
                    PromoPiece::Knight => 1,
                    PromoPiece::Bishop => 2,
                    PromoPiece::Rook => 3,
                    PromoPiece::Queen => 4,
                };
                let v = set_bit(self.pieces[u][k], to);
                self.set_board(u, k, v);
            },
            MoveType::EnPassant => {
                let victim = to ^ 8;
                proof {
                    lemma_xor8(to);
                }
                let v = clear_bit(self.pieces[t][0], victim);
                self.set_board(t, 0, v);
            },
            MoveType::Castling => {
                let rook: Option<(u8, u8)> = if to == 6 {
                    Some((7, 5))
                } else if to == 2 {
                    Some((0, 3))
                } else if to == 62 {
                    Some((63, 61))
                } else if to == 58 {
                    Some((56, 59))
                } else {
                    None
                };
                if let Some((rf, rt)) = rook {
                    let v = set_bit(clear_bit(self.pieces[u][3], rf), rt);
                    self.set_board(u, 3, v);
                }
            },
            MoveType::Normal => {},
        }
        assert(self.pieces == make_pieces(*old(self), m));
        self.castling_rights = self.castling_rights & rights_keep_exec(from) & rights_keep_exec(to);
        // Reset halfmove clock on pawn move or capture, otherwise increment
        if mp == 0 || captured.is_some() {
            self.halfmove_clock = 0;
        } else {
            self.halfmove_clock = self.halfmove_clock + 1;
        }
        // A double pawn push leaves the passed square as en passant target for one ply
        if mp == 0 && (to as i32 - from as i32 == 16 || from as i32 - to as i32 == 16) {
            self.en_passant = Some((from + to) / 2);
        } else {
            self.en_passant = None;
        }
        self.side_to_move = them;
        if us == Color::Black {
            self.fullmove_number = self.fullmove_number + 1;
        }
        self.update_occupancy();
        info
    }
    /// The first piece slot of color slot `c` whose bitboard holds `sq`.
    fn slot_at(&self, c: usize, sq: u8) -> (r: Option<usize>)
        requires
            c < 2,
            sq < 64,
        ensures
            r matches Some(k) ==> k < 6 && slot_from(self.pieces, c as int, sq as int, 0) == Some(
                k as int,
            ),
            r is None ==> slot_from(self.pieces, c as int, sq as int, 0) is None,
    {
        let mut k: usize = 0;
        while k < 6
            invariant
                k <= 6,
                c < 2,
                sq < 64,
                slot_from(self.pieces, c as int, sq as int, 0) == slot_from(
                    self.pieces,
                    c as int,
                    sq as int,
                    k as int,
                ),
            decreases 6 - k,
        {
            if get_bit(self.pieces[c][k], sq) {
                return Some(k);
            }
            k += 1;
        }
        None
    }

    /// Takes back `m`, given the record `make_move` returned for it.
    pub fn unmake_move(&mut self, m: Move, info: UnmakeInfo)
        requires
            unmake_ok(*old(self)),
        ensures
            *final(self) == unmake_spec(*old(self), m, info),
    {
        let them = self.side_to_move;
        let us = them.opposite();
        let u = color_index(us);
        let t = color_index(them);
        let from = m.from();
        let to = m.to();
        let kind = m.move_type();
        if kind == MoveType::Promotion {
            let k: usize = match m.promo_piece() {
                PromoPiece::Knight => 1,
                PromoPiece::Bishop => 2,
                PromoPiece::Rook => 3,
                PromoPiece::Queen => 4,
            };
            let v = clear_bit(self.pieces[u][k], to);
            self.set_board(u, k, v);
            let v = set_bit(self.pieces[u][0], from);
            self.set_board(u, 0, v);
        } else {
            if kind == MoveType::Castling {
                let rook: Option<(u8, u8)> = if to == 6 {
                    Some((7, 5))
                } else if to == 2 {
                    Some((0, 3))
                } else if to == 62 {
                    Some((63, 61))
                } else if to == 58 {
                    Some((56, 59))
                } else {
                    None
                };
                if let Some((rf, rt)) = rook {
                    let v = set_bit(clear_bit(self.pieces[u][3], rt), rf);
                    self.set_board(u, 3, v);
                }
            }
            if let Some(k) = self.slot_at(u, to) {
                let v = set_bit(clear_bit(self.pieces[u][k], to), from);
                self.set_board(u, k, v);
            }
        }
        if kind == MoveType::EnPassant {
            let victim = to ^ 8;
            proof {
                    lemma_xor8(to);
                }
            let v = set_bit(self.pieces[t][0], victim);
            self.set_board(t, 0, v);
        } else if let Some(c) = info.captured_piece {
            let k = piece_index(c);
            let v = set_bit(self.pieces[t][k], to);
            self.set_board(t, k, v);
        }
        assert(self.pieces == unmake_pieces(*old(self), m, info));
        self.side_to_move = us;
        if us == Color::Black {
            self.fullmove_number = self.fullmove_number - 1;
        }
        self.castling_rights = info.prev_castling_rights;
        self.en_passant = info.prev_en_passant;
        self.halfmove_clock = info.prev_halfmove_clock;
        self.update_occupancy();
    }
}


/// No square holds two pieces.
pub open spec fn pieces_disjoint(p: [[u64; 6]; 2]) -> bool {
    forall|c1: int, k1: int, c2: int, k2: int, i: int|
        0 <= c1 < 2 && 0 <= k1 < 6 && 0 <= c2 < 2 && 0 <= k2 < 6 && 0 <= i < 64 && #[trigger] bit(
            p[c1][k1],
            i,
        ) && #[trigger] bit(p[c2][k2], i) ==> c1 == c2 && k1 == k2
}

/// `m` is a move of the side to move that the board allows to be played and taken back: its
/// own piece stands on the from-square, the to-square holds no piece of its own, a promotion
/// or an en passant capture moves a pawn, an en passant capture lands on an empty square
/// beside the enemy pawn it takes, and castling finds its rook at home and the rook's and
/// the king's target squares empty.
pub open spec fn move_fits(pos: Position, m: Move) -> bool {
    let from = move_from(m) as int;
    let to = move_to(m) as int;
    let kind = move_kind(m);
    let us = pos.side_to_move;
    let them = us.spec_opposite();
    &&& from != to
    &&& piece_at_spec(pos, from) matches Some((c, _)) && c == us
    &&& piece_at_spec(pos, to) matches Some((c, _)) ==> c == them
    &&& kind == MoveType::Promotion ==> moving_slot(pos, m) == 0
    &&& kind == MoveType::EnPassant ==> {
        &&& moving_slot(pos, m) == 0
        &&& piece_at_spec(pos, to) is None
        &&& piece_at_spec(pos, (move_to(m) ^ 8u8) as int) == Some((them, PieceType::Pawn))
    }
    &&& kind == MoveType::Castling ==> (castle_rook(to) matches Some((rf, rt)) ==> {
        &&& piece_at_spec(pos, rf) == Some((us, PieceType::Rook))
        &&& piece_at_spec(pos, rt) is None
        &&& piece_at_spec(pos, to) is None
        &&& from != rf
        &&& from != rt
    })
}

/// On a board where no square holds two pieces, `piece_at_spec` names the one bitboard that
/// holds the square.
pub proof fn lemma_piece_at_bits(pos: Position, sq: int)
    requires
        pieces_disjoint(pos.pieces),
        0 <= sq < 64,
    ensures
        forall|c: int, k: int|
            0 <= c < 2 && 0 <= k < 6 && #[trigger] bit(pos.pieces[c][k], sq) ==> piece_at_spec(
                pos,
                sq,
            ) == Some((color_of(c), ptype_of(k))),
        piece_at_spec(pos, sq) is None ==> forall|c: int, k: int|
            0 <= c < 2 && 0 <= k < 6 ==> !#[trigger] bit(pos.pieces[c][k], sq),
        piece_at_spec(pos, sq) matches Some((c, pt)) ==> bit(pos.pieces[ci(c)][pi(pt)], sq),
{
    reveal_with_fuel(piece_at_from, 13);
    let p = pos.pieces;
    assert forall|c: int, k: int|
        0 <= c < 2 && 0 <= k < 6 && #[trigger] bit(p[c][k], sq) implies piece_at_spec(pos, sq)
        == Some((color_of(c), ptype_of(k))) by {
        assert forall|c2: int, k2: int|
            0 <= c2 < 2 && 0 <= k2 < 6 && (c2 != c || k2 != k) implies !bit(p[c2][k2], sq) by {
            if bit(p[c2][k2], sq) {
                assert(c2 == c && k2 == k);
            }
        }
        assert(bit(p[0][0], sq) == (c == 0 && k == 0));
        assert(bit(p[0][1], sq) == (c == 0 && k == 1));
        assert(bit(p[0][2], sq) == (c == 0 && k == 2));
        assert(bit(p[0][3], sq) == (c == 0 && k == 3));
        assert(bit(p[0][4], sq) == (c == 0 && k == 4));
        assert(bit(p[0][5], sq) == (c == 0 && k == 5));
        assert(bit(p[1][0], sq) == (c == 1 && k == 0));
        assert(bit(p[1][1], sq) == (c == 1 && k == 1));
        assert(bit(p[1][2], sq) == (c == 1 && k == 2));
        assert(bit(p[1][3], sq) == (c == 1 && k == 3));
        assert(bit(p[1][4], sq) == (c == 1 && k == 4));
        assert(bit(p[1][5], sq) == (c == 1 && k == 5));
    }
}

/// The slot search on a square that exactly one bitboard of color slot `c` holds finds it.
proof fn lemma_slot_from_unique(p: [[u64; 6]; 2], c: int, sq: int, k0: int)
    requires
        0 <= c < 2,
        0 <= k0 < 6,
        bit(p[c][k0], sq),
        forall|k: int| 0 <= k < 6 && k != k0 ==> !#[trigger] bit(p[c][k], sq),
    ensures
        slot_from(p, c, sq, 0) == Some(k0),
{
    reveal_with_fuel(slot_from, 7);
    assert(bit(p[c][0], sq) == (k0 == 0));
    assert(bit(p[c][1], sq) == (k0 == 1));
    assert(bit(p[c][2], sq) == (k0 == 2));
    assert(bit(p[c][3], sq) == (k0 == 3));
    assert(bit(p[c][4], sq) == (k0 == 4));
    assert(bit(p[c][5], sq) == (k0 == 5));
}

/// Flipping bit 3 of a square moves it one rank and stays on the board.
pub proof fn lemma_xor8(v: u8)
    ensures
        v < 64 ==> (v ^ 8u8) < 64 && (v ^ 8u8) != v,
{
    assert(v < 64 ==> (v ^ 8u8) < 64 && (v ^ 8u8) != v) by (bit_vector);
}

/// Taking back a move that fits the board restores the position exactly: the piece
/// bitboards, the occupancy, the side to move, the castling rights, the en passant square and
/// both clocks.
pub proof fn lemma_unmake_undoes_make(pos: Position, m: Move)
    requires
        pieces_disjoint(pos.pieces),
        occupancy_ok(pos),
        make_ok(pos, m),
        move_fits(pos, m),
    ensures
        unmake_ok(make_spec(pos, m).0),
        unmake_spec(make_spec(pos, m).0, m, make_spec(pos, m).1) == pos,
{
    let next = make_spec(pos, m).0;
    let info = make_spec(pos, m).1;
    let p = pos.pieces;
    let q = next.pieces;
    let r = unmake_pieces(next, m, info);
    let from = move_from(m) as int;
    let to = move_to(m) as int;
    let u = ci(pos.side_to_move);
    let t = 1 - u;
    let mp = moving_slot(pos, m);
    let kind = move_kind(m);
    lemma_square_fields(m@);
    lemma_piece_at_bits(pos, from);
    lemma_piece_at_bits(pos, to);
    assert(bit(p[u][mp], from));
    assert(ci(next.side_to_move) == t);
    if kind == MoveType::EnPassant {
        let v = move_to(m) ^ 8u8;
        lemma_xor8(move_to(m));
        lemma_piece_at_bits(pos, v as int);
    }
    if kind == MoveType::Castling {
        if let Some((rf, rt)) = castle_rook(to) {
            lemma_piece_at_bits(pos, rf);
            lemma_piece_at_bits(pos, rt);
        }
    }
    let pc = if kind == MoveType::Castling {
        match castle_rook(to) {
            Some((rf, rt)) => upd(q, u, 3, add_sq(del_sq(q[u][3], rt), rf)),
            None => q,
        }
    } else {
        q
    };
    if kind != MoveType::Promotion {
        assert forall|k: int| 0 <= k < 6 && k != mp implies !#[trigger] bit(pc[u][k], to) by {
            assert(!bit(p[u][k], to));
        }
        assert(bit(pc[u][mp], to));
        lemma_slot_from_unique(pc, u, to, mp);
    }
    assert forall|c: int, k: int| 0 <= c < 2 && 0 <= k < 6 implies #[trigger] r[c][k] == p[c][k] by {
        assert forall|i: int| 0 <= i < 64 implies bit(r[c][k], i) == bit(p[c][k], i) by {
            if bit(p[c][k], from) {
                assert(c == u && k == mp);
            }
        }
        lemma_bit_ext(r[c][k], p[c][k]);
    }
    lemma_pieces_ext(r, p);
    let back = unmake_spec(next, m, info);
    assert(back.pieces == p);
    assert(back.occupied_by =~= pos.occupied_by);
    assert(back.occupied == pos.occupied);
    assert(back.side_to_move == pos.side_to_move);
    assert(back.fullmove_number == pos.fullmove_number);
    assert(back == pos);
}


/// Playing a move that fits the board keeps every square holding at most one piece, and the
/// occupancy fields agree with the pieces afterwards.
pub proof fn lemma_make_keeps_disjoint(pos: Position, m: Move)
    requires
        pieces_disjoint(pos.pieces),
        move_fits(pos, m),
    ensures
        pieces_disjoint(make_spec(pos, m).0.pieces),
        occupancy_ok(make_spec(pos, m).0),
{
    let p = pos.pieces;
    let q = make_spec(pos, m).0.pieces;
    let from = move_from(m) as int;
    let to = move_to(m) as int;
    let u = ci(pos.side_to_move);
    let mp = moving_slot(pos, m);
    let kind = move_kind(m);
    lemma_square_fields(m@);
    lemma_piece_at_bits(pos, from);
    lemma_piece_at_bits(pos, to);
    assert(bit(p[u][mp], from));
    if kind == MoveType::EnPassant {
        let v = move_to(m) ^ 8u8;
        lemma_xor8(move_to(m));
        lemma_piece_at_bits(pos, v as int);
    }
    if kind == MoveType::Castling {
        if let Some((rf, rt)) = castle_rook(to) {
            lemma_piece_at_bits(pos, rf);
            lemma_piece_at_bits(pos, rt);
        }
    }
    assert forall|c1: int, k1: int, c2: int, k2: int, i: int|
        0 <= c1 < 2 && 0 <= k1 < 6 && 0 <= c2 < 2 && 0 <= k2 < 6 && 0 <= i < 64 && #[trigger] bit(
            q[c1][k1],
            i,
        ) && #[trigger] bit(q[c2][k2], i) implies c1 == c2 && k1 == k2 by {
        if bit(p[c1][k1], i) && bit(p[c2][k2], i) {
            assert(c1 == c2 && k1 == k2);
        }
    }
}

} // verus!
