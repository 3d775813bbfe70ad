use vstd::prelude::*;
use crate::text::push_char;

verus! {

/// A move packed into 16 bits: from-square (bits 0-5), to-square (bits 6-11),
/// promotion piece (bits 12-13) and move type (bits 14-15).
#[derive(Copy, Clone, PartialEq, Eq, Debug, Structural)]
pub struct Move(u16);

#[derive(Copy, Clone, PartialEq, Eq, Debug, Structural)]
pub enum MoveType {
    Normal,
    Promotion,
    EnPassant,
    Castling,
}

#[derive(Copy, Clone, PartialEq, Eq, Debug, Structural)]
pub enum PromoPiece {
    Knight,
    Bishop,
    Rook,
    Queen,
}

const FROM_MASK: u16 = 0b0000_0000_0011_1111;

const TO_SHIFT: u16 = 6;

const TO_MASK: u16 = 0b0000_1111_1100_0000;

const PROMO_SHIFT: u16 = 12;

const PROMO_MASK: u16 = 0b0011_0000_0000_0000;

const TYPE_SHIFT: u16 = 14;

const TYPE_MASK: u16 = 0b1100_0000_0000_0000;

pub const MAX_MOVES: usize = 256;

impl View for Move {
    type V = u16;

    /// The 16-bit code of the move.
    closed spec fn view(&self) -> u16 {
        self.0
    }
}

/// The move whose code is `c`.
pub closed spec fn move_of_code(c: u16) -> Move {
    Move(c)
}

pub broadcast proof fn lemma_move_of_code(c: u16)
    ensures
        #[trigger] move_of_code(c)@ == c,
{
}

pub broadcast proof fn lemma_move_code_eq(a: Move, b: Move)
    ensures
        #![trigger a@, b@]
        (a@ == b@) == (a == b),
{
}

pub broadcast group group_move_lemmas {
    lemma_move_of_code,
    lemma_move_code_eq,
}

/// The number of a promotion piece in the code.
pub open spec fn promo_code(p: PromoPiece) -> u16 {
    match p {
        PromoPiece::Knight => 0,
        PromoPiece::Bishop => 1,
        PromoPiece::Rook => 2,
        PromoPiece::Queen => 3,
    }
}

/// The code of a move with the given parts.
pub open spec fn encode(from: u8, to: u8, promo: u16, kind: u16) -> u16 {
    (from as u16) | ((to as u16) << 6u16) | (promo << 12u16) | (kind << 14u16)
}

/// The move `Move::new(from, to)` builds.
pub open spec fn normal_move(from: u8, to: u8) -> Move {
    move_of_code(encode(from, to, 0, 0))
}

pub open spec fn promotion_move(from: u8, to: u8, p: PromoPiece) -> Move {
    move_of_code(encode(from, to, promo_code(p), 1))
}

pub open spec fn en_passant_move(from: u8, to: u8) -> Move {
    move_of_code(encode(from, to, 0, 2))
}

pub open spec fn castling_move(from: u8, to: u8) -> Move {
    move_of_code(encode(from, to, 0, 3))
}

/// The from-square field of a move.
pub open spec fn move_from(m: Move) -> u8 {
    (m@ & 0x3F) as u8
}

/// The to-square field of a move.
pub open spec fn move_to(m: Move) -> u8 {
    ((m@ & 0xFC0) >> 6u16) as u8
}

pub open spec fn move_kind(m: Move) -> MoveType {
    let t = (m@ & 0xC000) >> 14u16;
    if t == 0 {
        MoveType::Normal
    } else if t == 1 {
        MoveType::Promotion
    } else if t == 2 {
        MoveType::EnPassant
    } else {
        MoveType::Castling
    }
}

pub open spec fn move_promo(m: Move) -> PromoPiece {
    let p = (m@ & 0x3000) >> 12u16;
    if p == 0 {
        PromoPiece::Knight
    } else if p == 1 {
        PromoPiece::Bishop
    } else if p == 2 {
        PromoPiece::Rook
    } else {
        PromoPiece::Queen
    }
}

/// The from- and to-square fields of a move code name squares of the board.
pub proof fn lemma_square_fields(x: u16)
    ensures
        (x & 0x3F) < 64,
        ((x & 0xFC0) >> 6u16) < 64,
{
    assert((x & 0x3F) < 64 && ((x & 0xFC0) >> 6u16) < 64) by (bit_vector);
}

/// Decoding a move built from squares below 64 gives back each of its parts.
pub proof fn lemma_decode_encode(from: u8, to: u8, promo: u16, kind: u16)
    requires
        from < 64,
        to < 64,
        promo < 4,
        kind < 4,
    ensures
        move_from(move_of_code(encode(from, to, promo, kind))) == from,
        move_to(move_of_code(encode(from, to, promo, kind))) == to,
        (encode(from, to, promo, kind) & 0xC000) >> 14u16 == kind,
        (encode(from, to, promo, kind) & 0x3000) >> 12u16 == promo,
{
    let c = encode(from, to, promo, kind);
    let f = from as u16;
    let t = to as u16;
    assert(f < 64 && t < 64 && promo < 4 && kind < 4 ==> (f | (t << 6u16) | (promo << 12u16) | (
    kind << 14u16)) & 0x3F == f && ((f | (t << 6u16) | (promo << 12u16) | (kind << 14u16)) & 0xFC0)
        >> 6u16 == t && ((f | (t << 6u16) | (promo << 12u16) | (kind << 14u16)) & 0xC000) >> 14u16
        == kind && ((f | (t << 6u16) | (promo << 12u16) | (kind << 14u16)) & 0x3000) >> 12u16
        == promo) by (bit_vector);
    assert(move_of_code(c)@ == c);
}

/// Decoding a move as `from`, `to`, type and promotion, then encoding those parts, gives back
/// the same move.
pub proof fn lemma_encode_decode(m: Move)
    ensures
        m@ == encode(
            move_from(m),
            move_to(m),
            (m@ & 0x3000) >> 12u16,
            (m@ & 0xC000) >> 14u16,
        ),
{
    let c = m@;
    assert(((c & 0x3F) as u8) as u16 | ((((c & 0xFC0) >> 6u16) as u8) as u16) << 6u16 | ((c
        & 0x3000) >> 12u16) << 12u16 | ((c & 0xC000) >> 14u16) << 14u16 == c) by (bit_vector);
}

/// Each constructor's move reads back the squares, the move type and the promotion piece it
/// was built from.
pub proof fn lemma_constructors_roundtrip(from: u8, to: u8, p: PromoPiece)
    requires
        from < 64,
        to < 64,
    ensures
        move_from(normal_move(from, to)) == from,
        move_to(normal_move(from, to)) == to,
        move_kind(normal_move(from, to)) == MoveType::Normal,
        move_from(promotion_move(from, to, p)) == from,
        move_to(promotion_move(from, to, p)) == to,
        move_kind(promotion_move(from, to, p)) == MoveType::Promotion,
        move_promo(promotion_move(from, to, p)) == p,
        move_from(en_passant_move(from, to)) == from,
        move_to(en_passant_move(from, to)) == to,
        move_kind(en_passant_move(from, to)) == MoveType::EnPassant,
        move_from(castling_move(from, to)) == from,
        move_to(castling_move(from, to)) == to,
        move_kind(castling_move(from, to)) == MoveType::Castling,
{
    lemma_decode_encode(from, to, 0, 0);
    lemma_decode_encode(from, to, promo_code(p), 1);
    lemma_decode_encode(from, to, 0, 2);
    lemma_decode_encode(from, to, 0, 3);
}

impl Move {
    /// The move with code 0 (a1 to a1), used where no move is meant.
    pub fn null() -> (m: Move)
        ensures
            m@ == 0,
    {
        Move(0)
    }

    pub fn new(from: u8, to: u8) -> (m: Move)
        ensures
            m == normal_move(from, to),
    {
        let f = from as u16;
        let t = to as u16;
        assert(f | (t << 6u16) | (0u16 << 12u16) | (0u16 << 14u16) == f | (t << 6u16))
            by (bit_vector);
        Move(f | (t << TO_SHIFT))
    }

    pub fn new_promotion(from: u8, to: u8, promo: PromoPiece) -> (m: Move)
        ensures
            m == promotion_move(from, to, promo),
    {
        let promo_bits: u16 = match promo {
            PromoPiece::Knight => 0,
            PromoPiece::Bishop => 1,
            PromoPiece::Rook => 2,
            PromoPiece::Queen => 3,
        };
        let type_bits: u16 = 1;
        Move(
            (from as u16) | ((to as u16) << TO_SHIFT) | (promo_bits << PROMO_SHIFT) | (type_bits
                << TYPE_SHIFT),
        )
    }

    pub fn new_en_passant(from: u8, to: u8) -> (m: Move)
        ensures
            m == en_passant_move(from, to),
    {
        let type_bits: u16 = 2;
        Move((from as u16) | ((to as u16) << TO_SHIFT) | (0u16 << PROMO_SHIFT) | (type_bits
            << TYPE_SHIFT))
    }

    pub fn new_castling(from: u8, to: u8) -> (m: Move)
        ensures
            m == castling_move(from, to),
    {
        let type_bits: u16 = 3;
        Move((from as u16) | ((to as u16) << TO_SHIFT) | (0u16 << PROMO_SHIFT) | (type_bits
            << TYPE_SHIFT))
    }

    pub fn from(self) -> (sq: u8)
        ensures
            sq == move_from(self),
            sq < 64,
    {
        let c = self.0;
        proof {
            lemma_square_fields(c);
        }
        (c & FROM_MASK) as u8
    }

    pub fn to(self) -> (sq: u8)
        ensures
            sq == move_to(self),
            sq < 64,
    {
        let c = self.0;
        proof {
            lemma_square_fields(c);
        }
        ((c & TO_MASK) >> TO_SHIFT) as u8
    }

    pub fn move_type(self) -> (t: MoveType)
        ensures
            t == move_kind(self),
    {
        let t = (self.0 & TYPE_MASK) >> TYPE_SHIFT;
        if t == 0 {
            MoveType::Normal
        } else if t == 1 {
            MoveType::Promotion
        } else if t == 2 {
            MoveType::EnPassant
        } else {
            MoveType::Castling
        }
    }

    pub fn promo_piece(self) -> (p: PromoPiece)
        ensures
            p == move_promo(self),
    {
        let p = (self.0 & PROMO_MASK) >> PROMO_SHIFT;
        if p == 0 {
            PromoPiece::Knight
        } else if p == 1 {
            PromoPiece::Bishop
        } else if p == 2 {
            PromoPiece::Rook
        } else {
            PromoPiece::Queen
        }
    }

    pub fn is_null(self) -> (b: bool)
        ensures
            b == (self@ == 0),
    {
        self.0 == 0
    }

    /// The move in UCI notation, such as `e2e4` or `e7e8q`.
    pub fn to_uci_string(self) -> (s: String)
        ensures
            s@ == uci_text(self),
    {
        let mut s = String::new();
        push_square(&mut s, self.from());
        push_square(&mut s, self.to());
        if self.move_type() == MoveType::Promotion {
            let c = match self.promo_piece() {
                PromoPiece::Knight => 'n',
                PromoPiece::Bishop => 'b',
                PromoPiece::Rook => 'r',
                PromoPiece::Queen => 'q',
            };
            push_char(&mut s, c);
        }
        s
    }
}

/// The file letter and rank digit of a square, `a1` for 0 up to `h8` for 63.
pub open spec fn square_text(sq: u8) -> Seq<char> {
    seq![(97 + sq % 8) as char, (49 + sq / 8) as char]
}

pub open spec fn promo_char(p: PromoPiece) -> char {
    match p {
        PromoPiece::Knight => 'n',
        PromoPiece::Bishop => 'b',
        PromoPiece::Rook => 'r',
        PromoPiece::Queen => 'q',
    }
}

/// The UCI text of a move.
pub open spec fn uci_text(m: Move) -> Seq<char> {
    square_text(move_from(m)) + square_text(move_to(m)) + if move_kind(m)
        == MoveType::Promotion {
        seq![promo_char(move_promo(m))]
    } else {
        Seq::empty()
    }
}

/// The UCI text of a promotion is its from-square and to-square, each as file letter `a`-`h`
/// and rank digit `1`-`8`, followed by the standard letter of the piece promoted to: `n` for a
/// knight, `b` for a bishop, `r` for a rook and `q` for a queen.
pub proof fn lemma_promotion_uci_text(from: u8, to: u8, p: PromoPiece)
    requires
        from < 64,
        to < 64,
    ensures
        uci_text(promotion_move(from, to, p)) == seq![
            (97 + from % 8) as char,
            (49 + from / 8) as char,
            (97 + to % 8) as char,
            (49 + to / 8) as char,
            match p {
                PromoPiece::Knight => 'n',
                PromoPiece::Bishop => 'b',
                PromoPiece::Rook => 'r',
                PromoPiece::Queen => 'q',
            },
        ],
{
    lemma_constructors_roundtrip(from, to, p);
    assert(uci_text(promotion_move(from, to, p)) =~= seq![
        (97 + from % 8) as char,
        (49 + from / 8) as char,
        (97 + to % 8) as char,
        (49 + to / 8) as char,
        match p {
            PromoPiece::Knight => 'n',
            PromoPiece::Bishop => 'b',
            PromoPiece::Rook => 'r',
            PromoPiece::Queen => 'q',
        },
    ]);
}

/// The UCI text of a plain move, an en passant capture or a castle is just its from-square and
/// to-square, each as file letter `a`-`h` and rank digit `1`-`8`, with no piece letter.
pub proof fn lemma_plain_uci_text(from: u8, to: u8)
    requires
        from < 64,
        to < 64,
    ensures
        uci_text(normal_move(from, to)) == seq![
            (97 + from % 8) as char,
            (49 + from / 8) as char,
            (97 + to % 8) as char,
            (49 + to / 8) as char,
        ],
        uci_text(en_passant_move(from, to)) == uci_text(normal_move(from, to)),
        uci_text(castling_move(from, to)) == uci_text(normal_move(from, to)),
{
    lemma_constructors_roundtrip(from, to, PromoPiece::Queen);
    let t = seq![
        (97 + from % 8) as char,
        (49 + from / 8) as char,
        (97 + to % 8) as char,
        (49 + to / 8) as char,
    ];
    assert(uci_text(normal_move(from, to)) =~= t);
    assert(uci_text(en_passant_move(from, to)) =~= t);
    assert(uci_text(castling_move(from, to)) =~= t);
}

/// Appends the algebraic name of a square below 64.
fn push_square(s: &mut String, sq: u8)
    ensures
        final(s)@ == old(s)@ + square_text(sq),
{
    let file = sq % 8;
    let rank = sq / 8;
    push_char(s, (97u8 + file) as char);
    push_char(s, (49u8 + rank) as char);
    assert(final(s)@ =~= old(s)@ + square_text(sq));
}

/// The algebraic name of a square, such as `e4`: the file letter and the rank digit, with
/// the same arithmetic carried on past the board for numbers from 64 on.
pub fn square_to_uci(sq: u8) -> (s: String)
    ensures
        s@ == square_text(sq),
{
    let mut s = String::new();
    push_square(&mut s, sq);
    s
}

/// A list of at most `MAX_MOVES` moves.
pub struct MoveList {
    moves: Vec<Move>,
}

impl View for MoveList {
    type V = Seq<Move>;

    closed spec fn view(&self) -> Seq<Move> {
        self.moves@
    }
}

impl MoveList {
    #[verifier::type_invariant]
    closed spec fn inv(self) -> bool {
        self.moves@.len() <= MAX_MOVES
    }

    pub fn new() -> (l: MoveList)
        ensures
            l@ == Seq::<Move>::empty(),
    {
        MoveList { moves: Vec::new() }
    }

    /// Appends a move; the list holds at most `MAX_MOVES`.
    pub fn push(&mut self, m: Move)
        requires
            old(self)@.len() < MAX_MOVES,
        ensures
            final(self)@ == old(self)@.push(m),
    {
        proof {
            use_type_invariant(&*self);
        }
        let mut moves = Vec::new();
        std::mem::swap(&mut moves, &mut self.moves);
        moves.push(m);
        self.moves = moves;
    }

    pub fn len(&self) -> (n: usize)
        ensures
            n == self@.len(),
            n <= MAX_MOVES,
    {
        proof {
            use_type_invariant(self);
        }
        self.moves.len()
    }

    pub fn is_empty(&self) -> (b: bool)
        ensures
            b == (self@.len() == 0),
    {
        self.moves.len() == 0
    }

    /// The moves in the order they were pushed.
    pub fn iter(&self) -> (it: std::slice::Iter<'_, Move>)
        ensures
            vstd::std_specs::iter::IteratorSpec::remaining(&it) == self@.as_ref(),
    {
        self.moves.as_slice().iter()
    }

    pub fn as_slice(&self) -> (s: &[Move])
        ensures
            s@ == self@,
    {
        self.moves.as_slice()
    }
}

impl Default for MoveList {
    fn default() -> (l: MoveList)
        ensures
            l@ == Seq::<Move>::empty(),
    {
        MoveList::new()
    }
}

} // verus!
