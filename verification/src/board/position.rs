use vstd::prelude::*;
use crate::board::bitboard::{
    bit, get_bit, group_bit_lemmas, lemma_shift_laws, pop_count, popcount, Bitboard, EMPTY,
};
use crate::board::fen::piece_char;
use crate::text::{digit_char, push_char, push_text};

verus! {

broadcast use group_bit_lemmas;

#[derive(Copy, Clone, Debug, PartialEq, Eq, Structural)]
pub enum Color {
    White,
    Black,
}

impl Color {
    pub open spec fn spec_opposite(self) -> Color {
        match self {
            Color::White => Color::Black,
            Color::Black => Color::White,
        }
    }

    #[verifier::when_used_as_spec(spec_opposite)]
    pub fn opposite(self) -> (c: Color)
        ensures
            c == self.spec_opposite(),
    {
        match self {
            Color::White => Color::Black,
            Color::Black => Color::White,
        }
    }
}

#[derive(Copy, Clone, Debug, PartialEq, Eq, Structural)]
pub enum PieceType {
    Pawn,
    Knight,
    Bishop,
    Rook,
    Queen,
    King,
}

pub const NUM_PIECE_TYPES: usize = 6;

// Castling rights as bit flags
pub const WK_CASTLE: u8 = 1;

pub const WQ_CASTLE: u8 = 2;

pub const BK_CASTLE: u8 = 4;

pub const BQ_CASTLE: u8 = 8;

/// The array slot of a color: 0 for white, 1 for black.
pub open spec fn ci(c: Color) -> int {
    match c {
        Color::White => 0,
        Color::Black => 1,
    }
}

/// The array slot of a piece type, in the order pawn, knight, bishop, rook, queen, king.
pub open spec fn pi(p: PieceType) -> int {
    match p {
        PieceType::Pawn => 0,
        PieceType::Knight => 1,
        PieceType::Bishop => 2,
        PieceType::Rook => 3,
        PieceType::Queen => 4,
        PieceType::King => 5,
    }
}

/// The color in slot `i`.
pub open spec fn color_of(i: int) -> Color {
    if i == 0 {
        Color::White
    } else {
        Color::Black
    }
}

/// The piece type in slot `i`.
pub open spec fn ptype_of(i: int) -> PieceType {
    if i == 0 {
        PieceType::Pawn
    } else if i == 1 {
        PieceType::Knight
    } else if i == 2 {
        PieceType::Bishop
    } else if i == 3 {
        PieceType::Rook
    } else if i == 4 {
        PieceType::Queen
    } else {
        PieceType::King
    }
}

pub fn color_index(c: Color) -> (i: usize)
    ensures
        i == ci(c),
{
    match c {
        Color::White => 0,
        Color::Black => 1,
    }
}

pub fn piece_index(p: PieceType) -> (i: usize)
    ensures
        i == pi(p),
{
    match p {
        PieceType::Pawn => 0,
        PieceType::Knight => 1,
        PieceType::Bishop => 2,
        PieceType::Rook => 3,
        PieceType::Queen => 4,
        PieceType::King => 5,
    }
}

fn piece_of_index(i: usize) -> (p: PieceType)
    requires
        i < 6,
    ensures
        p == ptype_of(i as int),
        pi(p) == i,
{
    if i == 0 {
        PieceType::Pawn
    } else if i == 1 {
        PieceType::Knight
    } else if i == 2 {
        PieceType::Bishop
    } else if i == 3 {
        PieceType::Rook
    } else if i == 4 {
        PieceType::Queen
    } else {
        PieceType::King
    }
}

#[derive(Copy, Clone, Debug)]
pub struct Position {
    // [color][piece_type] -> bitboard
    pub pieces: [[Bitboard; NUM_PIECE_TYPES]; 2],
    // occupancy helpers, recomputed from pieces but cached for speed
    pub occupied_by: [Bitboard; 2],
    pub occupied: Bitboard,
    pub side_to_move: Color,
    pub castling_rights: u8,
    pub en_passant: Option<u8>,
    pub halfmove_clock: u16,
    pub fullmove_number: u16,
}

/// All squares held by one color's six bitboards.
pub open spec fn union6(b: [u64; 6]) -> u64 {
    b[0] | b[1] | b[2] | b[3] | b[4] | b[5]
}

/// The occupancy fields agree with the piece bitboards.
pub open spec fn occupancy_ok(pos: Position) -> bool {
    &&& pos.occupied_by[0] == union6(pos.pieces[0])
    &&& pos.occupied_by[1] == union6(pos.pieces[1])
    &&& pos.occupied == pos.occupied_by[0] | pos.occupied_by[1]
}

/// `pos` with its occupancy fields recomputed from its piece bitboards.
pub open spec fn with_occupancy(pos: Position) -> Position {
    Position {
        occupied_by: [union6(pos.pieces[0]), union6(pos.pieces[1])],
        occupied: union6(pos.pieces[0]) | union6(pos.pieces[1]),
        ..pos
    }
}

/// The first piece found on `sq`, looking at white's bitboards and then black's, each in the
/// order pawn, knight, bishop, rook, queen, king; slots from `k` on (slot `k` is color `k / 6`,
/// piece `k % 6`).
pub open spec fn piece_at_from(pos: Position, sq: int, k: int) -> Option<(Color, PieceType)>
    decreases 12 - k,
{
    if k >= 12 || k < 0 {
        None
    } else if bit(pos.pieces[k / 6][k % 6], sq) {
        Some((color_of(k / 6), ptype_of(k % 6)))
    } else {
        piece_at_from(pos, sq, k + 1)
    }
}

/// The piece on `sq`, as `Position::piece_at` reports it.
pub open spec fn piece_at_spec(pos: Position, sq: int) -> Option<(Color, PieceType)> {
    piece_at_from(pos, sq, 0)
}

/// The number of pieces of one color.
pub open spec fn material(pos: Position, c: int) -> nat {
    popcount(pos.pieces[c][0]) + popcount(pos.pieces[c][1]) + popcount(pos.pieces[c][2])
        + popcount(pos.pieces[c][3]) + popcount(pos.pieces[c][4]) + popcount(pos.pieces[c][5])
}

pub proof fn lemma_popcount_le_64(x: u64)
    ensures
        popcount(x) <= 64,
{
    lemma_popcount_bound(x, 64);
    lemma_shift_laws();
    assert(x >> 64u64 == 0u64);
}

proof fn lemma_popcount_bound(x: u64, k: u64)
    requires
        k <= 64,
    ensures
        popcount(x) <= k + popcount(x >> k),
    decreases k,
{
    lemma_shift_laws();
    if k == 0 {
        assert(x >> 0u64 == x);
    } else {
        lemma_popcount_bound(x, (k - 1) as u64);
        let y = x >> ((k - 1) as u64);
        assert(y >> 1u64 == y / 2 && y & 1 == y % 2);
        assert((x >> ((k - 1) as u64)) >> 1u64 == x >> k);
        if y != 0 {
            assert(popcount(y) == (y % 2) as nat + popcount(y / 2));
        }
    }
}

/// The starting position's piece bitboards.
pub open spec fn start_pieces() -> [[u64; 6]; 2] {
    [
        [
            0x0000_0000_0000_FF00,
            0x0000_0000_0000_0042,
            0x0000_0000_0000_0024,
            0x0000_0000_0000_0081,
            0x0000_0000_0000_0008,
            0x0000_0000_0000_0010,
        ],
        [
            0x00FF_0000_0000_0000,
            0x4200_0000_0000_0000,
            0x2400_0000_0000_0000,
            0x8100_0000_0000_0000,
            0x0800_0000_0000_0000,
            0x1000_0000_0000_0000,
        ],
    ]
}

impl Position {
    /// An empty board, white to move, all castling rights, move 1.
    pub fn empty() -> (pos: Position)
        ensures
            forall|c: int, p: int| 0 <= c < 2 && 0 <= p < 6 ==> pos.pieces[c][p] == 0,
            pos.occupied_by[0] == 0,
            pos.occupied_by[1] == 0,
            pos.occupied == 0,
            pos.side_to_move == Color::White,
            pos.castling_rights == 15,
            pos.en_passant is None,
            pos.halfmove_clock == 0,
            pos.fullmove_number == 1,
    {
        assert(WK_CASTLE | WQ_CASTLE | BK_CASTLE | BQ_CASTLE == 15u8) by (bit_vector);
        Position {
            pieces: [[EMPTY; NUM_PIECE_TYPES]; 2],
            occupied_by: [EMPTY; 2],
            occupied: EMPTY,
            side_to_move: Color::White,
            castling_rights: WK_CASTLE | WQ_CASTLE | BK_CASTLE | BQ_CASTLE,
            en_passant: None,
            halfmove_clock: 0,
            fullmove_number: 1,
        }
    }

    /// The standard starting position.
    pub fn startpos() -> (pos: Position)
        ensures
            pos.pieces == start_pieces(),
            occupancy_ok(pos),
            pos.side_to_move == Color::White,
            pos.castling_rights == 15,
            pos.en_passant is None,
            pos.halfmove_clock == 0,
            pos.fullmove_number == 1,
    {
        let mut pos = Position::empty();
        pos.pieces = [
            [
                0x0000_0000_0000_FF00,
                0x0000_0000_0000_0042,
                0x0000_0000_0000_0024,
                0x0000_0000_0000_0081,
                0x0000_0000_0000_0008,
                0x0000_0000_0000_0010,
            ],
            [
                0x00FF_0000_0000_0000,
                0x4200_0000_0000_0000,
                0x2400_0000_0000_0000,
                0x8100_0000_0000_0000,
                0x0800_0000_0000_0000,
                0x1000_0000_0000_0000,
            ],
        ];
        pos.update_occupancy();
        assert(pos.pieces =~= start_pieces());
        pos
    }

    /// Recomputes the occupancy fields from the piece bitboards.
    pub fn update_occupancy(&mut self)
        ensures
            *final(self) == with_occupancy(*old(self)),
    {
        let w = self.pieces[0];
        let b = self.pieces[1];
        let ow = w[0] | w[1] | w[2] | w[3] | w[4] | w[5];
        let ob = b[0] | b[1] | b[2] | b[3] | b[4] | b[5];
        self.occupied_by = [ow, ob];
        self.occupied = ow | ob;
        assert(self.occupied_by =~= [union6(old(self).pieces[0]), union6(old(self).pieces[1])]);
    }

    /// Returns the piece type and color occupying a square, if any.
    pub fn piece_at(&self, sq: u8) -> (r: Option<(Color, PieceType)>)
        requires
            sq < 64,
        ensures
            r == piece_at_spec(*self, sq as int),
    {
        let mut c: usize = 0;
        while c < 2
            invariant
                c <= 2,
                sq < 64,
                piece_at_spec(*self, sq as int) == piece_at_from(*self, sq as int, 6 * c),
            decreases 2 - c,
        {
            let mut i: usize = 0;
            while i < 6
                invariant
                    c < 2,
                    i <= 6,
                    sq < 64,
                    piece_at_spec(*self, sq as int) == piece_at_from(*self, sq as int, 6 * c + i),
                decreases 6 - i,
            {
                assert((6 * c + i) / 6 == c && (6 * c + i) % 6 == i) by (nonlinear_arith)
                    requires
                        i < 6,
                ;
                if get_bit(self.pieces[c][i], sq) {
                    let color = if c == 0 {
                        Color::White
                    } else {
                        Color::Black
                    };
                    return Some((color, piece_of_index(i)));
                }
                i += 1;
            }
            c += 1;
        }
        None
    }

    /// The number of pieces of one color.
    pub fn material_count(&self, color: Color) -> (n: u32)
        ensures
            n == material(*self, ci(color)),
    {
        let c = color_index(color);
        let b = self.pieces[c];
        proof {
            lemma_popcount_le_64(b[0]);
            lemma_popcount_le_64(b[1]);
            lemma_popcount_le_64(b[2]);
            lemma_popcount_le_64(b[3]);
            lemma_popcount_le_64(b[4]);
            lemma_popcount_le_64(b[5]);
        }
        pop_count(b[0]) + pop_count(b[1]) + pop_count(b[2]) + pop_count(b[3]) + pop_count(b[4])
            + pop_count(b[5])
    }
}


/// The letter shown for square `sq`: the piece's FEN letter, or `.` when it is empty.
pub open spec fn board_cell(pos: Position, sq: int) -> char {
    match piece_at_spec(pos, sq) {
        Some((c, pt)) => piece_char(c, pt),
        None => '.',
    }
}

/// The cells of rank `rank` from file `f` on: each square's letter followed by a space.
pub open spec fn board_cells(pos: Position, rank: int, f: int) -> Seq<char>
    decreases 8 - f,
{
    if f >= 8 {
        Seq::empty()
    } else {
        seq![board_cell(pos, rank * 8 + f), ' '] + board_cells(pos, rank, f + 1)
    }
}

/// The picture's rank lines from line `t` on (line 0 shows the eighth rank).
pub open spec fn board_lines(pos: Position, t: int) -> Seq<char>
    decreases 8 - t,
{
    if t >= 8 {
        Seq::empty()
    } else {
        seq![digit_char(8 - t), ' '] + board_cells(pos, 7 - t, 0) + seq!['\n'] + board_lines(
            pos,
            t + 1,
        )
    }
}

/// The text picture of a position: the ranks from the eighth down, the file letters and the
/// side to move.
pub open spec fn board_picture(pos: Position) -> Seq<char> {
    board_lines(pos, 0) + "  a b c d e f g h\n"@ + "Side to move: "@ + (if pos.side_to_move
        == Color::White {
        "White"@
    } else {
        "Black"@
    }) + seq!['\n']
}

/// The FEN letter of a piece.
fn piece_letter(c: Color, pt: PieceType) -> (ch: char)
    ensures
        ch == piece_char(c, pt),
{
    let small = match pt {
        PieceType::Pawn => 'p',
        PieceType::Knight => 'n',
        PieceType::Bishop => 'b',
        PieceType::Rook => 'r',
        PieceType::Queen => 'q',
        PieceType::King => 'k',
    };
    if c == Color::White {
        ((small as u8) - 32) as char
    } else {
        small
    }
}

impl Position {
    /// The picture of the board that `print` shows.
    pub fn board_text(&self) -> (s: String)
        ensures
            s@ == board_picture(*self),
    {
        let mut s = String::new();
        let mut t: u8 = 0;
        while t < 8
            invariant
                t <= 8,
                s@ + board_lines(*self, t as int) == board_lines(*self, 0),
            decreases 8 - t,
        {
            let rank = 7 - t;
            let ghost line_start = s@;
            push_char(&mut s, (56u8 - t) as char);
            push_char(&mut s, ' ');
            let mut file: u8 = 0;
            while file < 8
                invariant
                    t < 8,
                    rank == 7 - t,
                    file <= 8,
                    s@ + board_cells(*self, rank as int, file as int) == line_start + seq![
                        digit_char(8 - t),
                        ' ',
                    ] + board_cells(*self, rank as int, 0),
                decreases 8 - file,
            {
                let c = match self.piece_at(rank * 8 + file) {
                    Some((color, pt)) => piece_letter(color, pt),
                    None => '.',
                };
                let ghost before = s@;
                push_char(&mut s, c);
                push_char(&mut s, ' ');
                assert(before + board_cells(*self, rank as int, file as int) =~= s@ + board_cells(
                    *self,
                    rank as int,
                    file + 1,
                ));
                file += 1;
            }
            push_char(&mut s, '\n');
            assert(s@ + board_lines(*self, t + 1) =~= line_start + board_lines(*self, t as int));
            t += 1;
        }
        assert(s@ =~= board_lines(*self, 0));
        push_text(&mut s, "  a b c d e f g h\n");
        push_text(&mut s, "Side to move: ");
        if self.side_to_move == Color::White {
            push_text(&mut s, "White");
        } else {
            push_text(&mut s, "Black");
        }
        push_char(&mut s, '\n');
        s
    }
}

} // verus!
