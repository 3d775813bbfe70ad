use vstd::prelude::*;
use vstd::std_specs::bits::u64_trailing_zeros;
use crate::text::{decimal, digit_char, push_char, push_decimal, push_text};

verus! {

broadcast use vstd::std_specs::bits::axiom_u64_trailing_zeros;

/// A set of squares: bit `i` stands for square `i` (a1 = 0, b1 = 1, ..., h8 = 63).
pub type Bitboard = u64;

pub const EMPTY: Bitboard = 0;

pub const FULL: Bitboard = 0xFFFF_FFFF_FFFF_FFFF;

/// Whether square `sq` belongs to the bitboard `bb`.
pub open spec fn bit(bb: u64, sq: int) -> bool {
    0 <= sq < 64 && (bb >> (sq as u64)) & 1u64 == 1u64
}

/// The bitboard that holds exactly the squares below `n` on which `p` holds.
pub open spec fn bb_upto(p: spec_fn(int) -> bool, n: nat) -> u64
    decreases n,
{
    if n == 0 {
        0
    } else {
        bb_upto(p, (n - 1) as nat) | (if p(n - 1) {
            1u64 << ((n - 1) as u64)
        } else {
            0u64
        })
    }
}

/// The bitboard of the squares on which `p` holds.
pub open spec fn bb_of(p: spec_fn(int) -> bool) -> u64 {
    bb_upto(p, 64)
}

/// Number of set bits.
pub open spec fn popcount(x: u64) -> nat
    decreases x,
{
    if x == 0 {
        0
    } else {
        (x % 2) as nat + popcount(x / 2)
    }
}

/// The lowest set bit's index (64 for the empty bitboard).
pub open spec fn lsb_spec(bb: u64) -> int {
    u64_trailing_zeros(bb) as int
}

/// `bb` without its lowest set bit.
pub open spec fn drop_lsb(bb: u64) -> u64 {
    bb & ((bb - 1) as u64)
}

pub proof fn lemma_drop_lsb_smaller(bb: u64)
    requires
        bb != 0,
    ensures
        drop_lsb(bb) < bb,
{
    assert(bb != 0 ==> bb & ((bb - 1) as u64) < bb) by (bit_vector);
}

/// The squares of `bb` in increasing order, as `pop_lsb` hands them out.
pub open spec fn squares(bb: u64) -> Seq<u8>
    decreases bb,
{
    if bb == 0 {
        Seq::empty()
    } else {
        proof {
            lemma_drop_lsb_smaller(bb);
        }
        seq![lsb_spec(bb) as u8] + squares(drop_lsb(bb))
    }
}

pub broadcast proof fn lemma_bit_or(a: u64, b: u64, i: int)
    ensures
        #[trigger] bit(a | b, i) == (bit(a, i) || bit(b, i)),
{
    if 0 <= i < 64 {
        let j = i as u64;
        assert(((a | b) >> j) & 1u64 == 1u64 <==> ((a >> j) & 1u64 == 1u64 || (b >> j) & 1u64
            == 1u64)) by (bit_vector);
    }
}

pub broadcast proof fn lemma_bit_and(a: u64, b: u64, i: int)
    ensures
        #[trigger] bit(a & b, i) == (bit(a, i) && bit(b, i)),
{
    if 0 <= i < 64 {
        let j = i as u64;
        assert(((a & b) >> j) & 1u64 == 1u64 <==> ((a >> j) & 1u64 == 1u64 && (b >> j) & 1u64
            == 1u64)) by (bit_vector);
    }
}

pub broadcast proof fn lemma_bit_xor(a: u64, b: u64, i: int)
    ensures
        #[trigger] bit(a ^ b, i) == (bit(a, i) != bit(b, i)),
{
    if 0 <= i < 64 {
        let j = i as u64;
        assert(((a ^ b) >> j) & 1u64 == 1u64 <==> ((a >> j) & 1u64 == 1u64) != ((b >> j) & 1u64
            == 1u64)) by (bit_vector);
    }
}

pub broadcast proof fn lemma_bit_not(a: u64, i: int)
    ensures
        #[trigger] bit(!a, i) == (0 <= i < 64 && !bit(a, i)),
{
    if 0 <= i < 64 {
        let j = i as u64;
        assert(j < 64 ==> ((!a >> j) & 1u64 == 1u64 <==> !((a >> j) & 1u64 == 1u64)))
            by (bit_vector);
    }
}

pub broadcast proof fn lemma_bit_single(s: u64, i: int)
    requires
        s < 64,
    ensures
        #[trigger] bit(1u64 << s, i) == (i == s),
{
    if 0 <= i < 64 {
        let j = i as u64;
        assert(s < 64 && j < 64 ==> (((1u64 << s) >> j) & 1u64 == 1u64 <==> j == s))
            by (bit_vector);
    }
}

pub broadcast proof fn lemma_bit_zero(i: int)
    ensures
        !#[trigger] bit(0u64, i),
{
    if 0 <= i < 64 {
        let j = i as u64;
        assert((0u64 >> j) & 1u64 != 1u64) by (bit_vector);
    }
}

pub broadcast proof fn lemma_bit_full(i: int)
    ensures
        #[trigger] bit(0xFFFF_FFFF_FFFF_FFFFu64, i) == (0 <= i < 64),
{
    if 0 <= i < 64 {
        let j = i as u64;
        assert(j < 64 ==> (0xFFFF_FFFF_FFFF_FFFFu64 >> j) & 1u64 == 1u64) by (bit_vector);
    }
}

pub broadcast group group_bit_lemmas {
    lemma_bit_or,
    lemma_bit_and,
    lemma_bit_xor,
    lemma_bit_not,
    lemma_bit_single,
    lemma_bit_zero,
    lemma_bit_full,
}

/// Or-ing with the empty bitboard changes nothing, and or is associative.
pub proof fn lemma_or_laws()
    by (bit_vector)
    ensures
        forall|a: u64| #[trigger] (a | 0u64) == a,
        forall|a: u64| #[trigger] (0u64 | a) == a,
        forall|a: u64, b: u64, c: u64| #[trigger] ((a | b) | c) == a | (b | c),
{
}

/// Subset facts: the empty bitboard is a subset of any mask, a subset of a mask is no larger
/// than it, and masking gives a subset.
pub proof fn lemma_subset_laws()
    by (bit_vector)
    ensures
        forall|m: u64| #[trigger] (0u64 & !m) == 0,
        forall|t: u64, m: u64| #[trigger] (t & !m) == 0 ==> t <= m,
        forall|o: u64, m: u64| #[trigger] ((o & m) & !m) == 0,
{
}

/// Shifting right: by nothing keeps the value, by 64 empties it, by one halves it, and two
/// shifts add up.
pub proof fn lemma_shift_laws()
    by (bit_vector)
    ensures
        forall|x: u64| #[trigger] (x >> 0u64) == x,
        forall|x: u64| #[trigger] (x >> 64u64) == 0,
        forall|x: u64| #[trigger] (x >> 1u64) == x / 2 && x & 1 == x % 2,
        forall|x: u64, k: u64|
            0 < k <= 64 ==> #[trigger] ((x >> ((k - 1) as u64)) >> 1u64) == x >> k,
{
}

/// Two bitboards with the same squares are equal.
pub proof fn lemma_bit_ext(a: u64, b: u64)
    requires
        forall|i: int| 0 <= i < 64 ==> bit(a, i) == bit(b, i),
    ensures
        a == b,
{
    let x = a ^ b;
    if x != 0 {
        let t = u64_trailing_zeros(x) as u64;
        assert(t < 64);
        assert((x >> t) & 1u64 == 1u64);
        assert(x == a ^ b && (x >> t) & 1u64 == 1u64 ==> ((a >> t) & 1u64 == 1u64) != ((b >> t)
            & 1u64 == 1u64)) by (bit_vector);
        assert(bit(a, t as int) != bit(b, t as int));
    }
    assert(a ^ b == 0 ==> a == b) by (bit_vector);
}

proof fn lemma_bb_upto_bit(p: spec_fn(int) -> bool, n: nat, i: int)
    requires
        n <= 64,
    ensures
        bit(bb_upto(p, n), i) == (0 <= i < n && p(i)),
    decreases n,
{
    broadcast use group_bit_lemmas;

    if n > 0 {
        lemma_bb_upto_bit(p, (n - 1) as nat, i);
        let s = (n - 1) as u64;
        assert(bit(1u64 << s, i) == (i == s));
    }
}

/// Square `i` belongs to `bb_of(p)` exactly when `p(i)` holds, for the 64 squares.
pub broadcast proof fn lemma_bb_of_bit(p: spec_fn(int) -> bool, i: int)
    ensures
        #[trigger] bit(bb_of(p), i) == (0 <= i < 64 && p(i)),
{
    lemma_bb_upto_bit(p, 64, i);
}

/// The lowest set bit is set, and removing it keeps exactly the other squares.
pub proof fn lemma_lsb(bb: u64)
    requires
        bb != 0,
    ensures
        0 <= lsb_spec(bb) < 64,
        bit(bb, lsb_spec(bb)),
        forall|i: int| 0 <= i < lsb_spec(bb) ==> !bit(bb, i),
        forall|i: int| #[trigger] bit(drop_lsb(bb), i) == (bit(bb, i) && i != lsb_spec(bb)),
{
    let t = u64_trailing_zeros(bb) as u64;
    assert(t < 64);
    assert forall|i: int| 0 <= i < lsb_spec(bb) implies !bit(bb, i) by {
        let j = i as u64;
        assert((bb >> j) & 1u64 == 0u64);
    }
    assert forall|i: int| #[trigger] bit(drop_lsb(bb), i) == (bit(bb, i) && i != lsb_spec(bb)) by {
        if 0 <= i < 64 {
            let j = i as u64;
            if j < t {
                assert((bb >> j) & 1u64 == 0u64);
                assert((bb >> j) & 1u64 == 0u64 ==> ((bb & ((bb - 1) as u64)) >> j) & 1u64
                    == 0u64) by (bit_vector);
            } else if j == t {
                assert(bb << ((64 - t) as u64) == 0u64);
                assert(t < 64 && (bb >> t) & 1u64 == 1u64 && bb << ((64 - t) as u64) == 0u64 ==> ((
                bb & ((bb - 1) as u64)) >> t) & 1u64 == 0u64) by (bit_vector);
            } else {
                assert(bb != 0 && (bb >> t) & 1u64 == 1u64 && t < j && j < 64 ==> (((bb & ((bb
                    - 1) as u64)) >> j) & 1u64 == 1u64 <==> (bb >> j) & 1u64 == 1u64))
                    by (bit_vector);
            }
        }
    }
}

/// A non-empty bitboard has at least one square.
pub proof fn lemma_popcount_nonzero(x: u64)
    requires
        x != 0,
    ensures
        popcount(x) >= 1,
    decreases x,
{
    if x % 2 == 0 {
        lemma_popcount_nonzero(x / 2);
    }
}

/// A subset has no more squares than its superset.
pub proof fn lemma_popcount_mono(a: u64, b: u64)
    requires
        a & !b == 0,
    ensures
        popcount(a) <= popcount(b),
    decreases b,
{
    if b == 0 {
        assert(a & !0u64 == 0 ==> a == 0) by (bit_vector);
    } else {
        assert(a & !b == 0 ==> (a / 2) & !(b / 2) == 0 && a % 2 <= b % 2) by (bit_vector);
        lemma_popcount_mono(a / 2, b / 2);
        if a != 0 {
            assert(popcount(a) == (a % 2) as nat + popcount(a / 2));
        }
    }
}

/// The union has at most the squares of both.
pub proof fn lemma_popcount_or(a: u64, b: u64)
    ensures
        popcount(a | b) <= popcount(a) + popcount(b),
    decreases a, b,
{
    lemma_or_laws();
    if a == 0 {
        assert(0u64 | b == b);
    } else if b == 0 {
        assert(a | 0u64 == a);
    } else {
        assert((a | b) / 2 == (a / 2) | (b / 2) && (a | b) % 2 <= a % 2 + b % 2 && a | b != 0)
            by (bit_vector)
            requires
                a != 0,
        ;
        lemma_popcount_or(a / 2, b / 2);
    }
}

/// A single square.
pub proof fn lemma_popcount_single(s: u64)
    requires
        s < 64,
    ensures
        popcount(1u64 << s) == 1,
    decreases s,
{
    if s == 0 {
        assert(1u64 << 0u64 == 1) by (bit_vector);
        assert(popcount(1) == 1 + popcount(0));
    } else {
        lemma_popcount_single((s - 1) as u64);
        let x = 1u64 << s;
        assert(0 < s < 64 ==> (1u64 << s) != 0 && (1u64 << s) % 2 == 0 && (1u64 << s) / 2 == 1u64
            << ((s - 1) as u64)) by (bit_vector);
    }
}

#[derive(Copy, Clone, Debug, PartialEq, Eq, Structural)]
pub enum Square {
    A1, B1, C1, D1, E1, F1, G1, H1,
    A2, B2, C2, D2, E2, F2, G2, H2,
    A3, B3, C3, D3, E3, F3, G3, H3,
    A4, B4, C4, D4, E4, F4, G4, H4,
    A5, B5, C5, D5, E5, F5, G5, H5,
    A6, B6, C6, D6, E6, F6, G6, H6,
    A7, B7, C7, D7, E7, F7, G7, H7,
    A8, B8, C8, D8, E8, F8, G8, H8,
}

impl Square {
    /// The square's number, a1 = 0 up to h8 = 63.
    pub open spec fn spec_index(self) -> u8 {
        match self {
            Square::A1 => 0,
            Square::B1 => 1,
            Square::C1 => 2,
            Square::D1 => 3,
            Square::E1 => 4,
            Square::F1 => 5,
            Square::G1 => 6,
            Square::H1 => 7,
            Square::A2 => 8,
            Square::B2 => 9,
            Square::C2 => 10,
            Square::D2 => 11,
            Square::E2 => 12,
            Square::F2 => 13,
            Square::G2 => 14,
            Square::H2 => 15,
            Square::A3 => 16,
            Square::B3 => 17,
            Square::C3 => 18,
            Square::D3 => 19,
            Square::E3 => 20,
            Square::F3 => 21,
            Square::G3 => 22,
            Square::H3 => 23,
            Square::A4 => 24,
            Square::B4 => 25,
            Square::C4 => 26,
            Square::D4 => 27,
            Square::E4 => 28,
            Square::F4 => 29,
            Square::G4 => 30,
            Square::H4 => 31,
            Square::A5 => 32,
            Square::B5 => 33,
            Square::C5 => 34,
            Square::D5 => 35,
            Square::E5 => 36,
            Square::F5 => 37,
            Square::G5 => 38,
            Square::H5 => 39,
            Square::A6 => 40,
            Square::B6 => 41,
            Square::C6 => 42,
            Square::D6 => 43,
            Square::E6 => 44,
            Square::F6 => 45,
            Square::G6 => 46,
            Square::H6 => 47,
            Square::A7 => 48,
            Square::B7 => 49,
            Square::C7 => 50,
            Square::D7 => 51,
            Square::E7 => 52,
            Square::F7 => 53,
            Square::G7 => 54,
            Square::H7 => 55,
            Square::A8 => 56,
            Square::B8 => 57,
            Square::C8 => 58,
            Square::D8 => 59,
            Square::E8 => 60,
            Square::F8 => 61,
            Square::G8 => 62,
            Square::H8 => 63,
        }
    }

    /// The square with number `i`.
    pub fn from_index(i: u8) -> (sq: Square)
        requires
            i < 64,
        ensures
            sq.spec_index() == i,
    {
        match i {
            0 => Square::A1,
            1 => Square::B1,
            2 => Square::C1,
            3 => Square::D1,
            4 => Square::E1,
            5 => Square::F1,
            6 => Square::G1,
            7 => Square::H1,
            8 => Square::A2,
            9 => Square::B2,
            10 => Square::C2,
            11 => Square::D2,
            12 => Square::E2,
            13 => Square::F2,
            14 => Square::G2,
            15 => Square::H2,
            16 => Square::A3,
            17 => Square::B3,
            18 => Square::C3,
            19 => Square::D3,
            20 => Square::E3,
            21 => Square::F3,
            22 => Square::G3,
            23 => Square::H3,
            24 => Square::A4,
            25 => Square::B4,
            26 => Square::C4,
            27 => Square::D4,
            28 => Square::E4,
            29 => Square::F4,
            30 => Square::G4,
            31 => Square::H4,
            32 => Square::A5,
            33 => Square::B5,
            34 => Square::C5,
            35 => Square::D5,
            36 => Square::E5,
            37 => Square::F5,
            38 => Square::G5,
            39 => Square::H5,
            40 => Square::A6,
            41 => Square::B6,
            42 => Square::C6,
            43 => Square::D6,
            44 => Square::E6,
            45 => Square::F6,
            46 => Square::G6,
            47 => Square::H6,
            48 => Square::A7,
            49 => Square::B7,
            50 => Square::C7,
            51 => Square::D7,
            52 => Square::E7,
            53 => Square::F7,
            54 => Square::G7,
            55 => Square::H7,
            56 => Square::A8,
            57 => Square::B8,
            58 => Square::C8,
            59 => Square::D8,
            60 => Square::E8,
            61 => Square::F8,
            62 => Square::G8,
            _ => Square::H8,
        }
    }

    #[verifier::when_used_as_spec(spec_index)]
    pub fn index(self) -> (i: u8)
        ensures
            i == self.spec_index(),
            i < 64,
    {
        match self {
            Square::A1 => 0,
            Square::B1 => 1,
            Square::C1 => 2,
            Square::D1 => 3,
            Square::E1 => 4,
            Square::F1 => 5,
            Square::G1 => 6,
            Square::H1 => 7,
            Square::A2 => 8,
            Square::B2 => 9,
            Square::C2 => 10,
            Square::D2 => 11,
            Square::E2 => 12,
            Square::F2 => 13,
            Square::G2 => 14,
            Square::H2 => 15,
            Square::A3 => 16,
            Square::B3 => 17,
            Square::C3 => 18,
            Square::D3 => 19,
            Square::E3 => 20,
            Square::F3 => 21,
            Square::G3 => 22,
            Square::H3 => 23,
            Square::A4 => 24,
            Square::B4 => 25,
            Square::C4 => 26,
            Square::D4 => 27,
            Square::E4 => 28,
            Square::F4 => 29,
            Square::G4 => 30,
            Square::H4 => 31,
            Square::A5 => 32,
            Square::B5 => 33,
            Square::C5 => 34,
            Square::D5 => 35,
            Square::E5 => 36,
            Square::F5 => 37,
            Square::G5 => 38,
            Square::H5 => 39,
            Square::A6 => 40,
            Square::B6 => 41,
            Square::C6 => 42,
            Square::D6 => 43,
            Square::E6 => 44,
            Square::F6 => 45,
            Square::G6 => 46,
            Square::H6 => 47,
            Square::A7 => 48,
            Square::B7 => 49,
            Square::C7 => 50,
            Square::D7 => 51,
            Square::E7 => 52,
            Square::F7 => 53,
            Square::G7 => 54,
            Square::H7 => 55,
            Square::A8 => 56,
            Square::B8 => 57,
            Square::C8 => 58,
            Square::D8 => 59,
            Square::E8 => 60,
            Square::F8 => 61,
            Square::G8 => 62,
            Square::H8 => 63,
        }
    }

    pub fn file(self) -> (f: u8)
        ensures
            f == self.spec_index() % 8,
    {
        self.index() % 8
    }

    pub fn rank(self) -> (r: u8)
        ensures
            r == self.spec_index() / 8,
    {
        self.index() / 8
    }
}

/// Adds square `sq` to the bitboard.
pub fn set_bit(bb: Bitboard, sq: u8) -> (r: Bitboard)
    requires
        sq < 64,
    ensures
        r == bb | (1u64 << sq as u64),
        forall|i: int| #[trigger] bit(r, i) == (bit(bb, i) || i == sq),
{
    broadcast use group_bit_lemmas;

    bb | (1u64 << sq)
}

/// Removes square `sq` from the bitboard.
pub fn clear_bit(bb: Bitboard, sq: u8) -> (r: Bitboard)
    requires
        sq < 64,
    ensures
        r == bb & !(1u64 << sq as u64),
        forall|i: int| #[trigger] bit(r, i) == (bit(bb, i) && i != sq),
{
    broadcast use group_bit_lemmas;

    bb & !(1u64 << sq)
}

/// Whether square `sq` is in the bitboard.
pub fn get_bit(bb: Bitboard, sq: u8) -> (b: bool)
    requires
        sq < 64,
    ensures
        b == bit(bb, sq as int),
{
    (bb >> sq) & 1 == 1
}

/// The number of squares in the bitboard.
pub fn pop_count(bb: Bitboard) -> (n: u32)
    ensures
        n == popcount(bb),
{
    let mut rest = bb;
    let mut n: u32 = 0;
    let mut k: u64 = 0;
    proof {
        lemma_shift_laws();
    }
    assert(bb >> 0u64 == bb);
    while k < 64
        invariant
            k <= 64,
            n <= k,
            rest == bb >> k,
            n + popcount(rest) == popcount(bb),
        decreases 64 - k,
    {
        proof {
            lemma_shift_laws();
            assert(rest >> 1u64 == rest / 2 && rest & 1 == rest % 2);
            assert((bb >> (((k + 1) - 1) as u64)) >> 1u64 == bb >> ((k + 1) as u64));
        }
        n = n + (rest & 1) as u32;
        rest = rest >> 1;
        k = k + 1;
    }
    assert(bb >> 64u64 == 0u64);
    n
}

/// The lowest square of the bitboard (64 when it is empty).
pub fn lsb(bb: Bitboard) -> (sq: u8)
    ensures
        sq == lsb_spec(bb),
{
    bb.trailing_zeros() as u8
}

/// Removes the lowest square from the bitboard and returns it.
pub fn pop_lsb(bb: &mut Bitboard) -> (sq: u8)
    requires
        *old(bb) != 0,
    ensures
        sq == lsb_spec(*old(bb)),
        sq < 64,
        bit(*old(bb), sq as int),
        *final(bb) == drop_lsb(*old(bb)),
        squares(*old(bb)) == seq![sq] + squares(*final(bb)),
{
    let sq = lsb(*bb);
    *bb &= *bb - 1;
    proof {
        lemma_lsb(*old(bb));
    }
    sq
}

/// Setting square `s` adds it and clearing it removes it, and neither touches another square:
/// a set square reads back as present, a cleared one as absent.
pub proof fn lemma_set_clear_get(bb: u64, s: int, i: int)
    requires
        0 <= s < 64,
    ensures
        bit(bb | (1u64 << (s as u64)), i) == (bit(bb, i) || i == s),
        bit(bb & !(1u64 << (s as u64)), i) == (bit(bb, i) && i != s),
{
    broadcast use group_bit_lemmas;

    assert(bit(1u64 << (s as u64), i) == (i == s));
}

/// Different squares have different numbers, so a square is found again from its number.
pub proof fn lemma_square_index_injective(a: Square, b: Square)
    ensures
        (a.spec_index() == b.spec_index()) == (a == b),
{
}


/// The mark of square `sq` in a bitboard picture: `1` when the bitboard holds it.
pub open spec fn bb_mark(bb: u64, sq: int) -> char {
    if bit(bb, sq) {
        '1'
    } else {
        '.'
    }
}

/// The cells of rank `rank` from file `f` on: each square's mark followed by a space.
pub open spec fn bb_cells(bb: u64, rank: int, f: int) -> Seq<char>
    decreases 8 - f,
{
    if f >= 8 {
        Seq::empty()
    } else {
        seq![bb_mark(bb, rank * 8 + f), ' '] + bb_cells(bb, rank, f + 1)
    }
}

/// The picture's rank lines from line `t` on (line 0 shows the eighth rank): the rank number,
/// a space, the cells and a line break.
pub open spec fn bb_lines(bb: u64, t: int) -> Seq<char>
    decreases 8 - t,
{
    if t >= 8 {
        Seq::empty()
    } else {
        seq![digit_char(8 - t), ' '] + bb_cells(bb, 7 - t, 0) + seq!['\n'] + bb_lines(bb, t + 1)
    }
}

/// The text picture of a bitboard: the ranks from the eighth down, the file letters, and the
/// bitboard's value in decimal.
pub open spec fn bitboard_picture(bb: u64) -> Seq<char> {
    bb_lines(bb, 0) + "  a b c d e f g h\n"@ + "Bitboard value: "@ + decimal(bb as nat) + seq!['\n']
}

/// The picture of a bitboard that `print_bitboard` shows.
pub fn bitboard_text(bb: Bitboard) -> (s: String)
    ensures
        s@ == bitboard_picture(bb),
{
    let mut s = String::new();
    let mut t: u8 = 0;
    while t < 8
        invariant
            t <= 8,
            s@ + bb_lines(bb, t as int) == bb_lines(bb, 0),
        decreases 8 - t,
    {
        let rank = 7 - t;
        let ghost line_start = s@;
        push_char(&mut s, (56u8 - t) as char);
        push_char(&mut s, ' ');
        let mut file: u8 = 0;
        while file < 8
            invariant
                t < 8,
                rank == 7 - t,
                file <= 8,
                s@ + bb_cells(bb, rank as int, file as int) == line_start + seq![
                    digit_char(8 - t),
                    ' ',
                ] + bb_cells(bb, rank as int, 0),
            decreases 8 - file,
        {
            let c = if get_bit(bb, rank * 8 + file) {
                '1'
            } else {
                '.'
            };
            let ghost before = s@;
            push_char(&mut s, c);
            push_char(&mut s, ' ');
            assert(before + bb_cells(bb, rank as int, file as int) =~= s@ + bb_cells(
                bb,
                rank as int,
                file + 1,
            ));
            file += 1;
        }
        push_char(&mut s, '\n');
        assert(s@ + bb_lines(bb, t + 1) =~= line_start + bb_lines(bb, t as int));
        t += 1;
    }
    assert(s@ =~= bb_lines(bb, 0));
    push_text(&mut s, "  a b c d e f g h\n");
    push_text(&mut s, "Bitboard value: ");
    push_decimal(&mut s, bb);
    push_char(&mut s, '\n');
    s
}

} // verus!
