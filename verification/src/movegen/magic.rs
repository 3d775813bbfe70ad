use vstd::prelude::*;
use crate::board::bitboard::{
    bb_of, bit, group_bit_lemmas, lemma_bb_of_bit, lemma_bit_ext, lemma_or_laws,
    lemma_popcount_nonzero, lemma_popcount_or, lemma_popcount_single, lemma_subset_laws,
    pop_count, popcount, Bitboard,
};

verus! {

broadcast use group_bit_lemmas;

/// How many steps a ray from (`f`, `r`) in direction (`df`, `dr`) can still take on the board;
/// the measure that the ray's recursion decreases.
pub open spec fn ray_room(f: int, r: int, df: int, dr: int) -> int {
    if df > 0 {
        8 - f
    } else if df < 0 {
        f + 1
    } else if dr > 0 {
        8 - r
    } else {
        r + 1
    }
}

/// The squares a slider reaches from just before (`f`, `r`) stepping by (`df`, `dr`): each
/// square on the board along the way, up to and including the first occupied one.
pub open spec fn ray(f: int, r: int, df: int, dr: int, occ: u64) -> u64
    decreases ray_room(f, r, df, dr),
{
    if (df == 0 && dr == 0) || !(0 <= f < 8 && 0 <= r < 8) || df < -1 || df > 1 || dr < -1 || dr
        > 1 {
        0u64
    } else {
        let s = r * 8 + f;
        if bit(occ, s) {
            1u64 << (s as u64)
        } else {
            (1u64 << (s as u64)) | ray(f + df, r + dr, df, dr, occ)
        }
    }
}

/// The rank number that `sq / 8` gives on `i32`, rounding towards zero.
pub open spec fn trunc_rank(sq: int) -> int {
    if sq >= 0 {
        sq / 8
    } else {
        -((-sq) / 8)
    }
}

/// The file number that `sq % 8` gives on `i32`, with the sign of `sq`.
pub open spec fn trunc_file(sq: int) -> int {
    sq - 8 * trunc_rank(sq)
}

/// The squares the four rook rays from file `f` and rank `r` reach when `occ` holds the
/// occupied squares.
pub open spec fn rook_rays(f: int, r: int, occ: u64) -> u64 {
    ray(f, r + 1, 0, 1, occ) | ray(f, r - 1, 0, -1, occ) | ray(f + 1, r, 1, 0, occ) | ray(
        f - 1,
        r,
        -1,
        0,
        occ,
    )
}

/// The squares the four bishop rays from file `f` and rank `r` reach.
pub open spec fn bishop_rays(f: int, r: int, occ: u64) -> u64 {
    ray(f + 1, r + 1, 1, 1, occ) | ray(f + 1, r - 1, 1, -1, occ) | ray(f - 1, r + 1, -1, 1, occ)
        | ray(f - 1, r - 1, -1, -1, occ)
}

/// The squares a rook on `sq` attacks when `occ` holds the occupied squares.
pub open spec fn rook_attacks_spec(sq: int, occ: u64) -> u64 {
    rook_rays(sq % 8, sq / 8, occ)
}

/// The squares a bishop on `sq` attacks when `occ` holds the occupied squares.
pub open spec fn bishop_attacks_spec(sq: int, occ: u64) -> u64 {
    bishop_rays(sq % 8, sq / 8, occ)
}

/// The squares from (`f`, `r`) on, stepping by (`df`, `dr`), while both coordinates stay
/// within 1..=6 (the board without its edge squares).
pub open spec fn inner_ray(f: int, r: int, df: int, dr: int) -> u64
    decreases ray_room(f, r, df, dr),
{
    if (df == 0 && dr == 0) || !(1 <= f <= 6 && 1 <= r <= 6) || df < -1 || df > 1 || dr < -1 || dr
        > 1 {
        0u64
    } else {
        (1u64 << ((r * 8 + f) as u64)) | inner_ray(f + df, r + dr, df, dr)
    }
}

/// The squares whose occupancy can change a rook's attacks from `sq`: the other squares of its
/// rank and file, without the edge squares of each line.
pub open spec fn rook_mask_pred(sq: int, t: int) -> bool {
    let f = sq % 8;
    let r = sq / 8;
    t != sq && ((t / 8 == r && 1 <= t % 8 <= 6) || (t % 8 == f && 1 <= t / 8 <= 6))
}

pub open spec fn rook_mask_spec(sq: int) -> u64 {
    bb_of(|t: int| rook_mask_pred(sq, t))
}

/// The squares whose occupancy can change a bishop's attacks from `sq`: its diagonals without
/// the squares on the board's edge.
pub open spec fn bishop_mask_spec(sq: int) -> u64 {
    let f = sq % 8;
    let r = sq / 8;
    inner_ray(f + 1, r + 1, 1, 1) | inner_ray(f + 1, r - 1, 1, -1) | inner_ray(f - 1, r + 1, -1, 1)
        | inner_ray(f - 1, r - 1, -1, -1)
}

/// The squares `rook_relevant_mask` marks for a number `sq` from -7 to -1, which `i32`
/// division places on rank 0 at file `sq`: the squares 1 to 6, and `8 * r + sq` for each `r`
/// from 1 to 6.
pub open spec fn rook_mask_off(sq: int) -> u64 {
    bb_of(|t: int| 1 <= t <= 6 || ((t - sq) % 8 == 0 && 1 <= (t - sq) / 8 <= 6))
}

/// The squares whose occupancy can change a rook's attacks from `sq`. For a number below 0 the
/// file and rank come from `i32` division, as in the marks the loops make; below -7 a mark
/// would fall before square 0.
pub fn rook_relevant_mask(sq: i32) -> (mask: Bitboard)
    requires
        -7 <= sq < 64,
    ensures
        0 <= sq ==> mask == rook_mask_spec(sq as int),
        sq < 0 ==> mask == rook_mask_off(sq as int),
        1 <= popcount(mask) <= 12,
{
    let rank = sq / 8;
    let file = sq % 8;
    assert(rank == trunc_rank(sq as int) && file == trunc_file(sq as int));
    assert(0 <= rank < 8 && -8 < file < 8);
    let mut mask: Bitboard = 0;
    let mut f: i32 = 1;
    while f < 7
        invariant
            1 <= f <= 7,
            rank == trunc_rank(sq as int),
            file == trunc_file(sq as int),
            0 <= rank < 8,
            -8 < file < 8,
            -7 <= sq < 64,
            forall|t: int|
                #![trigger bit(mask, t)]
                bit(mask, t) == (0 <= t < 64 && t / 8 == rank && 1 <= t % 8 < f && t % 8 != file),
            popcount(mask) <= f - 1,
        decreases 7 - f,
    {
        if f != file {
            let s = rank * 8 + f;
            proof {
                lemma_popcount_or(mask, 1u64 << (s as u64));
                lemma_popcount_single(s as u64);
            }
            mask = mask | (1u64 << (s as u64));
            assert forall|t: int| #![trigger bit(mask, t)]
                bit(mask, t) == (0 <= t < 64 && t / 8 == rank && 1 <= t % 8 < f + 1 && t % 8
                    != file) by {
                if 0 <= t < 64 && t == s {
                    assert(t / 8 == rank && t % 8 == f);
                }
            }
        }
        f += 1;
    }
    let mut r: i32 = 1;
    while r < 7
        invariant
            1 <= r <= 7,
            rank == trunc_rank(sq as int),
            file == trunc_file(sq as int),
            0 <= rank < 8,
            -8 < file < 8,
            -7 <= sq < 64,
            forall|t: int|
                #![trigger bit(mask, t)]
                bit(mask, t) == (0 <= t < 64 && ((t / 8 == rank && 1 <= t % 8 <= 6 && t % 8
                    != file) || ((t - file) % 8 == 0 && 1 <= (t - file) / 8 < r && (t - file) / 8
                    != rank))),
            popcount(mask) <= 6 + r - 1,
        decreases 7 - r,
    {
        if r != rank {
            let s = r * 8 + file;
            proof {
                lemma_popcount_or(mask, 1u64 << (s as u64));
                lemma_popcount_single(s as u64);
            }
            mask = mask | (1u64 << (s as u64));
            assert forall|t: int| #![trigger bit(mask, t)]
                bit(mask, t) == (0 <= t < 64 && ((t / 8 == rank && 1 <= t % 8 <= 6 && t % 8
                    != file) || ((t - file) % 8 == 0 && 1 <= (t - file) / 8 < r + 1 && (t - file)
                    / 8 != rank))) by {
                if 0 <= t < 64 && t == s {
                    assert((t - file) / 8 == r && (t - file) % 8 == 0);
                }
            }
        }
        r += 1;
    }
    proof {
        let g: int = if file == 1 {
            2
        } else {
            1
        };
        let w: int = rank * 8 + g;
        assert(w / 8 == rank && w % 8 == g);
        assert(bit(mask, w as int));
        lemma_popcount_nonzero(mask);
        if sq >= 0 {
            assert forall|t: int| 0 <= t < 64 implies bit(mask, t) == bit(
                rook_mask_spec(sq as int),
                t,
            ) by {
                lemma_bb_of_bit(|t: int| rook_mask_pred(sq as int, t), t);
                if (t - file) % 8 == 0 {
                    assert(t % 8 == file && (t - file) / 8 == t / 8);
                }
                if t % 8 == file {
                    assert((t - file) % 8 == 0 && (t - file) / 8 == t / 8);
                }
            }
            lemma_bit_ext(mask, rook_mask_spec(sq as int));
        } else {
            assert(rank == 0 && file == sq);
            assert forall|t: int| 0 <= t < 64 implies bit(mask, t) == bit(rook_mask_off(sq as int), t) by {
                lemma_bb_of_bit(
                    |t: int| 1 <= t <= 6 || ((t - sq) % 8 == 0 && 1 <= (t - sq) / 8 <= 6),
                    t,
                );
            }
            lemma_bit_ext(mask, rook_mask_off(sq as int));
        }
    }
    mask
}

/// The squares from (`f`, `r`) stepping by (`df`, `dr`) while inside 1..=6 on both axes.
fn inner_walk(file: i32, rank: i32, df: i32, dr: i32) -> (mask: Bitboard)
    requires
        0 <= file < 8,
        0 <= rank < 8,
        -1 <= df <= 1,
        -1 <= dr <= 1,
        df != 0 || dr != 0,
    ensures
        mask == inner_ray(file + df, rank + dr, df as int, dr as int),
        popcount(mask) <= 6,
        (1 <= file + df <= 6 && 1 <= rank + dr <= 6) ==> mask != 0,
{
    let mut mask: Bitboard = 0;
    let mut f = file + df;
    let mut r = rank + dr;
    let ghost mut k: int = 0;
    assert(0u64 | inner_ray(f as int, r as int, df as int, dr as int) == inner_ray(
        f as int,
        r as int,
        df as int,
        dr as int,
    )) by {
        lemma_or_laws();
    }
    while f >= 1 && f <= 6 && r >= 1 && r <= 6
        invariant
            -1 <= f <= 8,
            -1 <= r <= 8,
            -1 <= df <= 1,
            -1 <= dr <= 1,
            df != 0 || dr != 0,
            mask | inner_ray(f as int, r as int, df as int, dr as int) == inner_ray(
                file + df,
                rank + dr,
                df as int,
                dr as int,
            ),
            0 <= file < 8,
            0 <= rank < 8,
            0 <= k <= 6,
            popcount(mask) <= k,
            f == file + df + (if df > 0 {
                k
            } else if df < 0 {
                -k
            } else {
                0
            }),
            r == rank + dr + (if dr > 0 {
                k
            } else if dr < 0 {
                -k
            } else {
                0
            }),
            k > 0 ==> mask != 0,
        decreases ray_room(f as int, r as int, df as int, dr as int),
    {
        let b = 1u64 << ((r * 8 + f) as u64);
        let ghost rest = inner_ray(f + df, r + dr, df as int, dr as int);
        proof {
            lemma_or_laws();
            assert((mask | b) | rest == mask | (b | rest));
            lemma_popcount_or(mask, b);
            lemma_popcount_single((r * 8 + f) as u64);
            assert(bit(b, r * 8 + f));
            assert(bit(mask | b, r * 8 + f));
        }
        mask = mask | b;
        f += df;
        r += dr;
        proof {
            k = k + 1;
        }
    }
    proof {
        lemma_or_laws();
    }
    assert(mask | 0u64 == mask);
    mask
}

/// The squares whose occupancy can change a bishop's attacks from `sq`; none for a number off
/// the board, where every diagonal step leaves the inner squares at once.
pub fn bishop_relevant_mask(sq: i32) -> (mask: Bitboard)
    ensures
        0 <= sq < 64 ==> mask == bishop_mask_spec(sq as int),
        0 <= sq < 64 ==> 1 <= popcount(mask) <= 24,
        !(0 <= sq < 64) ==> mask == 0,
{
    if sq < 0 || sq >= 64 {
        return 0;
    }
    let rank = sq / 8;
    let file = sq % 8;
    let a = inner_walk(file, rank, 1, 1);
    let b = inner_walk(file, rank, 1, -1);
    let c = inner_walk(file, rank, -1, 1);
    let d = inner_walk(file, rank, -1, -1);
    proof {
        lemma_popcount_or(a, b);
        lemma_popcount_or(a | b, c);
        lemma_popcount_or(a | b | c, d);
        assert(a != 0 || b != 0 || c != 0 || d != 0);
        assert((a != 0 || b != 0 || c != 0 || d != 0) ==> a | b | c | d != 0) by (bit_vector);
        lemma_popcount_nonzero(a | b | c | d);
    }
    a | b | c | d
}

/// The squares a slider on (`file`, `rank`) reaches in direction (`df`, `dr`).
fn slide(file: i32, rank: i32, df: i32, dr: i32, occupied: Bitboard) -> (attacks: Bitboard)
    requires
        -8 < file < 8,
        -0x1000_0000 <= rank <= 0x1000_0000,
        -1 <= df <= 1,
        -1 <= dr <= 1,
        df != 0 || dr != 0,
    ensures
        attacks == ray(file + df, rank + dr, df as int, dr as int, occupied),
{
    let mut attacks: Bitboard = 0;
    let mut f = file + df;
    let mut r = rank + dr;
    if f < 0 || f >= 8 || r < 0 || r >= 8 {
        return 0;
    }
    let ghost total = ray(file + df, rank + dr, df as int, dr as int, occupied);
    proof {
        lemma_or_laws();
    }
    assert(0u64 | total == total);
    while f >= 0 && f < 8 && r >= 0 && r < 8
        invariant_except_break
            forall|a: u64| #[trigger] (a | 0u64) == a,
            -1 <= f <= 8,
            -1 <= r <= 8,
            -1 <= df <= 1,
            -1 <= dr <= 1,
            df != 0 || dr != 0,
            attacks | ray(f as int, r as int, df as int, dr as int, occupied) == total,
        ensures
            attacks == total,
        decreases ray_room(f as int, r as int, df as int, dr as int),
    {
        let target_sq = r * 8 + f;
        let b = 1u64 << (target_sq as u64);
        let ghost rest = ray(f + df, r + dr, df as int, dr as int, occupied);
        proof {
            lemma_or_laws();
        }
        assert((attacks | b) | rest == attacks | (b | rest));
        attacks = attacks | b;
        if (occupied >> (target_sq as u64)) & 1 != 0 {
            assert((occupied >> (target_sq as u64)) & 1 != 0 ==> (occupied >> (target_sq as u64))
                & 1 == 1) by (bit_vector);
            break ;
        }
        f += df;
        r += dr;
    }
    attacks
}

/// The squares a rook on `sq` attacks, walking each ray up to and including the first
/// occupied square; a number off the board is split into file and rank as `i32` division
/// does.
pub fn rook_attacks_slow(sq: i32, occupied: Bitboard) -> (attacks: Bitboard)
    ensures
        attacks == rook_rays(trunc_file(sq as int), trunc_rank(sq as int), occupied),
        0 <= sq < 64 ==> attacks == rook_attacks_spec(sq as int, occupied),
{
    let rank = sq / 8;
    let file = sq % 8;
    assert(rank == trunc_rank(sq as int) && file == trunc_file(sq as int));
    slide(file, rank, 0, 1, occupied) | slide(file, rank, 0, -1, occupied) | slide(
        file,
        rank,
        1,
        0,
        occupied,
    ) | slide(file, rank, -1, 0, occupied)
}

/// The squares a bishop on `sq` attacks, walking each diagonal up to and including the first
/// occupied square; a number off the board is split into file and rank as `i32` division
/// does.
pub fn bishop_attacks_slow(sq: i32, occupied: Bitboard) -> (attacks: Bitboard)
    ensures
        attacks == bishop_rays(trunc_file(sq as int), trunc_rank(sq as int), occupied),
        0 <= sq < 64 ==> attacks == bishop_attacks_spec(sq as int, occupied),
{
    let rank = sq / 8;
    let file = sq % 8;
    assert(rank == trunc_rank(sq as int) && file == trunc_file(sq as int));
    slide(file, rank, 1, 1, occupied) | slide(file, rank, 1, -1, occupied) | slide(
        file,
        rank,
        -1,
        1,
        occupied,
    ) | slide(file, rank, -1, -1, occupied)
}

/// `subset` is a subset of `mask`.
pub open spec fn subset_of(s: u64, m: u64) -> bool {
    s & !m == 0
}

/// The next subset of `mask` after `s` in increasing order (0 after `mask` itself), as the
/// carry-rippler step `(s - mask) & mask` computes it.
pub open spec fn next_subset_spec(s: u64, m: u64) -> u64 {
    s.wrapping_sub(m) & m
}

/// The carry-rippler step: from a subset of `mask` it reaches the next larger subset, with
/// none in between, and wraps to 0 after `mask`.
pub proof fn lemma_next_subset(s: u64, m: u64)
    requires
        subset_of(s, m),
    ensures
        subset_of(next_subset_spec(s, m), m),
        s != m ==> s < next_subset_spec(s, m),
        s == m ==> next_subset_spec(s, m) == 0,
        forall|t: u64| #![trigger subset_of(t, m)] subset_of(t, m) && s < t ==> next_subset_spec(s, m) <= t,
{
    let w = s.wrapping_sub(m);
    assert(w == (if s - m < 0 { (s - m + 0x1_0000_0000_0000_0000int) as u64 } else { (s - m) as u64 }));
    assert(w == (((s as int - m as int) + 0x1_0000_0000_0000_0000int) as u64) && (w & m) & !m == 0
        && (s != m ==> s < (w & m)) && (s == m ==> (w & m) == 0)) by (bit_vector)
        requires
            s & !m == 0,
            w == (if s - m < 0 { (s - m + 0x1_0000_0000_0000_0000int) as u64 } else { (s - m) as u64 }),
    ;
    assert forall|t: u64| #![trigger subset_of(t, m)] subset_of(t, m) && s < t implies (w & m) <= t by {
        assert((t & !m == 0 && s < t) ==> (w & m) <= t) by (bit_vector)
            requires s & !m == 0, w == (((s as int - m as int) + 0x1_0000_0000_0000_0000int) as u64);
    }
}

pub fn next_subset(subset: Bitboard, mask: Bitboard) -> (r: Bitboard)
    ensures
        r == next_subset_spec(subset, mask),
{
    (subset.wrapping_sub(mask)) & mask
}

/// A xorshift random number generator.
pub struct Rng {
    state: u64,
}

impl View for Rng {
    type V = u64;

    closed spec fn view(&self) -> u64 {
        self.state
    }
}

/// One xorshift step.
pub open spec fn xorshift(x: u64) -> u64 {
    let a = x ^ (x << 13u64);
    let b = a ^ (a >> 7u64);
    b ^ (b << 17u64)
}

/// The generator state after `k` draws from state `s`.
pub open spec fn rng_after(s: u64, k: nat) -> u64
    decreases k,
{
    if k == 0 {
        s
    } else {
        xorshift(rng_after(s, (k - 1) as nat))
    }
}

/// The bitwise and of the next three draws from state `s`.
pub open spec fn sparse_draw(s: u64) -> u64 {
    xorshift(s) & xorshift(xorshift(s)) & xorshift(xorshift(xorshift(s)))
}

/// The `k`-th magic candidate drawn from state `s`: each takes three draws.
pub open spec fn candidate(s: u64, k: nat) -> u64 {
    sparse_draw(rng_after(s, 3 * k))
}

impl Rng {
    pub fn new(seed: u64) -> (r: Rng)
        ensures
            r@ == seed,
    {
        Rng { state: seed }
    }

    pub fn next_u64(&mut self) -> (x: u64)
        ensures
            x == xorshift(old(self)@),
            final(self)@ == x,
    {
        let mut x = self.state;
        x ^= x << 13;
        x ^= x >> 7;
        x ^= x << 17;
        self.state = x;
        x
    }

    /// A draw with few bits set: the bitwise and of three draws.
    pub fn next_sparse_u64(&mut self) -> (x: u64)
        ensures
            x == sparse_draw(old(self)@),
            final(self)@ == xorshift(xorshift(xorshift(old(self)@))),
    {
        self.next_u64() & self.next_u64() & self.next_u64()
    }
}

/// The slot that the magic number `c` gives to the occupancy `s` in a table of
/// `2^(64 - shift)` entries.
pub open spec fn magic_index(s: u64, c: u64, shift: u64) -> u64 {
    s.wrapping_mul(c) >> shift
}

/// The slider attacks from `sq` for the occupancy `occ`: a rook's or a bishop's, with the
/// file and rank that `i32` division gives.
pub open spec fn slider_attacks(sq: int, occ: u64, is_rook: bool) -> u64 {
    if is_rook {
        rook_rays(trunc_file(sq), trunc_rank(sq), occ)
    } else {
        bishop_rays(trunc_file(sq), trunc_rank(sq), occ)
    }
}

/// `c` is a magic number for `sq` and `mask`: two subsets of the mask that land in the same
/// slot always have the same attacks.
pub open spec fn valid_magic(sq: int, mask: u64, is_rook: bool, c: u64) -> bool {
    forall|a: u64, b: u64|
        #![trigger magic_index(a, c, (64 - popcount(mask)) as u64), magic_index(b, c, (64 - popcount(mask)) as u64)]
        subset_of(a, mask) && subset_of(b, mask) && magic_index(a, c, (64 - popcount(mask)) as u64)
            == magic_index(b, c, (64 - popcount(mask)) as u64) ==> slider_attacks(sq, a, is_rook)
            == slider_attacks(sq, b, is_rook)
}

/// How many candidates `find_magic` tries before it gives up.
pub open spec fn magic_tries() -> nat {
    0xFFFF_FFFF_FFFF_FFFF
}

fn slider_attacks_exec(sq: i32, occ: u64, is_rook: bool) -> (a: u64)
    ensures
        a == slider_attacks(sq as int, occ, is_rook),
{
    if is_rook {
        rook_attacks_slow(sq, occ)
    } else {
        bishop_attacks_slow(sq, occ)
    }
}

proof fn lemma_index_bound(x: u64, bits: u64)
    requires
        1 <= bits <= 63,
    ensures
        x >> ((64 - bits) as u64) < (1u64 << bits),
        (1u64 << bits) == pow2_u64(bits),
{
    assert(1 <= bits <= 63 ==> x >> ((64 - bits) as u64) < (1u64 << bits)) by (bit_vector);
    lemma_pow2_u64(bits);
}

/// A table for `bits` index bits has `2^bits` entries, at most `2^24`.
proof fn lemma_table_size(bits: u32)
    requires
        1 <= bits <= 24,
    ensures
        (1usize << bits) as u64 == (1u64 << (bits as u64)),
        (1usize << bits) <= 0x100_0000,
        (1u64 << (bits as u64)) == pow2_u64(bits as u64),
{
    assert((1usize << bits) as u64 == (1u64 << (bits as u64)) && (1usize << bits) <= 0x100_0000)
        by (bit_vector)
        requires
            1 <= bits <= 24,
    ;
    lemma_pow2_u64(bits as u64);
}

/// A table of `2^bits` words fits in memory: its size in bytes is at most `isize::MAX`, the
/// largest allocation a `Vec` makes without panicking.
pub open spec fn table_fits(bits: nat) -> bool {
    pow2_u64(bits as u64) * 8 <= isize::MAX
}

/// Powers of two grow with the exponent.
proof fn lemma_pow2_mono(a: u64, b: u64)
    requires
        a <= b,
    ensures
        pow2_u64(a) <= pow2_u64(b),
    decreases b,
{
    if a < b {
        lemma_pow2_mono(a, (b - 1) as u64);
        lemma_pow2_pos((b - 1) as u64);
    }
}

/// A table that fits in memory has fewer than `usize::BITS - 3` index bits, and `1 << bits`
/// computed on `usize` is its number of slots.
proof fn lemma_table_fits(bits: u32)
    requires
        table_fits(bits as nat),
    ensures
        bits as u64 + 4 <= usize::BITS,
        (1usize << bits) == pow2_u64(bits as u64),
{
    assert(1u64 << 60u64 == 0x1000_0000_0000_0000u64 && 1u64 << 28u64 == 0x1000_0000u64)
        by (bit_vector);
    lemma_pow2_u64(60);
    lemma_pow2_u64(28);
    if usize::BITS == 32 {
        if bits >= 28 {
            lemma_pow2_mono(28, bits as u64);
        }
    } else {
        if bits >= 60 {
            lemma_pow2_mono(60, bits as u64);
        }
    }
    assert(bits as u64 + 4 <= usize::BITS);
    lemma_pow2_u64(bits as u64);
    assert((bits as u64) + 4 <= (usize::BITS as u64) ==> (1usize << bits) as u64 == (1u64 << (
    bits as u64))) by (bit_vector);
}

/// Shifting the empty bitboard gives the empty bitboard.
proof fn lemma_zero_shift(sh: u64)
    ensures
        0u64 >> sh == 0,
{
    assert(0u64 >> sh == 0) by (bit_vector);
}

/// A power of two is at least 1.
proof fn lemma_pow2_pos(bits: u64)
    ensures
        pow2_u64(bits) >= 1,
    decreases bits,
{
    if bits > 0 {
        lemma_pow2_pos((bits - 1) as u64);
    }
}

/// `2^bits` for small `bits`.
pub open spec fn pow2_u64(bits: u64) -> int
    decreases bits,
{
    if bits == 0 {
        1
    } else {
        2 * pow2_u64((bits - 1) as u64)
    }
}

proof fn lemma_pow2_u64(bits: u64)
    requires
        bits <= 63,
    ensures
        (1u64 << bits) == pow2_u64(bits),
    decreases bits,
{
    if bits == 0 {
        assert(1u64 << 0u64 == 1) by (bit_vector);
    } else {
        lemma_pow2_u64((bits - 1) as u64);
        assert(1 <= bits <= 63 ==> (1u64 << bits) == 2 * (1u64 << ((bits - 1) as u64)))
            by (bit_vector);
    }
}

/// All subsets of `mask`, in increasing order, with their slider attacks.
fn enumerate_subsets(sq: i32, mask: u64, is_rook: bool) -> (r: (Vec<u64>, Vec<u64>))
    ensures
        r.0@.len() == r.1@.len(),
        forall|j: int| 0 <= j < r.0@.len() ==> subset_of(#[trigger] r.0@[j], mask),
        forall|j: int|
            0 <= j < r.0@.len() ==> #[trigger] r.1@[j] == slider_attacks(sq as int, r.0@[j], is_rook),
        forall|t: u64| subset_of(t, mask) ==> exists|j: int| 0 <= j < r.0@.len() && #[trigger] r.0@[j] == t,
{
    let mut subsets: Vec<u64> = Vec::new();
    let mut attacks: Vec<u64> = Vec::new();
    let mut subset: u64 = 0;
    proof {
        lemma_subset_laws();
    }
    assert(0u64 & !mask == 0);
    loop
        invariant_except_break
            subset_of(subset, mask),
            forall|t: u64| subset_of(t, mask) && t < subset ==> exists|j: int| 0 <= j < subsets@.len() && #[trigger] subsets@[j] == t,
        invariant
            subsets@.len() == attacks@.len(),
            forall|j: int| 0 <= j < subsets@.len() ==> subset_of(#[trigger] subsets@[j], mask),
            forall|j: int|
                0 <= j < subsets@.len() ==> #[trigger] attacks@[j] == slider_attacks(sq as int, subsets@[j], is_rook),
        ensures
            forall|t: u64| subset_of(t, mask) ==> exists|j: int| 0 <= j < subsets@.len() && #[trigger] subsets@[j] == t,
        decreases mask - subset,
    {
        let ghost old_s = subsets@;
        subsets.push(subset);
        attacks.push(slider_attacks_exec(sq, subset, is_rook));
        let ghost cur = subset;
        assert(subsets@ == old_s.push(cur));
        proof {
            lemma_next_subset(cur, mask);
            assert forall|t: u64| subset_of(t, mask) && t <= cur implies exists|j: int| 0 <= j < subsets@.len() && #[trigger] subsets@[j] == t by {
                if t == cur {
                    assert(subsets@[subsets@.len() - 1] == t);
                } else {
                    assert(t < cur);
                    let j = choose|j: int| 0 <= j < old_s.len() && #[trigger] old_s[j] == t;
                    assert(subsets@[j] == t);
                }
            }
        }
        subset = next_subset(subset, mask);
        if subset == 0 {
            proof {
                assert(cur == mask);
                assert forall|t: u64| subset_of(t, mask) implies exists|j: int| 0 <= j < subsets@.len() && #[trigger] subsets@[j] == t by {
                    lemma_subset_laws();
                    assert(t & !mask == 0 ==> t <= mask);
                }
            }
            break;
        }
        proof {
            assert forall|t: u64| subset_of(t, mask) && t < subset implies exists|j: int| 0 <= j < subsets@.len() && #[trigger] subsets@[j] == t by {
                if cur < t {
                    assert(subset <= t);
                }
            }
            assert(cur != mask);
            assert(cur < subset);
            lemma_subset_laws();
            assert(subset & !mask == 0 ==> subset <= mask);
        }
    }
    (subsets, attacks)
}

/// Whether `candidate` sends no two subsets with different attacks to the same slot, checked
/// over the listed subsets.
fn magic_ok(
    sq: i32,
    mask: u64,
    is_rook: bool,
    subsets: &Vec<u64>,
    attacks: &Vec<u64>,
    candidate: u64,
    shift: u32,
    table_size: usize,
) -> (ok: bool)
    requires
        1 <= popcount(mask),
        table_fits(popcount(mask)),
        shift == 64 - popcount(mask),
        table_size == pow2_u64((64 - shift) as u64),
        subsets@.len() == attacks@.len(),
        forall|j: int| 0 <= j < subsets@.len() ==> subset_of(#[trigger] subsets@[j], mask),
        forall|j: int|
            0 <= j < subsets@.len() ==> #[trigger] attacks@[j] == slider_attacks(sq as int, subsets@[j], is_rook),
        forall|t: u64| subset_of(t, mask) ==> exists|j: int| 0 <= j < subsets@.len() && #[trigger] subsets@[j] == t,
    ensures
        ok == valid_magic(sq as int, mask, is_rook, candidate),
{
    let ghost sh = shift as u64;
    let ghost bits = (64 - shift) as u64;
    proof {
        lemma_table_fits((64 - shift) as u32);
    }
    let mut used: Vec<u64> = vec![0; table_size];
    let mut filled: Vec<bool> = vec![false; table_size];
    let mut i: usize = 0;
    while i < subsets.len()
        invariant
            i <= subsets@.len(),
            sh == shift,
            shift == 64 - popcount(mask),
            bits == 64 - shift,
            1 <= bits <= 63,
            used@.len() == table_size,
            filled@.len() == table_size,
            table_size == pow2_u64(bits),
            subsets@.len() == attacks@.len(),
            forall|j: int| 0 <= j < subsets@.len() ==> subset_of(#[trigger] subsets@[j], mask),
            forall|j: int|
                0 <= j < subsets@.len() ==> #[trigger] attacks@[j] == slider_attacks(sq as int, subsets@[j], is_rook),
            forall|j: int| 0 <= j < i ==> {
                let k = magic_index(#[trigger] subsets@[j], candidate, sh) as int;
                0 <= k < table_size && filled@[k] && used@[k] == attacks@[j]
            },
            forall|k: int| 0 <= k < table_size && #[trigger] filled@[k] ==> exists|j: int|
                0 <= j < i && magic_index(#[trigger] subsets@[j], candidate, sh) == k && used@[k] == attacks@[j],
        decreases subsets.len() - i,
    {
        let s = subsets[i];
        proof {
            lemma_index_bound(s.wrapping_mul(candidate), bits);
        }
        let idx = ((s.wrapping_mul(candidate)) >> shift) as usize;
        proof {
            assert(idx == magic_index(s, candidate, sh));
        }
        if !filled[idx] {
            filled.set(idx, true);
            used.set(idx, attacks[i]);
            assert forall|k: int| 0 <= k < table_size && #[trigger] filled@[k] implies exists|j: int|
                0 <= j < i + 1 && magic_index(#[trigger] subsets@[j], candidate, sh) == k && used@[k] == attacks@[j] by {
                if k == idx {
                    assert(magic_index(subsets@[i as int], candidate, sh) == k);
                }
            }
        } else if used[idx] != attacks[i] {
            proof {
                let j = choose|j: int| 0 <= j < i && magic_index(#[trigger] subsets@[j], candidate, sh) == idx && used@[idx as int] == attacks@[j];
                let a = subsets@[j];
                let b = subsets@[i as int];
                assert(magic_index(a, candidate, sh) == magic_index(b, candidate, sh));
                assert(slider_attacks(sq as int, a, is_rook) != slider_attacks(sq as int, b, is_rook));
                let w = (64 - popcount(mask)) as u64;
                assert(w == sh);
                assert(magic_index(a, candidate, w) == magic_index(b, candidate, w));
                assert(subset_of(a, mask) && subset_of(b, mask));
                assert(!valid_magic(sq as int, mask, is_rook, candidate));
            }
            return false;
        }
        i += 1;
    }
    assert forall|a: u64, b: u64|
        subset_of(a, mask) && subset_of(b, mask) && magic_index(a, candidate, sh)
            == magic_index(b, candidate, sh) implies slider_attacks(sq as int, a, is_rook)
            == slider_attacks(sq as int, b, is_rook) by {
        let ja = choose|j: int| 0 <= j < subsets@.len() && #[trigger] subsets@[j] == a;
        let jb = choose|j: int| 0 <= j < subsets@.len() && #[trigger] subsets@[j] == b;
        assert(subsets@[ja] == a);
        assert(subsets@[jb] == b);
    }
    true
}

/// `k` is the first of the candidates drawn from state `s` that is a valid magic number.
pub open spec fn first_valid(sq: int, mask: u64, is_rook: bool, s: u64, k: nat) -> bool {
    &&& k < magic_tries()
    &&& valid_magic(sq, mask, is_rook, candidate(s, k))
    &&& forall|j: nat| j < k ==> !valid_magic(sq, mask, is_rook, #[trigger] candidate(s, j))
}

/// The magic number that a search from generator state `s` settles on, and the state it
/// leaves: the first valid candidate, or 0 once every candidate has been tried.
pub open spec fn search_result(sq: int, mask: u64, is_rook: bool, s: u64) -> (u64, u64) {
    if exists|k: nat| first_valid(sq, mask, is_rook, s, k) {
        let k = choose|k: nat| first_valid(sq, mask, is_rook, s, k);
        (candidate(s, k), rng_after(s, 3 * k + 3))
    } else {
        (0, rng_after(s, 3 * magic_tries()))
    }
}

/// At most one candidate is the first valid one.
proof fn lemma_first_valid_unique(sq: int, mask: u64, is_rook: bool, s: u64, a: nat, b: nat)
    requires
        first_valid(sq, mask, is_rook, s, a),
        first_valid(sq, mask, is_rook, s, b),
    ensures
        a == b,
{
    if a < b {
        assert(!valid_magic(sq, mask, is_rook, candidate(s, a)));
    } else if b < a {
        assert(!valid_magic(sq, mask, is_rook, candidate(s, b)));
    }
}

/// Searches for a magic number for `sq` and `mask`: draws sparse candidates from `rng` until
/// one maps every two subsets of the mask with different attacks to different slots.
pub fn find_magic(sq: i32, mask: Bitboard, is_rook: bool, rng: &mut Rng) -> (magic: u64)
    requires
        1 <= popcount(mask),
        table_fits(popcount(mask)),
    ensures
        ({
            &&& valid_magic(sq as int, mask, is_rook, magic)
            &&& exists|k: nat|
                k < magic_tries() && magic == candidate(old(rng)@, k) && final(rng)@ == rng_after(
                    old(rng)@,
                    3 * k + 3,
                ) && forall|j: nat| j < k ==> !valid_magic(sq as int, mask, is_rook, #[trigger] candidate(old(rng)@, j))
        }) || ({
            &&& magic == 0
            &&& final(rng)@ == rng_after(old(rng)@, 3 * magic_tries())
            &&& forall|j: nat| j < magic_tries() ==> !valid_magic(sq as int, mask, is_rook, #[trigger] candidate(old(rng)@, j))
        }),
        (magic, final(rng)@) == search_result(sq as int, mask, is_rook, old(rng)@),
{
    let bits = pop_count(mask);
    proof {
        lemma_table_fits(bits);
    }
    let shift = 64 - bits;
    let (subsets, attacks) = enumerate_subsets(sq, mask, is_rook);
    let table_size = 1usize << bits;
    let ghost s0 = rng@;
    let mut tries: u64 = 0;
    while tries < 0xFFFF_FFFF_FFFF_FFFF
        invariant
            1 <= popcount(mask),
            table_fits(popcount(mask)),
            shift == 64 - popcount(mask),
            table_size == pow2_u64((64 - shift) as u64),
            s0 == old(rng)@,
            rng@ == rng_after(s0, 3 * tries as nat),
            subsets@.len() == attacks@.len(),
            forall|j: int| 0 <= j < subsets@.len() ==> subset_of(#[trigger] subsets@[j], mask),
            forall|j: int|
                0 <= j < subsets@.len() ==> #[trigger] attacks@[j] == slider_attacks(sq as int, subsets@[j], is_rook),
            forall|t: u64| subset_of(t, mask) ==> exists|j: int| 0 <= j < subsets@.len() && #[trigger] subsets@[j] == t,
            forall|j: nat| j < tries ==> !valid_magic(sq as int, mask, is_rook, #[trigger] candidate(s0, j)),
        decreases 0xFFFF_FFFF_FFFF_FFFFu64 - tries,
    {
        let ghost before = rng@;
        let c = rng.next_sparse_u64();
        proof {
            let t = 3 * tries as nat;
            assert(rng_after(s0, t + 1) == xorshift(rng_after(s0, t)));
            assert(rng_after(s0, t + 2) == xorshift(rng_after(s0, t + 1)));
            assert(rng_after(s0, t + 3) == xorshift(rng_after(s0, t + 2)));
            assert(c == candidate(s0, tries as nat));
            assert(3 * (tries as nat) + 3 == 3 * ((tries + 1) as nat));
        }
        if magic_ok(sq, mask, is_rook, &subsets, &attacks, c, shift, table_size) {
            proof {
                let k = tries as nat;
                assert(first_valid(sq as int, mask, is_rook, s0, k));
                let k2 = choose|k2: nat| first_valid(sq as int, mask, is_rook, s0, k2);
                lemma_first_valid_unique(sq as int, mask, is_rook, s0, k, k2);
            }
            return c;
        }
        tries += 1;
    }
    proof {
        if exists|k: nat| first_valid(sq as int, mask, is_rook, s0, k) {
            let k = choose|k: nat| first_valid(sq as int, mask, is_rook, s0, k);
            assert(!valid_magic(sq as int, mask, is_rook, candidate(s0, k)));
        }
    }
    0
}

/// Whether every square of the ray from (`f`, `r`) in direction (`df`, `dr`), except the last
/// one on the board, belongs to `m`: then only the squares of `m` can block the ray.
pub open spec fn path_ok(f: int, r: int, df: int, dr: int, m: u64) -> bool
    decreases ray_room(f, r, df, dr),
{
    if (df == 0 && dr == 0) || !(0 <= f < 8 && 0 <= r < 8) || df < -1 || df > 1 || dr < -1 || dr
        > 1 {
        true
    } else {
        ((0 <= f + df < 8 && 0 <= r + dr < 8) ==> bit(m, r * 8 + f)) && path_ok(
            f + df,
            r + dr,
            df,
            dr,
            m,
        )
    }
}

/// A ray only depends on the occupancy of the squares of a mask that covers its path.
proof fn lemma_ray_relevant(f: int, r: int, df: int, dr: int, occ: u64, m: u64)
    requires
        path_ok(f, r, df, dr, m),
    ensures
        ray(f, r, df, dr, occ) == ray(f, r, df, dr, occ & m),
    decreases ray_room(f, r, df, dr),
{
    if (df == 0 && dr == 0) || !(0 <= f < 8 && 0 <= r < 8) || df < -1 || df > 1 || dr < -1 || dr
        > 1 {
    } else {
        let s = r * 8 + f;
        lemma_ray_relevant(f + df, r + dr, df, dr, occ, m);
        if !(0 <= f + df < 8 && 0 <= r + dr < 8) {
            assert(ray(f + df, r + dr, df, dr, occ) == 0);
            assert(ray(f + df, r + dr, df, dr, occ & m) == 0);
            let b = 1u64 << (s as u64);
            lemma_or_laws();
            assert(b | 0u64 == b);
        }
    }
}

/// Growing the mask keeps the path covered.
proof fn lemma_path_mono(f: int, r: int, df: int, dr: int, m1: u64, m2: u64)
    requires
        path_ok(f, r, df, dr, m1),
        forall|t: int| #[trigger] bit(m1, t) ==> bit(m2, t),
    ensures
        path_ok(f, r, df, dr, m2),
    decreases ray_room(f, r, df, dr),
{
    if (df == 0 && dr == 0) || !(0 <= f < 8 && 0 <= r < 8) || df < -1 || df > 1 || dr < -1 || dr
        > 1 {
    } else {
        lemma_path_mono(f + df, r + dr, df, dr, m1, m2);
    }
}

/// The rook mask of `sq` covers the path of each of its four rays.
proof fn lemma_rook_path(sq: int, f: int, r: int, df: int, dr: int)
    requires
        0 <= sq < 64,
        (df == 0 && (dr == 1 || dr == -1)) || (dr == 0 && (df == 1 || df == -1)),
        df == 0 ==> f == sq % 8 && (dr > 0 ==> r > sq / 8) && (dr < 0 ==> r < sq / 8),
        dr == 0 ==> r == sq / 8 && (df > 0 ==> f > sq % 8) && (df < 0 ==> f < sq % 8),
    ensures
        path_ok(f, r, df, dr, rook_mask_spec(sq)),
    decreases ray_room(f, r, df, dr),
{
    if 0 <= f < 8 && 0 <= r < 8 {
        lemma_rook_path(sq, f + df, r + dr, df, dr);
        if 0 <= f + df < 8 && 0 <= r + dr < 8 {
            let t = r * 8 + f;
            assert(t / 8 == r && t % 8 == f);
            lemma_bb_of_bit(|t: int| rook_mask_pred(sq, t), t);
        }
    }
}

/// The inner ray from (`f`, `r`) covers its own path.
proof fn lemma_inner_path(f: int, r: int, df: int, dr: int)
    requires
        df == 1 || df == -1,
        dr == 1 || dr == -1,
        df > 0 ==> f >= 1,
        df < 0 ==> f <= 6,
        dr > 0 ==> r >= 1,
        dr < 0 ==> r <= 6,
    ensures
        path_ok(f, r, df, dr, inner_ray(f, r, df, dr)),
    decreases ray_room(f, r, df, dr),
{
    if 0 <= f < 8 && 0 <= r < 8 {
        lemma_inner_path(f + df, r + dr, df, dr);
        if 1 <= f <= 6 && 1 <= r <= 6 {
            let s = r * 8 + f;
            let rest = inner_ray(f + df, r + dr, df, dr);
            assert(inner_ray(f, r, df, dr) == (1u64 << (s as u64)) | rest);
            assert(bit(1u64 << (s as u64), s));
            lemma_path_mono(f + df, r + dr, df, dr, rest, inner_ray(f, r, df, dr));
        }
    }
}

/// A slider's attacks only depend on the occupancy of the squares of its relevant mask.
pub proof fn lemma_slider_relevant(sq: int, occ: u64)
    requires
        0 <= sq < 64,
    ensures
        rook_attacks_spec(sq, occ) == rook_attacks_spec(sq, occ & rook_mask_spec(sq)),
        bishop_attacks_spec(sq, occ) == bishop_attacks_spec(sq, occ & bishop_mask_spec(sq)),
{
    let f = sq % 8;
    let r = sq / 8;
    let m = rook_mask_spec(sq);
    lemma_rook_path(sq, f, r + 1, 0, 1);
    lemma_rook_path(sq, f, r - 1, 0, -1);
    lemma_rook_path(sq, f + 1, r, 1, 0);
    lemma_rook_path(sq, f - 1, r, -1, 0);
    lemma_ray_relevant(f, r + 1, 0, 1, occ, m);
    lemma_ray_relevant(f, r - 1, 0, -1, occ, m);
    lemma_ray_relevant(f + 1, r, 1, 0, occ, m);
    lemma_ray_relevant(f - 1, r, -1, 0, occ, m);
    let a = inner_ray(f + 1, r + 1, 1, 1);
    let b = inner_ray(f + 1, r - 1, 1, -1);
    let c = inner_ray(f - 1, r + 1, -1, 1);
    let d = inner_ray(f - 1, r - 1, -1, -1);
    let bm = bishop_mask_spec(sq);
    assert(bm == a | b | c | d);
    lemma_inner_path(f + 1, r + 1, 1, 1);
    lemma_inner_path(f + 1, r - 1, 1, -1);
    lemma_inner_path(f - 1, r + 1, -1, 1);
    lemma_inner_path(f - 1, r - 1, -1, -1);
    lemma_path_mono(f + 1, r + 1, 1, 1, a, bm);
    lemma_path_mono(f + 1, r - 1, 1, -1, b, bm);
    lemma_path_mono(f - 1, r + 1, -1, 1, c, bm);
    lemma_path_mono(f - 1, r - 1, -1, -1, d, bm);
    lemma_ray_relevant(f + 1, r + 1, 1, 1, occ, bm);
    lemma_ray_relevant(f + 1, r - 1, 1, -1, occ, bm);
    lemma_ray_relevant(f - 1, r + 1, -1, 1, occ, bm);
    lemma_ray_relevant(f - 1, r - 1, -1, -1, occ, bm);
}


/// The relevant mask of a rook's or a bishop's square.
pub open spec fn slider_mask_spec(sq: int, is_rook: bool) -> u64 {
    if is_rook {
        rook_mask_spec(sq)
    } else {
        bishop_mask_spec(sq)
    }
}

/// Where a square's magic lookup stores the attacks for a board occupancy.
#[derive(Clone, Copy)]
pub struct MagicEntry {
    pub mask: Bitboard,
    pub magic: u64,
    pub shift: u32,
    pub offset: usize,
}

/// The table slot that `e` gives to the relevant occupancy `s`.
pub open spec fn entry_slot(e: MagicEntry, s: u64) -> int {
    e.offset + magic_index(s, e.magic, e.shift as u64)
}

/// `e` is a working lookup for the slider on `sq` into `table`: its mask is the square's
/// relevant mask, its magic number is valid, its part of the table lies inside `table`, and
/// each subset of the mask finds the attacks it stands for in its slot.
pub open spec fn entry_ok(e: MagicEntry, table: Seq<u64>, sq: int, is_rook: bool) -> bool {
    &&& e.mask == slider_mask_spec(sq, is_rook)
    &&& 1 <= popcount(e.mask) <= 24
    &&& e.shift == 64 - popcount(e.mask)
    &&& e.offset + pow2_u64((64 - e.shift) as u64) <= table.len()
    &&& valid_magic(sq, e.mask, is_rook, e.magic)
    &&& forall|s: u64|
        subset_of(s, e.mask) ==> table[#[trigger] entry_slot(e, s)] == slider_attacks(
            sq,
            s,
            is_rook,
        )
}

/// The search for the magic number of `e` ran through every candidate without finding a
/// valid one, whatever state the generator started from, and left the number 0.
pub open spec fn entry_gave_up(e: MagicEntry, sq: int, is_rook: bool) -> bool {
    &&& e.mask == slider_mask_spec(sq, is_rook)
    &&& e.magic == 0
    &&& exists|s: u64| #[trigger] search_exhausted(sq, e.mask, is_rook, s)
}

/// None of the candidates that a search from generator state `s` tries is a valid magic
/// number.
pub open spec fn search_exhausted(sq: int, mask: u64, is_rook: bool, s: u64) -> bool {
    forall|j: nat| j < magic_tries() ==> !valid_magic(sq, mask, is_rook, #[trigger] candidate(s, j))
}

/// Every slot of `e`'s part of `table` that holds something other than 0 is the slot of some
/// subset of its mask.
pub open spec fn entry_unused_zero(e: MagicEntry, table: Seq<u64>) -> bool {
    forall|j: int|
        e.offset <= j < e.offset + pow2_u64((64 - e.shift) as u64) && table[j] != 0 ==> exists|
            t: u64,
        | subset_of(t, e.mask) && #[trigger] entry_slot(e, t) == j
}

/// The attack lookups of all sliders: an entry per square and a shared table for each kind.
pub struct MagicTables {
    pub rook_magics: [MagicEntry; 64],
    pub bishop_magics: [MagicEntry; 64],
    pub rook_table: Vec<Bitboard>,
    pub bishop_table: Vec<Bitboard>,
}

/// An entry stays a working lookup when its table grows at the end.
proof fn lemma_entry_ok_extend(e: MagicEntry, t1: Seq<u64>, t2: Seq<u64>, sq: int, is_rook: bool)
    requires
        entry_ok(e, t1, sq, is_rook),
        t1.len() <= t2.len(),
        t2.subrange(0, t1.len() as int) == t1,
    ensures
        entry_ok(e, t2, sq, is_rook),
{
    let bits = (64 - e.shift) as u64;
    assert forall|s: u64| subset_of(s, e.mask) implies t2[#[trigger] entry_slot(e, s)]
        == slider_attacks(sq, s, is_rook) by {
        lemma_index_bound(s.wrapping_mul(e.magic), bits);
        assert(t2[entry_slot(e, s)] == t2.subrange(0, t1.len() as int)[entry_slot(e, s)]);
    }
}

/// The number of table slots of the squares `0..n` for one kind of slider: `2^k` for a square
/// whose relevant mask has `k` squares.
pub open spec fn slider_table_len(is_rook: bool, n: nat) -> int
    decreases n,
{
    if n == 0 {
        0
    } else {
        slider_table_len(is_rook, (n - 1) as nat) + pow2_u64(
            popcount(slider_mask_spec(n - 1, is_rook)) as u64,
        )
    }
}

/// `e` is the entry that the table build makes for square `sq`: it has the square's relevant
/// mask, the matching shift and its part of `table` at slots `slider_table_len(.., sq)` on;
/// it is a working lookup or its search ran out of candidates; its slots that no subset of the
/// mask reaches hold 0; and its first slot holds the empty board's attacks (the attacks of
/// the full mask when the search ran out and every subset lands there).
pub open spec fn entry_built(e: MagicEntry, table: Seq<u64>, sq: int, is_rook: bool) -> bool {
    &&& e.mask == slider_mask_spec(sq, is_rook)
    &&& e.shift == 64 - popcount(e.mask)
    &&& e.offset == slider_table_len(is_rook, sq as nat)
    &&& e.offset + pow2_u64((64 - e.shift) as u64) <= table.len()
    &&& entry_ok(e, table, sq, is_rook) || entry_gave_up(e, sq, is_rook)
    &&& entry_unused_zero(e, table)
    &&& table[e.offset as int] == (if e.magic == 0 {
        slider_attacks(sq, e.mask, is_rook)
    } else {
        slider_attacks(sq, 0, is_rook)
    })
}

/// A built entry stays built when its table grows at the end.
proof fn lemma_entry_built_extend(e: MagicEntry, t1: Seq<u64>, t2: Seq<u64>, sq: int, is_rook: bool)
    requires
        entry_built(e, t1, sq, is_rook),
        t1.len() <= t2.len(),
        t2.subrange(0, t1.len() as int) == t1,
    ensures
        entry_built(e, t2, sq, is_rook),
{
    if entry_ok(e, t1, sq, is_rook) {
        lemma_entry_ok_extend(e, t1, t2, sq, is_rook);
    }
    assert forall|j: int|
        e.offset <= j < e.offset + pow2_u64((64 - e.shift) as u64) && t2[j] != 0 implies exists|
            t: u64,
        | subset_of(t, e.mask) && #[trigger] entry_slot(e, t) == j by {
        assert(t2[j] == t2.subrange(0, t1.len() as int)[j]);
    }
    lemma_pow2_pos((64 - e.shift) as u64);
    assert(t2[e.offset as int] == t2.subrange(0, t1.len() as int)[e.offset as int]);
}

/// Finds the magic number of the slider on `sq`, appends its part of the attack table to
/// `table` and fills it.
fn build_entry(sq: i32, is_rook: bool, rng: &mut Rng, table: &mut Vec<Bitboard>) -> (e:
    MagicEntry)
    requires
        0 <= sq < 64,
        old(table)@.len() <= sq * 0x100_0000,
    ensures
        e.offset == old(table)@.len(),
        old(table)@.len() <= final(table)@.len(),
        final(table)@.len() == e.offset + pow2_u64((64 - e.shift) as u64),
        final(table)@.len() <= (sq + 1) * 0x100_0000,
        final(table)@.subrange(0, old(table)@.len() as int) == old(table)@,
        e.mask == slider_mask_spec(sq as int, is_rook),
        e.shift == 64 - popcount(e.mask),
        entry_ok(e, final(table)@, sq as int, is_rook) || entry_gave_up(e, sq as int, is_rook),
        entry_unused_zero(e, final(table)@),
        e.magic == 0 ==> final(table)@[e.offset as int] == slider_attacks(sq as int, e.mask, is_rook),
        (e.magic, final(rng)@) == search_result(
            sq as int,
            slider_mask_spec(sq as int, is_rook),
            is_rook,
            old(rng)@,
        ),
{
    let mask = if is_rook {
        rook_relevant_mask(sq)
    } else {
        bishop_relevant_mask(sq)
    };
    let bits = pop_count(mask);
    let shift = 64 - bits;
    proof {
        lemma_table_size(bits);
        assert(table_fits(bits as nat));
    }
    let magic = find_magic(sq, mask, is_rook, rng);
    let ghost valid = valid_magic(sq as int, mask, is_rook, magic);
    let offset = table.len();
    proof {
        lemma_pow2_u64(bits as u64);
    }
    let table_size = 1usize << bits;
    proof {
        lemma_table_size(bits);
    }
    assert(table_size == pow2_u64(bits as u64));
    assert(table_size <= 0x100_0000);
    let ghost old_table = table@;
    table.resize(offset + table_size, 0);
    assert forall|j: int| offset <= j < offset + table_size implies table@[j] == 0 by {
        assert(vstd::pervasive::cloned::<u64>(0, table@[j]));
    }
    let e = MagicEntry { mask, magic, shift, offset };
    let ghost sh = shift as u64;
    let mut subset: Bitboard = 0;
    proof {
        lemma_subset_laws();
    }
    assert(0u64 & !mask == 0);
    loop
        invariant_except_break
            subset_of(subset, mask),
            valid ==> forall|t: u64|
                subset_of(t, mask) && t < subset ==> table@[#[trigger] entry_slot(e, t)]
                    == slider_attacks(sq as int, t, is_rook),
            forall|j: int|
                offset <= j < offset + table_size && table@[j] != 0 ==> exists|t: u64|
                    subset_of(t, mask) && t < subset && #[trigger] entry_slot(e, t) == j,
        invariant
            0 <= sq < 64,
            1 <= bits <= 24,
            bits == popcount(mask),
            shift == 64 - bits,
            sh == shift,
            e == (MagicEntry { mask, magic, shift, offset }),
            valid == valid_magic(sq as int, mask, is_rook, magic),
            table_size == pow2_u64(bits as u64),
            table_size <= 0x100_0000,
            offset <= 63 * 0x100_0000,
            offset == old_table.len(),
            table@.len() == offset + table_size,
            table@.subrange(0, offset as int) == old_table,
        ensures
            valid ==> forall|t: u64|
                subset_of(t, mask) ==> table@[#[trigger] entry_slot(e, t)] == slider_attacks(
                    sq as int,
                    t,
                    is_rook,
                ),
            entry_unused_zero(e, table@),
            magic == 0 ==> table@[offset as int] == slider_attacks(sq as int, mask, is_rook),
        decreases mask - subset,
    {
        proof {
            lemma_index_bound(subset.wrapping_mul(magic), bits as u64);
        }
        let idx = ((subset.wrapping_mul(magic)) >> shift) as usize;
        let ghost cur = subset;
        let ghost before = table@;
        assert(idx == magic_index(cur, magic, sh));
        assert(idx < table_size);
        table.set(offset + idx, slider_attacks_exec(sq, subset, is_rook));
        proof {
            lemma_next_subset(cur, mask);
            assert(table@.subrange(0, offset as int) =~= before.subrange(0, offset as int));
            assert(entry_slot(e, cur) == offset + idx);
            if magic == 0 {
                assert(cur as nat * magic as nat == 0) by (nonlinear_arith)
                    requires
                        magic == 0,
                ;
                assert(idx == 0) by {
                    lemma_zero_shift(sh);
                }
            }
        }
        let ghost next = next_subset_spec(cur, mask);
        subset = next_subset(subset, mask);
        if subset == 0 {
            proof {
                assert(cur == mask);
                assert forall|j: int|
                    offset <= j < offset + table_size && table@[j] != 0 implies exists|t: u64|
                        subset_of(t, mask) && #[trigger] entry_slot(e, t) == j by {
                    if j == entry_slot(e, cur) {
                        assert(subset_of(cur, mask) && entry_slot(e, cur) == j);
                    } else {
                        assert(before[j] == table@[j]);
                        let t = choose|t: u64|
                            subset_of(t, mask) && t < cur && #[trigger] entry_slot(e, t) == j;
                        assert(subset_of(t, mask) && entry_slot(e, t) == j);
                    }
                }
                assert forall|t: u64| valid && subset_of(t, mask) implies table@[#[trigger] entry_slot(
                    e,
                    t,
                )] == slider_attacks(sq as int, t, is_rook) by {
                    lemma_subset_laws();
                    assert(t & !mask == 0 ==> t <= mask);
                    if t != cur {
                        assert(before[entry_slot(e, t)] == slider_attacks(sq as int, t, is_rook));
                        if magic_index(t, magic, sh) == magic_index(cur, magic, sh) {
                            assert(entry_slot(e, t) == entry_slot(e, cur));
                        } else {
                            lemma_index_bound(t.wrapping_mul(magic), bits as u64);
                            assert(table@[entry_slot(e, t)] == before[entry_slot(e, t)]);
                        }
                    }
                }
            }
            break;
        }
        proof {
            assert forall|t: u64| valid && subset_of(t, mask) && t < subset implies table@[#[trigger] entry_slot(
                e,
                t,
            )] == slider_attacks(sq as int, t, is_rook) by {
                if cur < t {
                    assert(subset <= t);
                }
                assert(t <= cur);
                if t != cur {
                    assert(before[entry_slot(e, t)] == slider_attacks(sq as int, t, is_rook));
                    if magic_index(t, magic, sh) == magic_index(cur, magic, sh) {
                        assert(entry_slot(e, t) == entry_slot(e, cur));
                    } else {
                        lemma_index_bound(t.wrapping_mul(magic), bits as u64);
                        assert(entry_slot(e, t) != entry_slot(e, cur));
                        assert(table@[entry_slot(e, t)] == before[entry_slot(e, t)]);
                    }
                }
            }
            assert(cur != mask);
            lemma_subset_laws();
            assert(subset & !mask == 0 ==> subset <= mask);
            assert forall|j: int|
                offset <= j < offset + table_size && table@[j] != 0 implies exists|t: u64|
                    subset_of(t, mask) && t < subset && #[trigger] entry_slot(e, t) == j by {
                if j == entry_slot(e, cur) {
                    assert(subset_of(cur, mask) && cur < subset && entry_slot(e, cur) == j);
                } else {
                    assert(before[j] == table@[j]);
                    let t = choose|t: u64|
                        subset_of(t, mask) && t < cur && #[trigger] entry_slot(e, t) == j;
                    assert(subset_of(t, mask) && t < subset && entry_slot(e, t) == j);
                }
            }
        }
    }
    proof {
        if !valid {
            let s = old(rng)@;
            assert(magic == 0);
            assert(search_exhausted(sq as int, mask, is_rook, s));
        }
    }
    e
}

/// The generator state after the searches of squares 0 to `n - 1` for one kind of slider,
/// starting from state `s`.
pub open spec fn slider_state(is_rook: bool, s: u64, n: nat) -> u64
    decreases n,
{
    if n == 0 {
        s
    } else {
        let sq = n - 1;
        search_result(sq, slider_mask_spec(sq, is_rook), is_rook, slider_state(is_rook, s, (n - 1) as nat)).1
    }
}

/// The magic number the search of square `sq` settles on, squares being searched in order
/// from state `s`.
pub open spec fn slider_magic(is_rook: bool, s: u64, sq: int) -> u64 {
    search_result(sq, slider_mask_spec(sq, is_rook), is_rook, slider_state(is_rook, s, sq as nat)).0
}

/// The magic entries and the attack table of every square for one kind of slider.
fn build_all(is_rook: bool, rng: &mut Rng) -> (r: ([MagicEntry; 64], Vec<Bitboard>))
    ensures
        forall|sq: int| 0 <= sq < 64 ==> entry_built(#[trigger] r.0[sq], r.1@, sq, is_rook),
        r.1@.len() == slider_table_len(is_rook, 64),
        forall|sq: int| 0 <= sq < 64 ==> (#[trigger] r.0[sq]).magic == slider_magic(is_rook, old(rng)@, sq),
        final(rng)@ == slider_state(is_rook, old(rng)@, 64),
{
    let mut magics = [MagicEntry { mask: 0, magic: 0, shift: 0, offset: 0 };64];
    let mut table: Vec<Bitboard> = Vec::new();
    let mut sq: i32 = 0;
    while sq < 64
        invariant
            0 <= sq <= 64,
            table@.len() <= sq * 0x100_0000,
            table@.len() == slider_table_len(is_rook, sq as nat),
            forall|j: int| 0 <= j < sq ==> entry_built(#[trigger] magics[j], table@, j, is_rook),
            forall|j: int| 0 <= j < sq ==> (#[trigger] magics[j]).magic == slider_magic(is_rook, old(rng)@, j),
            rng@ == slider_state(is_rook, old(rng)@, sq as nat),
        decreases 64 - sq,
    {
        let ghost before = table@;
        let ghost magics_before = magics;
        let e = build_entry(sq, is_rook, rng, &mut table);
        magics[sq as usize] = e;
        proof {
            let bits = popcount(e.mask);
            assert(e.offset + pow2_u64((64 - e.shift) as u64) == table@.len());
            if entry_ok(e, table@, sq as int, is_rook) {
                assert(entry_slot(e, 0) == e.offset) by {
                    assert((0u64 as nat * e.magic as nat) == 0);
                    lemma_zero_shift(e.shift as u64);
                }
                lemma_subset_laws();
                assert(subset_of(0, e.mask));
            }
            assert(entry_built(e, table@, sq as int, is_rook));
            assert forall|j: int| 0 <= j < sq + 1 implies entry_built(#[trigger] magics[j], table@, j, is_rook) by {
                if j < sq {
                    assert(magics[j] == magics_before[j]);
                    lemma_entry_built_extend(magics[j], before, table@, j, is_rook);
                }
            }
            assert forall|j: int| 0 <= j < sq + 1 implies (#[trigger] magics[j]).magic == slider_magic(
                is_rook,
                old(rng)@,
                j,
            ) by {
                if j < sq {
                    assert(magics[j] == magics_before[j]);
                }
            }
        }
        sq += 1;
    }
    (magics, table)
}

impl MagicTables {
    /// Every square's lookups work, for rooks and for bishops.
    pub open spec fn tables_ok(&self) -> bool {
        forall|sq: int|
            0 <= sq < 64 ==> entry_ok(#[trigger] self.rook_magics[sq], self.rook_table@, sq, true)
                && entry_ok(self.bishop_magics[sq], self.bishop_table@, sq, false)
    }

    /// Every entry is built into its table: a working lookup, or a search that gave up and
    /// kept the number 0.
    pub open spec fn built(&self) -> bool {
        &&& forall|sq: int|
            0 <= sq < 64 ==> entry_built(#[trigger] self.rook_magics[sq], self.rook_table@, sq, true)
        &&& forall|sq: int|
            0 <= sq < 64 ==> entry_built(
                #[trigger] self.bishop_magics[sq],
                self.bishop_table@,
                sq,
                false,
            )
    }

    /// Whether every search found its magic number (no entry kept the number 0); on built
    /// tables that means every lookup works.
    pub fn all_found(&self) -> (b: bool)
        ensures
            b == forall|sq: int|
                0 <= sq < 64 ==> (#[trigger] self.rook_magics[sq]).magic != 0
                    && self.bishop_magics[sq].magic != 0,
            b && self.built() ==> self.tables_ok(),
    {
        let mut sq: usize = 0;
        while sq < 64
            invariant
                sq <= 64,
                forall|j: int|
                    0 <= j < sq ==> (#[trigger] self.rook_magics[j]).magic != 0
                        && self.bishop_magics[j].magic != 0,
            decreases 64 - sq,
        {
            if self.rook_magics[sq].magic == 0 || self.bishop_magics[sq].magic == 0 {
                return false;
            }
            sq += 1;
        }
        assert forall|j: int| 0 <= j < 64 implies (#[trigger] self.rook_magics[j]).magic != 0
            && self.bishop_magics[j].magic != 0 by {
            assert(sq == 64);
            assert(j < sq);
            assert(self.rook_magics[j].magic != 0);
        }
        proof {
            if self.built() {
                assert forall|j: int| 0 <= j < 64 implies entry_ok(
                    #[trigger] self.rook_magics[j],
                    self.rook_table@,
                    j,
                    true,
                ) && entry_ok(self.bishop_magics[j], self.bishop_table@, j, false) by {
                    assert(entry_built(self.rook_magics[j], self.rook_table@, j, true));
                    assert(entry_built(self.bishop_magics[j], self.bishop_table@, j, false));
                }
            }
        }
        true
    }

    /// Finds a magic number for each square, rooks first, from a fixed seed, and fills the
    /// attack tables. An entry whose search ran out of candidates keeps the number 0.
    pub fn generate() -> (t: MagicTables)
        ensures
            t.built(),
            forall|sq: int|
                0 <= sq < 64 ==> (#[trigger] t.rook_magics[sq]).magic == slider_magic(
                    true,
                    0x1234567890ABCDEF,
                    sq,
                ),
            forall|sq: int|
                0 <= sq < 64 ==> (#[trigger] t.bishop_magics[sq]).magic == slider_magic(
                    false,
                    slider_state(true, 0x1234567890ABCDEF, 64),
                    sq,
                ),
            forall|sq: int|
                0 <= sq < 64 ==> entry_built(#[trigger] t.rook_magics[sq], t.rook_table@, sq, true),
            forall|sq: int|
                0 <= sq < 64 ==> entry_built(
                    #[trigger] t.bishop_magics[sq],
                    t.bishop_table@,
                    sq,
                    false,
                ),
            t.rook_table@.len() == slider_table_len(true, 64),
            t.bishop_table@.len() == slider_table_len(false, 64),
    {
        let mut rng = Rng::new(0x1234567890ABCDEF);
        let (rook_magics, rook_table) = build_all(true, &mut rng);
        let (bishop_magics, bishop_table) = build_all(false, &mut rng);
        MagicTables { rook_magics, bishop_magics, rook_table, bishop_table }
    }
}


impl MagicTables {
    /// The table slot that a rook on `sq` looks up for the occupancy `occ`.
    pub open spec fn rook_slot(&self, sq: int, occ: u64) -> int {
        entry_slot(self.rook_magics[sq], occ & self.rook_magics[sq].mask)
    }

    /// The table slot that a bishop on `sq` looks up for the occupancy `occ`.
    pub open spec fn bishop_slot(&self, sq: int, occ: u64) -> int {
        entry_slot(self.bishop_magics[sq], occ & self.bishop_magics[sq].mask)
    }

    /// The rook attacks from `sq` for the occupancy `occupied`, looked up in the table.
    pub fn rook_attacks(&self, sq: usize, occupied: Bitboard) -> (a: Bitboard)
        requires
            sq < 64,
            self.rook_magics[sq as int].shift < 64,
            0 <= self.rook_slot(sq as int, occupied) < self.rook_table@.len(),
        ensures
            a == self.rook_table@[self.rook_slot(sq as int, occupied)],
            self.tables_ok() ==> a == rook_attacks_spec(sq as int, occupied),
    {
        let entry = &self.rook_magics[sq];
        let relevant = occupied & entry.mask;
        proof {
            assert(self.rook_table.len() == self.rook_table@.len());
        }
        let idx = ((relevant.wrapping_mul(entry.magic)) >> entry.shift) as usize;
        proof {
            if self.tables_ok() {
                lemma_lookup_matches_slow(*self, sq as int, occupied);
            }
        }
        self.rook_table[entry.offset + idx]
    }

    /// The bishop attacks from `sq` for the occupancy `occupied`, looked up in the table.
    pub fn bishop_attacks(&self, sq: usize, occupied: Bitboard) -> (a: Bitboard)
        requires
            sq < 64,
            self.bishop_magics[sq as int].shift < 64,
            0 <= self.bishop_slot(sq as int, occupied) < self.bishop_table@.len(),
        ensures
            a == self.bishop_table@[self.bishop_slot(sq as int, occupied)],
            self.tables_ok() ==> a == bishop_attacks_spec(sq as int, occupied),
    {
        let entry = &self.bishop_magics[sq];
        let relevant = occupied & entry.mask;
        proof {
            assert(self.bishop_table.len() == self.bishop_table@.len());
        }
        let idx = ((relevant.wrapping_mul(entry.magic)) >> entry.shift) as usize;
        proof {
            if self.tables_ok() {
                lemma_lookup_matches_slow(*self, sq as int, occupied);
            }
        }
        self.bishop_table[entry.offset + idx]
    }
}

/// With working tables, every lookup stays inside its table and finds the attacks that the
/// ray walk computes, for any occupancy of the board.
pub proof fn lemma_lookup_matches_slow(t: MagicTables, sq: int, occ: u64)
    requires
        t.tables_ok(),
        0 <= sq < 64,
    ensures
        t.rook_magics[sq].shift < 64,
        0 <= t.rook_slot(sq, occ) < t.rook_table@.len(),
        t.rook_table@[t.rook_slot(sq, occ)] == rook_attacks_spec(sq, occ),
        t.bishop_magics[sq].shift < 64,
        0 <= t.bishop_slot(sq, occ) < t.bishop_table@.len(),
        t.bishop_table@[t.bishop_slot(sq, occ)] == bishop_attacks_spec(sq, occ),
{
    let re = t.rook_magics[sq];
    let be = t.bishop_magics[sq];
    assert(entry_ok(re, t.rook_table@, sq, true));
    assert(entry_ok(be, t.bishop_table@, sq, false));
    let rm = re.mask;
    let bm = be.mask;
    lemma_subset_laws();
    assert((occ & rm) & !rm == 0);
    assert((occ & bm) & !bm == 0);
    lemma_index_bound((occ & rm).wrapping_mul(re.magic), (64 - re.shift) as u64);
    lemma_index_bound((occ & bm).wrapping_mul(be.magic), (64 - be.shift) as u64);
    assert(t.rook_table@[entry_slot(re, occ & rm)] == slider_attacks(sq, occ & rm, true));
    assert(t.bishop_table@[entry_slot(be, occ & bm)] == slider_attacks(sq, occ & bm, false));
    lemma_slider_relevant(sq, occ);
}


/// The inner squares of the board: files b to g of ranks 2 to 7.
pub open spec fn inner_squares() -> u64 {
    0x007E_7E7E_7E7E_7E00u64
}

/// A square is inner when neither its file nor its rank is on the board's edge.
proof fn lemma_inner_bit(s: int)
    requires
        0 <= s < 64,
    ensures
        bit(inner_squares(), s) == (1 <= s % 8 <= 6 && 1 <= s / 8 <= 6),
{
    let t = s as u64;
    assert(t < 64 ==> ((0x007E_7E7E_7E7E_7E00u64 >> t) & 1u64 == 1u64) == (1 <= t % 8 <= 6 && 1
        <= t / 8 <= 6)) by (bit_vector);
}

/// A diagonal ray on the empty board, cut down to the inner squares, is the inner walk along
/// it, when the ray starts moving away from any edge square it starts on.
proof fn lemma_ray_inner(f: int, r: int, df: int, dr: int)
    requires
        df == 1 || df == -1,
        dr == 1 || dr == -1,
        df == 1 ==> f >= 1,
        df == -1 ==> f <= 6,
        dr == 1 ==> r >= 1,
        dr == -1 ==> r <= 6,
    ensures
        ray(f, r, df, dr, 0) & inner_squares() == inner_ray(f, r, df, dr),
    decreases ray_room(f, r, df, dr),
{
    let a = ray(f, r, df, dr, 0) & inner_squares();
    let b = inner_ray(f, r, df, dr);
    if 0 <= f < 8 && 0 <= r < 8 {
        let s = r * 8 + f;
        lemma_inner_bit(s);
        assert(!bit(0u64, s));
        if 1 <= f <= 6 && 1 <= r <= 6 {
            lemma_ray_inner(f + df, r + dr, df, dr);
            assert(s / 8 == r && s % 8 == f);
        } else {
            assert(!(0 <= f + df < 8 && 0 <= r + dr < 8));
            assert(ray(f + df, r + dr, df, dr, 0) == 0);
            assert(s / 8 == r && s % 8 == f);
        }
        assert forall|i: int| 0 <= i < 64 implies bit(a, i) == bit(b, i) by {
            lemma_inner_bit(i);
            assert(bit(1u64 << (s as u64), i) == (i == s));
        }
        lemma_bit_ext(a, b);
    } else {
        assert forall|i: int| 0 <= i < 64 implies bit(a, i) == bit(b, i) by {}
        lemma_bit_ext(a, b);
    }
}

/// A bishop's relevant mask is its attacks on the empty board without the edge squares.
pub proof fn lemma_bishop_mask_is_inner_attacks(sq: int)
    requires
        0 <= sq < 64,
    ensures
        bishop_mask_spec(sq) == bishop_attacks_spec(sq, 0) & inner_squares(),
{
    let f = sq % 8;
    let r = sq / 8;
    lemma_ray_inner(f + 1, r + 1, 1, 1);
    lemma_ray_inner(f + 1, r - 1, 1, -1);
    lemma_ray_inner(f - 1, r + 1, -1, 1);
    lemma_ray_inner(f - 1, r - 1, -1, -1);
    let a = bishop_mask_spec(sq);
    let b = bishop_attacks_spec(sq, 0) & inner_squares();
    assert forall|i: int| 0 <= i < 64 implies bit(a, i) == bit(b, i) by {}
    lemma_bit_ext(a, b);
}

} // verus!
