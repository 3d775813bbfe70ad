use vstd::prelude::*;
use crate::board::bitboard::{bit, group_bit_lemmas, lemma_bit_ext, lemma_or_laws};
use crate::board::fen::{
    after_rank, digit_val, empty_run, lower, no_pieces, piece_char, piece_slot, place_all,
    place_rank, placement_text, rank_text,
};
use crate::board::make_move::{add_sq, lemma_add_sq, lemma_piece_at_bits, pieces_disjoint, upd};
use crate::board::position::{
    ci, color_of, occupancy_ok, pi, piece_at_spec, ptype_of, union6, Color, PieceType, Position,
};
use crate::board::fen::{
    ep_text, fen_spec, fen_text, all_digits, castle_letters, castling_field, castling_text, digits_value, parse_u16, slash_pieces_from,
    split_slash, square_chars, words, words_from,
};
use crate::movegen::moves::square_text;
use crate::text::{decimal, digit_char, is_ws};

verus! {

/// `s` holds no white space.
pub open spec fn no_ws(s: Seq<char>) -> bool {
    forall|j: int| 0 <= j < s.len() ==> !is_ws(#[trigger] s[j])
}

/// `s` holds no `/`.
pub open spec fn no_slash(s: Seq<char>) -> bool {
    forall|j: int| 0 <= j < s.len() ==> #[trigger] s[j] != '/'
}

/// Word splitting only looks at the text from its position on.
proof fn lemma_words_shift(x: Seq<char>, y: Seq<char>, j: int, cur: Seq<char>)
    requires
        0 <= j <= y.len(),
    ensures
        words_from(x + y, x.len() + j, cur) == words_from(y, j, cur),
    decreases y.len() - j,
{
    if j < y.len() {
        assert((x + y)[x.len() + j] == y[j]);
        lemma_words_shift(x, y, j + 1, Seq::empty());
        lemma_words_shift(x, y, j + 1, cur.push(y[j]));
    }
}

/// Reading the word `a` from position `i` on, `a[..i]` being read already.
proof fn lemma_words_prefix(a: Seq<char>, b: Seq<char>, i: int)
    requires
        a.len() > 0,
        no_ws(a),
        0 <= i <= a.len(),
    ensures
        words_from(a + seq![' '] + b, i, a.take(i)) == seq![a] + words(b),
    decreases a.len() - i,
{
    let s = a + seq![' '] + b;
    if i < a.len() {
        assert(s[i] == a[i]);
        assert(a.take(i).push(a[i]) =~= a.take(i + 1));
        lemma_words_prefix(a, b, i + 1);
    } else {
        assert(s[i] == ' ');
        assert(a.take(i) =~= a);
        assert(s =~= (a + seq![' ']) + b);
        lemma_words_shift(a + seq![' '], b, 0, Seq::empty());
    }
}

/// A word, a space and more text split into that word and the words of the rest.
pub proof fn lemma_words_join(a: Seq<char>, b: Seq<char>)
    requires
        a.len() > 0,
        no_ws(a),
    ensures
        words(a + seq![' '] + b) == seq![a] + words(b),
{
    assert(a.take(0) =~= Seq::<char>::empty());
    lemma_words_prefix(a, b, 0);
}

/// A single word without white space is its own only word.
pub proof fn lemma_words_single(a: Seq<char>)
    requires
        a.len() > 0,
        no_ws(a),
    ensures
        words(a) == seq![a],
{
    lemma_words_single_from(a, 0);
    assert(a.take(0) =~= Seq::<char>::empty());
}

proof fn lemma_words_single_from(a: Seq<char>, i: int)
    requires
        a.len() > 0,
        no_ws(a),
        0 <= i <= a.len(),
    ensures
        words_from(a, i, a.take(i)) == seq![a],
    decreases a.len() - i,
{
    if i < a.len() {
        assert(a.take(i).push(a[i]) =~= a.take(i + 1));
        lemma_words_single_from(a, i + 1);
    } else {
        assert(a.take(i) =~= a);
    }
}

/// Splitting at `/` only looks at the text from its position on.
proof fn lemma_slash_shift(x: Seq<char>, y: Seq<char>, j: int, cur: Seq<char>)
    requires
        0 <= j <= y.len(),
    ensures
        slash_pieces_from(x + y, x.len() + j, cur) == slash_pieces_from(y, j, cur),
    decreases y.len() - j,
{
    if j < y.len() {
        assert((x + y)[x.len() + j] == y[j]);
        lemma_slash_shift(x, y, j + 1, Seq::empty());
        lemma_slash_shift(x, y, j + 1, cur.push(y[j]));
    }
}

proof fn lemma_slash_prefix(a: Seq<char>, b: Seq<char>, i: int)
    requires
        no_slash(a),
        0 <= i <= a.len(),
    ensures
        slash_pieces_from(a + seq!['/'] + b, i, a.take(i)) == seq![a] + split_slash(b),
    decreases a.len() - i,
{
    let s = a + seq!['/'] + b;
    if i < a.len() {
        assert(s[i] == a[i]);
        assert(a.take(i).push(a[i]) =~= a.take(i + 1));
        lemma_slash_prefix(a, b, i + 1);
    } else {
        assert(s[i] == '/');
        assert(a.take(i) =~= a);
        assert(s =~= (a + seq!['/']) + b);
        lemma_slash_shift(a + seq!['/'], b, 0, Seq::empty());
    }
}

/// A piece without `/`, a `/` and more text split into that piece and the pieces of the rest.
pub proof fn lemma_slash_join(a: Seq<char>, b: Seq<char>)
    requires
        no_slash(a),
    ensures
        split_slash(a + seq!['/'] + b) == seq![a] + split_slash(b),
{
    assert(a.take(0) =~= Seq::<char>::empty());
    lemma_slash_prefix(a, b, 0);
}

proof fn lemma_slash_single_from(a: Seq<char>, i: int)
    requires
        no_slash(a),
        0 <= i <= a.len(),
    ensures
        slash_pieces_from(a, i, a.take(i)) == seq![a],
    decreases a.len() - i,
{
    if i < a.len() {
        assert(a.take(i).push(a[i]) =~= a.take(i + 1));
        lemma_slash_single_from(a, i + 1);
    } else {
        assert(a.take(i) =~= a);
    }
}

/// Text without `/` is a single piece.
pub proof fn lemma_slash_single(a: Seq<char>)
    requires
        no_slash(a),
    ensures
        split_slash(a) == seq![a],
{
    lemma_slash_single_from(a, 0);
    assert(a.take(0) =~= Seq::<char>::empty());
}


/// The decimal text of a number: at least one digit, digits only, worth the number.
pub proof fn lemma_decimal(n: nat)
    ensures
        decimal(n).len() > 0,
        all_digits(decimal(n)),
        digits_value(decimal(n)) == n,
        forall|j: int| 0 <= j < decimal(n).len() ==> '0' <= #[trigger] decimal(n)[j] <= '9',
    decreases n,
{
    if n < 10 {
        let d = decimal(n);
        assert(d.drop_last() =~= Seq::<char>::empty());
        assert(digit_char(n as int) as int == 48 + n);
        assert(digits_value(d) == digits_value(Seq::<char>::empty()) * 10 + (n as int));
    } else {
        lemma_decimal(n / 10);
        let d = decimal(n);
        assert(d.drop_last() =~= decimal(n / 10));
        assert(d.last() == digit_char((n % 10) as int));
        assert(digit_char((n % 10) as int) as int == 48 + n % 10);
        assert((n / 10) * 10 + n % 10 == n) by (nonlinear_arith);
        assert(digits_value(d) == digits_value(decimal(n / 10)) * 10 + (n % 10));
    }
}

/// Reading back the decimal text of a 16-bit number gives the number.
pub proof fn lemma_parse_decimal(n: u16)
    ensures
        parse_u16(decimal(n as nat)) == Some(n),
{
    lemma_decimal(n as nat);
    let d = decimal(n as nat);
    assert(d[0] != '+');
}

/// Reading castling letters only looks at the text from its position on.
proof fn lemma_letters_shift(x: Seq<char>, y: Seq<char>, j: int, acc: u8)
    requires
        0 <= j <= y.len(),
    ensures
        castle_letters(x + y, x.len() + j, acc) == castle_letters(y, j, acc),
    decreases y.len() - j,
{
    if j < y.len() {
        assert((x + y)[x.len() + j] == y[j]);
        lemma_letters_shift(x, y, j + 1, acc | 1u8);
        lemma_letters_shift(x, y, j + 1, acc | 2u8);
        lemma_letters_shift(x, y, j + 1, acc | 4u8);
        lemma_letters_shift(x, y, j + 1, acc | 8u8);
    }
}

/// The flag value `v` when `present`, else 0.
pub open spec fn flag(present: bool, v: u8) -> u8 {
    if present {
        v
    } else {
        0
    }
}

/// An optional castling letter in front of more letters adds its flag.
proof fn lemma_letters_step(opt: Seq<char>, rest: Seq<char>, acc: u8, present: bool, letter: char, v: u8)
    requires
        opt == (if present {
            seq![letter]
        } else {
            Seq::<char>::empty()
        }),
        (letter == 'K' && v == 1) || (letter == 'Q' && v == 2) || (letter == 'k' && v == 4) || (
        letter == 'q' && v == 8),
    ensures
        castle_letters(opt + rest, 0, acc) == castle_letters(rest, 0, acc | flag(present, v)),
{
    lemma_or_laws();
    if present {
        lemma_letters_shift(opt, rest, 0, acc | v);
    } else {
        assert(opt + rest =~= rest);
        assert(acc | 0u8 == acc) by (bit_vector);
    }
}

/// The castling text of four flags reads back as the same flags.
pub proof fn lemma_castling_roundtrip(r: u8)
    requires
        r < 16,
    ensures
        castling_field(castling_text(r)) == Ok::<u8, char>(r),
        castling_text(r).len() > 0,
        forall|j: int| 0 <= j < castling_text(r).len() ==> {
            let c = #[trigger] castling_text(r)[j];
            c == '-' || c == 'K' || c == 'Q' || c == 'k' || c == 'q'
        },
{
    let fa = r & 1u8 != 0;
    let fb = r & 2u8 != 0;
    let fc = r & 4u8 != 0;
    let fd = r & 8u8 != 0;
    assert(r < 16 ==> r == (((0u8 | flag(r & 1u8 != 0, 1)) | flag(r & 2u8 != 0, 2)) | flag(
        r & 4u8 != 0,
        4,
    )) | flag(r & 8u8 != 0, 8) && (r != 0 ==> (r & 1u8 != 0 || r & 2u8 != 0 || r & 4u8 != 0
        || r & 8u8 != 0))) by (bit_vector);
    if r != 0 {
        let a = if fa {
            seq!['K']
        } else {
            Seq::<char>::empty()
        };
        let b = if fb {
            seq!['Q']
        } else {
            Seq::<char>::empty()
        };
        let c = if fc {
            seq!['k']
        } else {
            Seq::<char>::empty()
        };
        let d = if fd {
            seq!['q']
        } else {
            Seq::<char>::empty()
        };
        let t = castling_text(r);
        assert(t == a + b + c + d);
        assert(t =~= a + (b + (c + d)));
        lemma_letters_step(a, b + (c + d), 0, fa, 'K', 1);
        lemma_letters_step(b, c + d, 0u8 | flag(fa, 1), fb, 'Q', 2);
        lemma_letters_step(c, d, (0u8 | flag(fa, 1)) | flag(fb, 2), fc, 'k', 4);
        lemma_letters_step(d, Seq::empty(), ((0u8 | flag(fa, 1)) | flag(fb, 2)) | flag(fc, 4), fd, 'q', 8);
        assert(d + Seq::<char>::empty() =~= d);
        assert(t.len() > 0);
        assert(t[0] != '-');
    }
}

/// The name of a square reads back as the square.
pub proof fn lemma_square_roundtrip(e: u8)
    requires
        e < 64,
    ensures
        square_chars(square_text(e)) == Some(e),
        square_text(e) != seq!['-'],
        square_text(e).len() == 2,
        'a' <= square_text(e)[0] <= 'h',
        '1' <= square_text(e)[1] <= '8',
{
    let t = square_text(e);
    assert(t[0] as int == 97 + e % 8);
    assert(t[1] as int == 49 + e / 8);
    assert(t.len() == 2);
}


/// The bitboards `p` with the pieces of `pos` on rank `rank`, from file `f` on, added.
pub open spec fn add_rank(p: [[u64; 6]; 2], pos: Position, rank: int, f: int) -> [[u64; 6]; 2]
    decreases 8 - f,
{
    if f < 0 || f >= 8 {
        p
    } else {
        let sq = rank * 8 + f;
        match piece_at_spec(pos, sq) {
            None => add_rank(p, pos, rank, f + 1),
            Some((c, pt)) => add_rank(
                upd(p, ci(c), pi(pt), add_sq(p[ci(c)][pi(pt)], sq)),
                pos,
                rank,
                f + 1,
            ),
        }
    }
}

/// Placing pieces only looks at the text from its position on.
proof fn lemma_place_shift(p: [[u64; 6]; 2], rank: int, x: Seq<char>, y: Seq<char>, j: int, file: int)
    requires
        0 <= j <= y.len(),
    ensures
        place_rank(p, rank, x + y, x.len() + j, file) == place_rank(p, rank, y, j, file),
    decreases y.len() - j,
{
    if j < y.len() {
        let c = y[j];
        assert((x + y)[x.len() + j] == c);
        match digit_val(c) {
            Some(d) => {
                lemma_place_shift(p, rank, x, y, j + 1, file + d);
            },
            None => {
                let sq = rank * 8 + file;
                match piece_slot(lower(c)) {
                    Some(k) => {
                        let col = if 'A' <= c <= 'Z' {
                            0
                        } else {
                            1
                        };
                        lemma_place_shift(
                            upd(p, col, k, add_sq(p[col][k], sq)),
                            rank,
                            x,
                            y,
                            j + 1,
                            file + 1,
                        );
                    },
                    None => {},
                }
            },
        }
    }
}

/// A piece's FEN letter reads back as the piece: its slot, and its color from the case.
proof fn lemma_piece_char(c: Color, pt: PieceType)
    ensures
        digit_val(piece_char(c, pt)) is None,
        piece_slot(lower(piece_char(c, pt))) == Some(pi(pt)),
        ('A' <= piece_char(c, pt) <= 'Z') == (c == Color::White),
        !is_ws(piece_char(c, pt)),
        piece_char(c, pt) != '/',
{
}

/// Reading the FEN text of rank `rank` from file `f` on, with `n` empty squares counted
/// already, from file `f - n`, adds the rank's pieces from file `f` on.
proof fn lemma_place_rank_text(p: [[u64; 6]; 2], pos: Position, rank: int, f: int, n: int)
    requires
        0 <= rank < 8,
        0 <= n <= f <= 8,
    ensures
        place_rank(p, rank, rank_text(pos, rank, f, n), 0, f - n) == Some(
            Ok::<[[u64; 6]; 2], char>(add_rank(p, pos, rank, f)),
        ),
    decreases 8 - f,
{
    let t = rank_text(pos, rank, f, n);
    if f >= 8 {
        if n > 0 {
            assert(decimal(n as nat) == seq![digit_char(n)]);
            assert(t[0] == digit_char(n));
            assert(digit_char(n) as int == 48 + n);
            assert(digit_val(t[0]) == Some(n));
        }
    } else {
        let sq = rank * 8 + f;
        match piece_at_spec(pos, sq) {
            None => {
                lemma_place_rank_text(p, pos, rank, f + 1, n + 1);
            },
            Some((c, pt)) => {
                let ch = piece_char(c, pt);
                let rest = rank_text(pos, rank, f + 1, 0);
                let run = empty_run(n);
                assert(t == run + seq![ch] + rest);
                lemma_piece_char(c, pt);
                let p2 = upd(p, ci(c), pi(pt), add_sq(p[ci(c)][pi(pt)], sq));
                assert(ci(c) == (if 'A' <= ch <= 'Z' { 0int } else { 1int }));
                lemma_place_rank_text(p2, pos, rank, f + 1, 0);
                lemma_place_shift(p2, rank, seq![ch], rest, 0, f + 1);
                assert(place_rank(p, rank, seq![ch] + rest, 0, f) == place_rank(
                    p2,
                    rank,
                    seq![ch] + rest,
                    1,
                    f + 1,
                ));
                assert(t =~= run + (seq![ch] + rest));
                lemma_place_shift(p, rank, run, seq![ch] + rest, 0, f);
                if n > 0 {
                    assert(decimal(n as nat) == seq![digit_char(n)]);
                    assert(digit_char(n) as int == 48 + n);
                    assert(t[0] == digit_char(n));
                    assert(digit_val(t[0]) == Some(n));
                    assert(place_rank(p, rank, t, 0, f - n) == place_rank(p, rank, t, 1, f));
                } else {
                    assert(run =~= Seq::<char>::empty());
                }
            },
        }
    }
}


/// The FEN text of a rank holds no white space and no `/`, and it is not empty once
/// `n + (8 - f)` squares are left to describe.
proof fn lemma_rank_text_chars(pos: Position, rank: int, f: int, n: int)
    requires
        0 <= n <= f <= 8,
        n + (8 - f) > 0,
    ensures
        no_ws(rank_text(pos, rank, f, n)),
        no_slash(rank_text(pos, rank, f, n)),
        rank_text(pos, rank, f, n).len() > 0,
    decreases 8 - f,
{
    let t = rank_text(pos, rank, f, n);
    if f >= 8 {
        assert(decimal(n as nat) == seq![digit_char(n)]);
        assert(digit_char(n) as int == 48 + n);
    } else {
        match piece_at_spec(pos, rank * 8 + f) {
            None => {
                lemma_rank_text_chars(pos, rank, f + 1, n + 1);
            },
            Some((c, pt)) => {
                lemma_piece_char(c, pt);
                let rest = rank_text(pos, rank, f + 1, 0);
                if f + 1 < 8 {
                    lemma_rank_text_chars(pos, rank, f + 1, 0);
                } else {
                    assert(rest =~= Seq::<char>::empty());
                }
                let run = empty_run(n);
                if n > 0 {
                    assert(decimal(n as nat) == seq![digit_char(n)]);
                    assert(digit_char(n) as int == 48 + n);
                } else {
                    assert(run =~= Seq::<char>::empty());
                }
                assert(t == run + seq![piece_char(c, pt)] + rest);
                assert forall|j: int| 0 <= j < t.len() implies !is_ws(#[trigger] t[j]) && t[j]
                    != '/' by {
                    if j < run.len() {
                        assert(t[j] == run[j]);
                    } else if j == run.len() {
                        assert(t[j] == piece_char(c, pt));
                    } else {
                        assert(t[j] == rest[j - run.len() - 1]);
                    }
                }
            },
        }
    }
}

/// The FEN texts of the ranks, the eighth rank first, from rank slot `t` on.
pub open spec fn rank_texts(pos: Position, t: int) -> Seq<Seq<char>> {
    Seq::new((8 - t) as nat, |j: int| rank_text(pos, 7 - (t + j), 0, 0))
}

/// The piece field splits at `/` into the rank texts.
proof fn lemma_placement_split(pos: Position, t: int)
    requires
        0 <= t <= 7,
    ensures
        split_slash(placement_text(pos, t)) == rank_texts(pos, t),
        no_ws(placement_text(pos, t)),
        placement_text(pos, t).len() > 0,
    decreases 8 - t,
{
    let r = rank_text(pos, 7 - t, 0, 0);
    lemma_rank_text_chars(pos, 7 - t, 0, 0);
    let rest = placement_text(pos, t + 1);
    if t == 7 {
        assert(rest =~= Seq::<char>::empty());
        assert(placement_text(pos, t) =~= r);
        lemma_slash_single(r);
        assert(rank_texts(pos, t) =~= seq![r]);
    } else {
        lemma_placement_split(pos, t + 1);
        assert(placement_text(pos, t) == r + seq!['/'] + rest);
        lemma_slash_join(r, rest);
        assert(rank_texts(pos, t) =~= seq![r] + rank_texts(pos, t + 1));
        let whole = r + seq!['/'] + rest;
        assert forall|j: int| 0 <= j < whole.len() implies !is_ws(#[trigger] whole[j]) by {
            if j < r.len() {
                assert(whole[j] == r[j]);
            } else if j > r.len() {
                assert(whole[j] == rest[j - r.len() - 1]);
            }
        }
    }
}

/// The bitboards `p` with the pieces of `pos` on the ranks from slot `r` on (rank `7 - r` and
/// below) added, the higher ranks first.
pub open spec fn add_ranks(p: [[u64; 6]; 2], pos: Position, r: int) -> [[u64; 6]; 2]
    decreases 8 - r,
{
    if r < 0 || r >= 8 {
        p
    } else {
        add_ranks(add_rank(p, pos, 7 - r, 0), pos, r + 1)
    }
}

/// Placing the rank texts from slot `r` on adds those ranks' pieces.
proof fn lemma_place_all_texts(p: [[u64; 6]; 2], pos: Position, r: int)
    requires
        0 <= r <= 8,
    ensures
        place_all(p, rank_texts(pos, 0), r) == Some(Ok::<[[u64; 6]; 2], char>(add_ranks(p, pos, r))),
    decreases 8 - r,
{
    if r < 8 {
        let ranks = rank_texts(pos, 0);
        assert(ranks[r] == rank_text(pos, 7 - r, 0, 0));
        lemma_place_rank_text(p, pos, 7 - r, 0, 0);
        lemma_place_all_texts(add_rank(p, pos, 7 - r, 0), pos, r + 1);
    }
}


/// A board slot and a named piece agree exactly when the slot is the piece's.
proof fn lemma_slot_names(c: int, k: int, cc: Color, pt: PieceType)
    requires
        0 <= c < 2,
        0 <= k < 6,
    ensures
        ((cc, pt) == (color_of(c), ptype_of(k))) == (c == ci(cc) && k == pi(pt)),
{
}

/// A square holds a piece after adding rank `rank` from file `f` on exactly when it held it
/// before or it is such a square of `pos` with that piece.
proof fn lemma_add_rank_bits(p: [[u64; 6]; 2], pos: Position, rank: int, f: int, c: int, k: int, i: int)
    requires
        0 <= rank < 8,
        0 <= f <= 8,
        0 <= c < 2,
        0 <= k < 6,
    ensures
        bit(add_rank(p, pos, rank, f)[c][k], i) == (bit(p[c][k], i) || (rank * 8 + f <= i < rank
            * 8 + 8 && piece_at_spec(pos, i) == Some((color_of(c), ptype_of(k))))),
    decreases 8 - f,
{
    broadcast use group_bit_lemmas;

    if f < 8 {
        let sq = rank * 8 + f;
        match piece_at_spec(pos, sq) {
            None => {
                lemma_add_rank_bits(p, pos, rank, f + 1, c, k, i);
            },
            Some((cc, pt)) => {
                let p2 = upd(p, ci(cc), pi(pt), add_sq(p[ci(cc)][pi(pt)], sq));
                lemma_add_rank_bits(p2, pos, rank, f + 1, c, k, i);
                lemma_slot_names(c, k, cc, pt);
                lemma_add_sq(p[ci(cc)][pi(pt)], sq, i);
            },
        }
    }
}

/// A square holds a piece after adding the ranks from slot `r` on exactly when it held it
/// before or it is a square of those ranks of `pos` with that piece.
proof fn lemma_add_ranks_bits(p: [[u64; 6]; 2], pos: Position, r: int, c: int, k: int, i: int)
    requires
        0 <= r <= 8,
        0 <= c < 2,
        0 <= k < 6,
    ensures
        bit(add_ranks(p, pos, r)[c][k], i) == (bit(p[c][k], i) || (0 <= i < (8 - r) * 8
            && piece_at_spec(pos, i) == Some((color_of(c), ptype_of(k))))),
    decreases 8 - r,
{
    if r < 8 {
        lemma_add_rank_bits(p, pos, 7 - r, 0, c, k, i);
        lemma_add_ranks_bits(add_rank(p, pos, 7 - r, 0), pos, r + 1, c, k, i);
    }
}

/// Adding every rank of `pos` to empty bitboards gives back its piece bitboards, when no
/// square of it holds two pieces.
proof fn lemma_add_ranks_all(pos: Position)
    requires
        pieces_disjoint(pos.pieces),
    ensures
        add_ranks(no_pieces(), pos, 0) == pos.pieces,
{
    broadcast use group_bit_lemmas;

    let q = add_ranks(no_pieces(), pos, 0);
    let p = pos.pieces;
    assert forall|c: int, k: int| 0 <= c < 2 && 0 <= k < 6 implies #[trigger] q[c][k] == p[c][k] by {
        assert forall|i: int| 0 <= i < 64 implies bit(q[c][k], i) == bit(p[c][k], i) by {
            lemma_add_ranks_bits(no_pieces(), pos, 0, c, k, i);
            assert(no_pieces()[c][k] == 0u64);
            lemma_piece_at_bits(pos, i);
            if piece_at_spec(pos, i) == Some((color_of(c), ptype_of(k))) {
                assert(ci(color_of(c)) == c && pi(ptype_of(k)) == k);
            }
        }
        lemma_bit_ext(q[c][k], p[c][k]);
    }
    crate::board::make_move::lemma_pieces_ext(q, p);
}


/// A position that its FEN text describes completely: no square holds two pieces, the
/// occupancy fields agree with the pieces, only the four castling flags are set and an en
/// passant square lies on the board.
pub open spec fn fen_describable(pos: Position) -> bool {
    &&& pieces_disjoint(pos.pieces)
    &&& occupancy_ok(pos)
    &&& pos.castling_rights < 16
    &&& (pos.en_passant matches Some(e) ==> e < 64)
}

/// The side-to-move field of a position's FEN text.
pub open spec fn side_text(pos: Position) -> Seq<char> {
    seq![
        if pos.side_to_move == Color::White {
            'w'
        } else {
            'b'
        },
    ]
}

/// The FEN text of a describable position splits into its six fields.
proof fn lemma_fen_words(pos: Position)
    requires
        fen_describable(pos),
    ensures
        words(fen_text(pos)) == seq![
            placement_text(pos, 0),
            side_text(pos),
            castling_text(pos.castling_rights),
            ep_text(pos.en_passant),
            decimal(pos.halfmove_clock as nat),
            decimal(pos.fullmove_number as nat),
        ],
{
    let pl = placement_text(pos, 0);
    let side = side_text(pos);
    let cs = castling_text(pos.castling_rights);
    let ep = ep_text(pos.en_passant);
    let hm = decimal(pos.halfmove_clock as nat);
    let fm = decimal(pos.fullmove_number as nat);
    let sp = seq![' '];
    assert(fen_text(pos) =~= pl + sp + (side + sp + (cs + sp + (ep + sp + (hm + sp + fm)))));
    lemma_placement_split(pos, 0);
    lemma_castling_roundtrip(pos.castling_rights);
    lemma_decimal(pos.halfmove_clock as nat);
    lemma_decimal(pos.fullmove_number as nat);
    match pos.en_passant {
        Some(e) => {
            lemma_square_roundtrip(e);
        },
        None => {},
    }
    assert(no_ws(side));
    assert(no_ws(cs));
    assert(no_ws(ep));
    assert(ep.len() > 0);
    assert(no_ws(hm));
    assert(no_ws(fm));
    lemma_words_single(fm);
    lemma_words_join(hm, fm);
    lemma_words_join(ep, hm + sp + fm);
    lemma_words_join(cs, ep + sp + (hm + sp + fm));
    lemma_words_join(side, cs + sp + (ep + sp + (hm + sp + fm)));
    lemma_words_join(pl, side + sp + (cs + sp + (ep + sp + (hm + sp + fm))));
    assert(words(fen_text(pos)) =~= seq![pl, side, cs, ep, hm, fm]);
}

/// Reading back the FEN text of a position gives the position: `from_fen` undoes `to_fen`.
pub proof fn lemma_fen_roundtrip(pos: Position)
    requires
        fen_describable(pos),
    ensures
        fen_spec(fen_text(pos)) == Some(Ok::<Position, Seq<char>>(pos)),
{
    lemma_fen_words(pos);
    let parts = words(fen_text(pos));
    let pl = placement_text(pos, 0);
    lemma_placement_split(pos, 0);
    lemma_castling_roundtrip(pos.castling_rights);
    lemma_parse_decimal(pos.halfmove_clock);
    lemma_parse_decimal(pos.fullmove_number);
    match pos.en_passant {
        Some(e) => {
            lemma_square_roundtrip(e);
        },
        None => {},
    }
    let ranks = split_slash(pl);
    assert(ranks == rank_texts(pos, 0));
    lemma_place_all_texts(no_pieces(), pos, 0);
    lemma_add_ranks_all(pos);
    assert(place_all(no_pieces(), ranks, 0) == Some(Ok::<[[u64; 6]; 2], char>(pos.pieces)));
    assert(parts.len() == 6);
    assert(parts[0] == pl);
    assert(parts[1] == side_text(pos));
    if pos.side_to_move == Color::White {
        assert(parts[1] =~= seq!['w']);
    } else {
        assert(parts[1] =~= seq!['b']);
        assert(seq!['b'][0] != seq!['w'][0]);
        assert(parts[1] != seq!['w']);
    }
    assert(castling_field(parts[2]) == Ok::<u8, char>(pos.castling_rights));
    assert(parse_u16(parts[4]) == Some(pos.halfmove_clock));
    assert(parse_u16(parts[5]) == Some(pos.fullmove_number));
    let back = fen_spec(fen_text(pos))->0->Ok_0;
    assert(fen_spec(fen_text(pos)) is Some);
    assert(back.pieces == pos.pieces);
    assert(back.side_to_move == pos.side_to_move);
    assert(back.castling_rights == pos.castling_rights);
    assert(back.en_passant == pos.en_passant);
    assert(back.halfmove_clock == pos.halfmove_clock);
    assert(back.fullmove_number == pos.fullmove_number);
    assert(back.occupied_by =~= pos.occupied_by);
    assert(back.occupied == pos.occupied);
    assert(back == pos);
}

} // verus!
