use vstd::prelude::*;
use crate::board::make_move::{add_sq, lemma_add_sq, lemma_pieces_ext, upd};
use crate::board::position::{
    with_occupancy, Color, PieceType, Position, BK_CASTLE, BQ_CASTLE, WK_CASTLE, WQ_CASTLE,
};
use crate::board::position::piece_at_spec;
use crate::movegen::moves::square_text;
use crate::text::{
    chars_of, decimal, digit_char, is_ws, is_ws_exec, push_char, push_chars, push_decimal,
};

verus! {

broadcast use vstd::string::group_string_axioms;

/// The white-space separated words of `s[i..]`, `cur` being the word read so far.
pub open spec fn words_from(s: Seq<char>, i: int, cur: Seq<char>) -> Seq<Seq<char>>
    decreases s.len() - i,
{
    if i < 0 || i >= s.len() {
        if cur.len() > 0 {
            seq![cur]
        } else {
            Seq::empty()
        }
    } else if is_ws(s[i]) {
        (if cur.len() > 0 {
            seq![cur]
        } else {
            Seq::empty()
        }) + words_from(s, i + 1, Seq::empty())
    } else {
        words_from(s, i + 1, cur.push(s[i]))
    }
}

/// The white-space separated words of `s`, as `split_whitespace` gives them.
pub open spec fn words(s: Seq<char>) -> Seq<Seq<char>> {
    words_from(s, 0, Seq::empty())
}

/// The pieces of `s[i..]` between `/` separators, `cur` being the piece read so far.
pub open spec fn slash_pieces_from(s: Seq<char>, i: int, cur: Seq<char>) -> Seq<Seq<char>>
    decreases s.len() - i,
{
    if i < 0 || i >= s.len() {
        seq![cur]
    } else if s[i] == '/' {
        seq![cur] + slash_pieces_from(s, i + 1, Seq::empty())
    } else {
        slash_pieces_from(s, i + 1, cur.push(s[i]))
    }
}

/// The pieces of `s` between `/` separators, as `split('/')` gives them.
pub open spec fn split_slash(s: Seq<char>) -> Seq<Seq<char>> {
    slash_pieces_from(s, 0, Seq::empty())
}

/// The character sequences of a list of character vectors.
pub open spec fn views(v: Seq<Vec<char>>) -> Seq<Seq<char>> {
    v.map_values(|x: Vec<char>| x@)
}

fn split_words(s: &Vec<char>) -> (r: Vec<Vec<char>>)
    ensures
        views(r@) == words(s@),
{
    let mut out: Vec<Vec<char>> = Vec::new();
    let mut cur: Vec<char> = Vec::new();
    let mut i: usize = 0;
    while i < s.len()
        invariant
            i <= s.len(),
            words(s@) == views(out@) + words_from(s@, i as int, cur@),
        decreases s.len() - i,
    {
        let c = s[i];
        if is_ws_exec(c) {
            let ghost before = views(out@);
            if cur.len() > 0 {
                out.push(cur);
                assert(views(out@) =~= before + seq![cur@]);
            } else {
                assert(views(out@) =~= before);
            }
            cur = Vec::new();
        } else {
            cur.push(c);
        }
        i += 1;
    }
    let ghost before = views(out@);
    if cur.len() > 0 {
        out.push(cur);
        assert(views(out@) =~= before + seq![cur@]);
    } else {
        assert(views(out@) =~= before);
    }
    out
}

fn split_on_slash(s: &Vec<char>) -> (r: Vec<Vec<char>>)
    ensures
        views(r@) == split_slash(s@),
{
    let mut out: Vec<Vec<char>> = Vec::new();
    let mut cur: Vec<char> = Vec::new();
    let mut i: usize = 0;
    while i < s.len()
        invariant
            i <= s.len(),
            split_slash(s@) == views(out@) + slash_pieces_from(s@, i as int, cur@),
        decreases s.len() - i,
    {
        let c = s[i];
        if c == '/' {
            let ghost before = views(out@);
            out.push(cur);
            assert(views(out@) =~= before + seq![cur@]);
            cur = Vec::new();
        } else {
            cur.push(c);
        }
        i += 1;
    }
    let ghost before = views(out@);
    out.push(cur);
    assert(views(out@) =~= before + seq![cur@]);
    out
}

/// The value of a string of decimal digits.
pub open spec fn digits_value(d: Seq<char>) -> int
    decreases d.len(),
{
    if d.len() == 0 {
        0
    } else {
        digits_value(d.drop_last()) * 10 + (d.last() as int - 48)
    }
}

pub open spec fn all_digits(d: Seq<char>) -> bool {
    forall|i: int| 0 <= i < d.len() ==> '0' <= #[trigger] d[i] <= '9'
}

/// What `str::parse::<u16>` gives: an optional `+` followed by at least one decimal digit,
/// with a value that fits in 16 bits.
pub open spec fn parse_u16(s: Seq<char>) -> Option<u16> {
    let d = if s.len() > 0 && s[0] == '+' {
        s.drop_first()
    } else {
        s
    };
    if d.len() > 0 && all_digits(d) && digits_value(d) <= 0xFFFF {
        Some(digits_value(d) as u16)
    } else {
        None
    }
}

proof fn lemma_digits_value_nonneg(d: Seq<char>)
    requires
        all_digits(d),
    ensures
        digits_value(d) >= 0,
    decreases d.len(),
{
    if d.len() > 0 {
        assert(all_digits(d.drop_last()));
        lemma_digits_value_nonneg(d.drop_last());
    }
}

proof fn lemma_digits_value_grows(d: Seq<char>, k: int)
    requires
        all_digits(d),
        0 <= k <= d.len(),
    ensures
        digits_value(d.take(k)) <= digits_value(d),
    decreases d.len() - k,
{
    if k < d.len() {
        lemma_digits_value_grows(d, k + 1);
        assert(d.take(k + 1).drop_last() =~= d.take(k));
        assert(all_digits(d.take(k)));
        lemma_digits_value_nonneg(d.take(k));
    } else {
        assert(d.take(k) =~= d);
    }
}

/// Parses a decimal number of at most 16 bits, as `str::parse::<u16>` does.
fn parse_u16_exec(s: &Vec<char>) -> (r: Option<u16>)
    ensures
        r == parse_u16(s@),
{
    let mut i: usize = 0;
    if s.len() > 0 && s[0] == '+' {
        i = 1;
    }
    let ghost d = if s@.len() > 0 && s@[0] == '+' {
        s@.drop_first()
    } else {
        s@
    };
    assert(d =~= s@.subrange(i as int, s@.len() as int));
    if i >= s.len() {
        assert(d.len() == 0);
        return None;
    }
    let mut value: u32 = 0;
    let start = i;
    while i < s.len()
        invariant
            start <= i <= s.len(),
            start < s.len(),
            d =~= s@.subrange(start as int, s@.len() as int),
            d == (if s@.len() > 0 && s@[0] == '+' {
                s@.drop_first()
            } else {
                s@
            }),
            all_digits(s@.subrange(start as int, i as int)),
            value == digits_value(s@.subrange(start as int, i as int)),
            value <= 0xFFFF,
        decreases s.len() - i,
    {
        let c = s[i];
        if !('0' <= c && c <= '9') {
            assert(!all_digits(d)) by {
                assert(d[i - start] == c);
            }
            return None;
        }
        assert(s@.subrange(start as int, i + 1).drop_last() =~= s@.subrange(start as int, i as int));
        let v = value * 10 + ((c as u32) - 48);
        assert(digits_value(s@.subrange(start as int, i + 1)) == v);
        if v > 0xFFFF {
            proof {
                if all_digits(d) {
                    lemma_digits_value_grows(d, i + 1 - start);
                    assert(d.take(i + 1 - start) =~= s@.subrange(start as int, i + 1));
                }
            }
            return None;
        }
        value = v;
        i += 1;
    }
    assert(s@.subrange(start as int, i as int) =~= d);
    Some(value as u16)
}

/// `c` with an ASCII capital turned into its small letter.
pub open spec fn lower(c: char) -> char {
    if 'A' <= c <= 'Z' {
        ((c as int) + 32) as char
    } else {
        c
    }
}

/// The piece slot of a small piece letter.
pub open spec fn piece_slot(c: char) -> Option<int> {
    if c == 'p' {
        Some(0)
    } else if c == 'n' {
        Some(1)
    } else if c == 'b' {
        Some(2)
    } else if c == 'r' {
        Some(3)
    } else if c == 'q' {
        Some(4)
    } else if c == 'k' {
        Some(5)
    } else {
        None
    }
}

/// The value of a decimal digit character.
pub open spec fn digit_val(c: char) -> Option<int> {
    if '0' <= c <= '9' {
        Some(c as int - 48)
    } else {
        None
    }
}

/// Placing the characters `s[i..]` of one rank of a FEN string on rank `rank`, starting at
/// `file`: a digit skips that many files, a piece letter (white in capitals) puts the piece on
/// the next square. `Some(Err(c))` for an unknown piece letter `c` (given in small letters);
/// `None` where the placement would panic (an 8-bit file or square counter overflowing, or a
/// square past h8).
pub open spec fn place_rank(p: [[u64; 6]; 2], rank: int, s: Seq<char>, i: int, file: int) -> Option<
    Result<[[u64; 6]; 2], char>,
>
    decreases s.len() - i,
{
    if i < 0 || i >= s.len() {
        Some(Ok(p))
    } else {
        let c = s[i];
        match digit_val(c) {
            Some(d) => if file + d > 255 {
                None
            } else {
                place_rank(p, rank, s, i + 1, file + d)
            },
            None => {
                let sq = rank * 8 + file;
                if sq > 255 {
                    None
                } else {
                    match piece_slot(lower(c)) {
                        None => Some(Err(lower(c))),
                        Some(k) => if sq >= 64 {
                            None
                        } else {
                            let col = if 'A' <= c <= 'Z' {
                                0
                            } else {
                                1
                            };
                            place_rank(upd(p, col, k, add_sq(p[col][k], sq)), rank, s, i + 1, file + 1)
                        },
                    }
                }
            },
        }
    }
}

/// Placing the ranks `ranks[r..]`, the first of them on rank `7 - r`.
pub open spec fn place_all(p: [[u64; 6]; 2], ranks: Seq<Seq<char>>, r: int) -> Option<
    Result<[[u64; 6]; 2], char>,
>
    decreases 8 - r,
{
    if r < 0 || r >= 8 || r >= ranks.len() {
        Some(Ok(p))
    } else {
        after_rank(place_rank(p, 7 - r, ranks[r], 0, 0), ranks, r)
    }
}

/// Going on with the ranks after rank slot `r` once that rank gave `x`.
pub open spec fn after_rank(x: Option<Result<[[u64; 6]; 2], char>>, ranks: Seq<Seq<char>>, r: int) -> Option<
    Result<[[u64; 6]; 2], char>,
>
    decreases 8 - r, 0int,
{
    match x {
        Some(Ok(p2)) => if 0 <= r < 8 {
            place_all(p2, ranks, r + 1)
        } else {
            x
        },
        _ => x,
    }
}

/// Places the eight ranks of a FEN piece field on the bitboards `pieces`; `None`, leaving
/// `pieces` partly filled, where the placement runs past the board.
fn place_ranks(ranks: &Vec<Vec<char>>, pieces: &mut [[u64; 6]; 2]) -> (r: Option<Result<(), char>>)
    requires
        ranks@.len() == 8,
    ensures
        match place_all(*old(pieces), views(ranks@), 0) {
            Some(Ok(p)) => r == Some(Ok::<(), char>(())) && *final(pieces) == p,
            Some(Err(c)) => r == Some(Err::<(), char>(c)),
            None => r is None,
        },
{
    let ghost total = place_all(*old(pieces), views(ranks@), 0);
    let mut r: usize = 0;
    while r < 8
        invariant
            r <= 8,
            ranks@.len() == 8,
            total == place_all(*old(pieces), views(ranks@), 0),
            total == place_all(*pieces, views(ranks@), r as int),
        decreases 8 - r,
    {
        let rank_str = &ranks[r];
        let rank: u8 = 7 - r as u8;
        let mut file: u8 = 0;
        let mut i: usize = 0;
        assert(rank_str@ == views(ranks@)[r as int]);
        while i < rank_str.len()
            invariant
                r < 8,
                rank == 7 - r,
                ranks@.len() == 8,
                rank_str@ == views(ranks@)[r as int],
                i <= rank_str@.len(),
                total == place_all(*old(pieces), views(ranks@), 0),
                total == after_rank(
                    place_rank(*pieces, rank as int, rank_str@, i as int, file as int),
                    views(ranks@),
                    r as int,
                ),
            decreases rank_str.len() - i,
        {
            let c = rank_str[i];
            if '0' <= c && c <= '9' {
                let skip = ((c as u32) - 48) as u8;
                assert(digit_val(c) == Some(skip as int));
                if file as u32 + skip as u32 > 255 {
                    return None;
                }
                file = file + skip;
            } else {
                if rank as u32 * 8 + file as u32 > 255 {
                    return None;
                }
                let sq = rank * 8 + file;
                let upper = 'A' <= c && c <= 'Z';
                let k: usize = if c == 'p' || c == 'P' {
                    0
                } else if c == 'n' || c == 'N' {
                    1
                } else if c == 'b' || c == 'B' {
                    2
                } else if c == 'r' || c == 'R' {
                    3
                } else if c == 'q' || c == 'Q' {
                    4
                } else if c == 'k' || c == 'K' {
                    5
                } else {
                    let low = if upper {
                        ((c as u8) + 32) as char
                    } else {
                        c
                    };
                    assert(low == lower(c));
                    assert(piece_slot(lower(c)) is None);
                    assert(digit_val(c) is None);
                    return Some(Err(low));
                };
                assert(piece_slot(lower(c)) == Some(k as int));
                assert(digit_val(c) is None);
                if sq >= 64 {
                    return None;
                }
                let ghost p_before = *pieces;
                let col: usize = if upper {
                    0
                } else {
                    1
                };
                let v = pieces[col][k] | (1u64 << (sq as u64));
                let mut row = pieces[col];
                row[k] = v;
                pieces[col] = row;
                proof {
                    lemma_pieces_ext(
                        *pieces,
                        upd(p_before, col as int, k as int, add_sq(p_before[col as int][k as int], sq as int)),
                    );
                }
                file = file + 1;
            }
            i += 1;
        }
        r += 1;
    }
    Some(Ok(()))
}

/// The castling rights of the letters `s[i..]` added to `acc`; `Err(c)` at the first character
/// `c` that is not one of `K`, `Q`, `k`, `q`.
pub open spec fn castle_letters(s: Seq<char>, i: int, acc: u8) -> Result<u8, char>
    decreases s.len() - i,
{
    if i < 0 || i >= s.len() {
        Ok(acc)
    } else if s[i] == 'K' {
        castle_letters(s, i + 1, acc | 1u8)
    } else if s[i] == 'Q' {
        castle_letters(s, i + 1, acc | 2u8)
    } else if s[i] == 'k' {
        castle_letters(s, i + 1, acc | 4u8)
    } else if s[i] == 'q' {
        castle_letters(s, i + 1, acc | 8u8)
    } else {
        Err(s[i])
    }
}

/// The castling field: `-` for none, else the letters.
pub open spec fn castling_field(s: Seq<char>) -> Result<u8, char> {
    if s == seq!['-'] {
        Ok(0)
    } else {
        castle_letters(s, 0, 0)
    }
}

/// The square named by two characters `a1` to `h8`.
pub open spec fn square_chars(s: Seq<char>) -> Option<u8> {
    if s.len() == 2 && 'a' <= s[0] <= 'h' && '1' <= s[1] <= '8' {
        Some(((s[1] as int - 49) * 8 + (s[0] as int - 97)) as u8)
    } else {
        None
    }
}

pub open spec fn msg_fields(n: nat) -> Seq<char> {
    "Invalid FEN: expected at least 4 fields, got "@ + decimal(n)
}

pub open spec fn msg_ranks(n: nat) -> Seq<char> {
    "Invalid FEN: expected 8 ranks, got "@ + decimal(n)
}

pub open spec fn msg_piece(c: char) -> Seq<char> {
    "Invalid piece character: "@ + seq![c]
}

pub open spec fn msg_side(t: Seq<char>) -> Seq<char> {
    "Invalid side to move: "@ + t
}

pub open spec fn msg_castle(c: char) -> Seq<char> {
    "Invalid castling char: "@ + seq![c]
}

pub open spec fn msg_square(t: Seq<char>) -> Seq<char> {
    "Invalid square: "@ + t
}

/// The empty piece bitboards.
pub open spec fn no_pieces() -> [[u64; 6]; 2] {
    [[0u64, 0u64, 0u64, 0u64, 0u64, 0u64], [0u64, 0u64, 0u64, 0u64, 0u64, 0u64]]
}

/// What `Position::from_fen` gives for the text `s`: `Some(Ok(pos))`, `Some(Err(message))`, or
/// `None` where parsing would panic.
pub open spec fn fen_spec(s: Seq<char>) -> Option<Result<Position, Seq<char>>> {
    let parts = words(s);
    if parts.len() < 4 {
        Some(Err(msg_fields(parts.len())))
    } else {
        let ranks = split_slash(parts[0]);
        if ranks.len() != 8 {
            Some(Err(msg_ranks(ranks.len())))
        } else {
            match place_all(no_pieces(), ranks, 0) {
                None => None,
                Some(Err(c)) => Some(Err(msg_piece(c))),
                Some(Ok(pieces)) => fen_fields(parts, pieces),
            }
        }
    }
}

/// The rest of `fen_spec` once the pieces are placed.
pub open spec fn fen_fields(parts: Seq<Seq<char>>, pieces: [[u64; 6]; 2]) -> Option<
    Result<Position, Seq<char>>,
> {
    if parts[1] != seq!['w'] && parts[1] != seq!['b'] {
        Some(Err(msg_side(parts[1])))
    } else {
        let side = if parts[1] == seq!['w'] {
            Color::White
        } else {
            Color::Black
        };
        match castling_field(parts[2]) {
            Err(c) => Some(Err(msg_castle(c))),
            Ok(rights) => {
                if parts[3] != seq!['-'] && square_chars(parts[3]) is None {
                    Some(Err(msg_square(parts[3])))
                } else {
                    let ep = if parts[3] == seq!['-'] {
                        None
                    } else {
                        square_chars(parts[3])
                    };
                    let half = if parts.len() > 4 && parse_u16(parts[4]) is Some {
                        parse_u16(parts[4])->0
                    } else {
                        0
                    };
                    let full = if parts.len() > 5 && parse_u16(parts[5]) is Some {
                        parse_u16(parts[5])->0
                    } else {
                        1
                    };
                    Some(
                        Ok(
                            with_occupancy(
                                Position {
                                    pieces,
                                    occupied_by: [0u64, 0u64],
                                    occupied: 0,
                                    side_to_move: side,
                                    castling_rights: rights,
                                    en_passant: ep,
                                    halfmove_clock: half,
                                    fullmove_number: full,
                                },
                            ),
                        ),
                    )
                }
            },
        }
    }
}

fn is_single(t: &Vec<char>, c: char) -> (b: bool)
    ensures
        b == (t@ == seq![c]),
{
    if t.len() == 1 && t[0] == c {
        assert(t@ =~= seq![c]);
        true
    } else {
        false
    }
}

fn castling_exec(t: &Vec<char>) -> (r: Result<u8, char>)
    ensures
        r == castling_field(t@),
{
    if is_single(t, '-') {
        return Ok(0);
    }
    let mut acc: u8 = 0;
    let mut i: usize = 0;
    while i < t.len()
        invariant
            i <= t@.len(),
            t@ != seq!['-'],
            castling_field(t@) == castle_letters(t@, i as int, acc),
        decreases t.len() - i,
    {
        let c = t[i];
        if c == 'K' {
            acc = acc | WK_CASTLE;
        } else if c == 'Q' {
            acc = acc | WQ_CASTLE;
        } else if c == 'k' {
            acc = acc | BK_CASTLE;
        } else if c == 'q' {
            acc = acc | BQ_CASTLE;
        } else {
            return Err(c);
        }
        i += 1;
    }
    Ok(acc)
}

fn square_exec(t: &Vec<char>) -> (r: Option<u8>)
    ensures
        r == square_chars(t@),
{
    if t.len() == 2 && 'a' <= t[0] && t[0] <= 'h' && '1' <= t[1] && t[1] <= '8' {
        let file = (t[0] as u8) - 97;
        let rank = (t[1] as u8) - 49;
        Some(rank * 8 + file)
    } else {
        None
    }
}

/// Converts a square string like "e4" into a square index.
pub fn square_from_str(s: &str) -> (r: Result<u8, String>)
    ensures
        r is Ok <==> square_chars(s@) is Some,
        r matches Ok(sq) ==> square_chars(s@) == Some(sq),
        r matches Err(e) ==> e@ == msg_square(s@),
{
    let t = chars_of(s);
    match square_exec(&t) {
        Some(sq) => Ok(sq),
        None => {
            let mut e = "Invalid square: ".to_owned();
            push_chars(&mut e, &t);
            Err(e)
        },
    }
}

impl Position {
    /// Parses a FEN string into a Position.
    /// Example: "rnbqkbnr/pppppppp/8/8/8/8/PPPPPPPP/RNBQKBNR w KQkq - 0 1"
    pub fn from_fen(fen: &str) -> (r: Result<Position, String>)
        requires
            fen_spec(fen@) is Some,
        ensures
            r is Ok <==> fen_spec(fen@)->0 is Ok,
            r matches Ok(p) ==> fen_spec(fen@) == Some(Ok::<Position, Seq<char>>(p)),
            r matches Err(e) ==> fen_spec(fen@) == Some(Err::<Position, Seq<char>>(e@)),
    {
        let mut pos = Position::empty();
        let chars = chars_of(fen);
        let parts = split_words(&chars);
        let ghost ps = views(parts@);
        assert(ps.len() == parts@.len());
        if parts.len() < 4 {
            let mut e = "Invalid FEN: expected at least 4 fields, got ".to_owned();
            push_decimal(&mut e, parts.len() as u64);
            return Err(e);
        }
        assert(parts[0]@ == ps[0] && parts[1]@ == ps[1] && parts[2]@ == ps[2] && parts[3]@ == ps[3]);
        // 1. Piece placement
        let ranks = split_on_slash(&parts[0]);
        if ranks.len() != 8 {
            let mut e = "Invalid FEN: expected 8 ranks, got ".to_owned();
            push_decimal(&mut e, ranks.len() as u64);
            return Err(e);
        }
        let mut pieces = [[0u64; 6]; 2];
        assert(pieces =~= no_pieces()) by {
            lemma_pieces_ext(pieces, no_pieces());
        }
        match place_ranks(&ranks, &mut pieces) {
            None => {
                // `fen_spec(fen@) is Some` rules this out.
                assert(false);
                return Err(String::new());
            },
            Some(Err(c)) => {
                let mut e = "Invalid piece character: ".to_owned();
                push_char(&mut e, c);
                assert(e@ =~= msg_piece(c));
                return Err(e);
            },
            Some(Ok(())) => {},
        }
        pos.pieces = pieces;
        // 2. Side to move
        if is_single(&parts[1], 'w') {
            pos.side_to_move = Color::White;
        } else if is_single(&parts[1], 'b') {
            pos.side_to_move = Color::Black;
        } else {
            let mut e = "Invalid side to move: ".to_owned();
            push_chars(&mut e, &parts[1]);
            return Err(e);
        }
        // 3. Castling rights
        match castling_exec(&parts[2]) {
            Ok(rights) => {
                pos.castling_rights = rights;
            },
            Err(c) => {
                let mut e = "Invalid castling char: ".to_owned();
                push_char(&mut e, c);
                assert(e@ =~= msg_castle(c));
                return Err(e);
            },
        }
        // 4. En passant square
        if is_single(&parts[3], '-') {
            pos.en_passant = None;
        } else {
            match square_exec(&parts[3]) {
                Some(sq) => {
                    pos.en_passant = Some(sq);
                },
                None => {
                    let mut e = "Invalid square: ".to_owned();
                    push_chars(&mut e, &parts[3]);
                    return Err(e);
                },
            }
        }
        // 5. Halfmove clock (optional in some FENs)
        pos.halfmove_clock = 0;
        if parts.len() > 4 {
            assert(parts[4]@ == ps[4]);
            if let Some(v) = parse_u16_exec(&parts[4]) {
                pos.halfmove_clock = v;
            }
        }
        // 6. Fullmove number (optional)
        pos.fullmove_number = 1;
        if parts.len() > 5 {
            assert(parts[5]@ == ps[5]);
            if let Some(v) = parse_u16_exec(&parts[5]) {
                pos.fullmove_number = v;
            }
        }
        pos.update_occupancy();
        Ok(pos)
    }
}

/// Whether `Position::from_fen` can take `fen`: false exactly where placing its pieces would
/// run past the board, the inputs that `from_fen` leaves out.
pub fn fen_ok(fen: &str) -> (b: bool)
    ensures
        b == (fen_spec(fen@) is Some),
{
    let chars = chars_of(fen);
    let parts = split_words(&chars);
    let ghost ps = views(parts@);
    assert(ps.len() == parts@.len());
    if parts.len() < 4 {
        return true;
    }
    assert(parts[0]@ == ps[0]);
    let ranks = split_on_slash(&parts[0]);
    if ranks.len() != 8 {
        return true;
    }
    let mut pieces = [[0u64; 6]; 2];
    assert(pieces =~= no_pieces()) by {
        lemma_pieces_ext(pieces, no_pieces());
    }
    let placed = place_ranks(&ranks, &mut pieces);
    placed.is_some()
}

/// The FEN letter of a piece: capitals for white.
pub open spec fn piece_char(c: Color, pt: PieceType) -> char {
    let small = match pt {
        PieceType::Pawn => 'p',
        PieceType::Knight => 'n',
        PieceType::Bishop => 'b',
        PieceType::Rook => 'r',
        PieceType::Queen => 'q',
        PieceType::King => 'k',
    };
    if c == Color::White {
        ((small as int) - 32) as char
    } else {
        small
    }
}

/// The count of empty squares written before a piece or at the rank's end (nothing for 0).
pub open spec fn empty_run(n: int) -> Seq<char> {
    if n > 0 {
        decimal(n as nat)
    } else {
        Seq::empty()
    }
}

/// The FEN text of rank `rank` from file `f` on, `n` empty squares being counted already.
pub open spec fn rank_text(pos: Position, rank: int, f: int, n: int) -> Seq<char>
    decreases 8 - f,
{
    if f >= 8 {
        empty_run(n)
    } else {
        match piece_at_spec(pos, rank * 8 + f) {
            None => rank_text(pos, rank, f + 1, n + 1),
            Some((c, pt)) => empty_run(n) + seq![piece_char(c, pt)] + rank_text(
                pos,
                rank,
                f + 1,
                0,
            ),
        }
    }
}

/// The piece field from rank `8 - t` down: ranks separated by `/`, the eighth rank first.
pub open spec fn placement_text(pos: Position, t: int) -> Seq<char>
    decreases 8 - t,
{
    if t >= 8 {
        Seq::empty()
    } else {
        rank_text(pos, 7 - t, 0, 0) + (if t != 7 {
            seq!['/']
        } else {
            Seq::empty()
        }) + placement_text(pos, t + 1)
    }
}

/// The castling field: `-` for no rights, else `K`, `Q`, `k`, `q` for the rights held.
pub open spec fn castling_text(r: u8) -> Seq<char> {
    if r == 0 {
        seq!['-']
    } else {
        (if r & 1u8 != 0 {
            seq!['K']
        } else {
            Seq::empty()
        }) + (if r & 2u8 != 0 {
            seq!['Q']
        } else {
            Seq::empty()
        }) + (if r & 4u8 != 0 {
            seq!['k']
        } else {
            Seq::empty()
        }) + (if r & 8u8 != 0 {
            seq!['q']
        } else {
            Seq::empty()
        })
    }
}

/// The en passant field.
pub open spec fn ep_text(ep: Option<u8>) -> Seq<char> {
    match ep {
        None => seq!['-'],
        Some(sq) => square_text(sq),
    }
}

/// The FEN text of a position, as `Position::to_fen` writes it.
pub open spec fn fen_text(pos: Position) -> Seq<char> {
    placement_text(pos, 0) + seq![
        ' ',
        if pos.side_to_move == Color::White {
            'w'
        } else {
            'b'
        },
        ' ',
    ] + castling_text(pos.castling_rights) + seq![' '] + ep_text(pos.en_passant) + seq![' ']
        + decimal(pos.halfmove_clock as nat) + seq![' '] + decimal(pos.fullmove_number as nat)
}

/// Converts a square index into algebraic notation like "e4".
fn square_to_str(sq: u8) -> (s: String)
    ensures
        s@ == square_text(sq),
{
    let file = sq % 8;
    let rank = sq / 8;
    let mut s = String::new();
    push_char(&mut s, (97u8 + file) as char);
    push_char(&mut s, (49u8 + rank) as char);
    assert(s@ =~= square_text(sq));
    s
}

/// Appends the FEN text of one rank.
fn push_rank(pos: &Position, s: &mut String, rank: u8)
    requires
        rank < 8,
    ensures
        final(s)@ == old(s)@ + rank_text(*pos, rank as int, 0, 0),
{
    let mut empty_count: u8 = 0;
    let mut file: u8 = 0;
    while file < 8
        invariant
            rank < 8,
            file <= 8,
            empty_count <= file,
            s@ + rank_text(*pos, rank as int, file as int, empty_count as int) == old(s)@
                + rank_text(*pos, rank as int, 0, 0),
        decreases 8 - file,
    {
        let sq = rank * 8 + file;
        match pos.piece_at(sq) {
            None => {
                empty_count += 1;
            },
            Some((color, piece_type)) => {
                let ghost before = s@;
                let ghost e0 = empty_count as int;
                if empty_count > 0 {
                    push_decimal(s, empty_count as u64);
                    empty_count = 0;
                }
                let c = match piece_type {
                    PieceType::Pawn => 'p',
                    PieceType::Knight => 'n',
                    PieceType::Bishop => 'b',
                    PieceType::Rook => 'r',
                    PieceType::Queen => 'q',
                    PieceType::King => 'k',
                };
                let pc = if color == Color::White {
                    ((c as u8) - 32) as char
                } else {
                    c
                };
                push_char(s, pc);
                assert(pc == piece_char(color, piece_type));
                assert(s@ =~= before + empty_run(e0) + seq![piece_char(color, piece_type)]);
            },
        }
        file += 1;
    }
    let ghost before = s@;
    if empty_count > 0 {
        push_decimal(s, empty_count as u64);
    }
    assert(s@ =~= before + empty_run(empty_count as int));
}

/// Appends the castling field.
fn push_castling(s: &mut String, rights: u8)
    ensures
        final(s)@ == old(s)@ + castling_text(rights),
{
    if rights == 0 {
        push_char(s, '-');
    } else {
        if rights & WK_CASTLE != 0 {
            push_char(s, 'K');
        }
        let ghost a = s@;
        if rights & WQ_CASTLE != 0 {
            push_char(s, 'Q');
        }
        let ghost b = s@;
        if rights & BK_CASTLE != 0 {
            push_char(s, 'k');
        }
        let ghost c = s@;
        if rights & BQ_CASTLE != 0 {
            push_char(s, 'q');
        }
    }
    assert(s@ =~= old(s)@ + castling_text(rights));
}

impl Position {
    /// Converts the Position back into a FEN string.
    pub fn to_fen(&self) -> (s: String)
        ensures
            s@ == fen_text(*self),
    {
        let mut s = String::new();
        let mut rank_from_top: u8 = 0;
        while rank_from_top < 8
            invariant
                rank_from_top <= 8,
                s@ + placement_text(*self, rank_from_top as int) == placement_text(*self, 0),
            decreases 8 - rank_from_top,
        {
            let ghost start = s@;
            push_rank(self, &mut s, 7 - rank_from_top);
            if rank_from_top != 7 {
                push_char(&mut s, '/');
            }
            rank_from_top += 1;
            assert(s@ + placement_text(*self, rank_from_top as int) =~= placement_text(*self, 0));
        }
        assert(s@ =~= placement_text(*self, 0));
        let ghost p = s@;
        push_char(&mut s, ' ');
        push_char(
            &mut s,
            if self.side_to_move == Color::White {
                'w'
            } else {
                'b'
            },
        );
        push_char(&mut s, ' ');
        push_castling(&mut s, self.castling_rights);
        push_char(&mut s, ' ');
        let ghost q = s@;
        match self.en_passant {
            None => push_char(&mut s, '-'),
            Some(sq) => {
                let t = square_to_str(sq);
                let tv = chars_of(t.as_str());
                push_chars(&mut s, &tv);
            },
        }
        assert(s@ =~= q + ep_text(self.en_passant));
        push_char(&mut s, ' ');
        push_decimal(&mut s, self.halfmove_clock as u64);
        push_char(&mut s, ' ');
        push_decimal(&mut s, self.fullmove_number as u64);
        assert(s@ =~= fen_text(*self));
        s
    }
}

} // verus!
