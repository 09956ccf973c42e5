//! Reading a position in Forsyth-Edwards notation, and square names such as `e4`.
use vstd::prelude::*;
use vstd::string::StringSliceAdditionalSpecFns;
use crate::bits::{sq_bb, sq_in, group_bits, lemma_and_zero};
use crate::board::{Bitboard, Board, Castling, GameState, Piece, Side, union6};

verus! {

/// ASCII whitespace as `u8::is_ascii_whitespace` counts it.
pub open spec fn is_ws(c: u8) -> bool {
    c == 32 || c == 9 || c == 10 || c == 12 || c == 13
}

/// Number of leading bytes of `s` that are not whitespace.
pub open spec fn token_len(s: Seq<u8>) -> nat
    decreases s.len(),
{
    if s.len() == 0 || is_ws(s[0]) {
        0
    } else {
        1 + token_len(s.drop_first())
    }
}

/// The whitespace-separated fields of `s`, in order.
pub open spec fn tokens(s: Seq<u8>) -> Seq<Seq<u8>>
    decreases s.len(),
{
    if s.len() == 0 {
        Seq::empty()
    } else if is_ws(s[0]) {
        tokens(s.drop_first())
    } else {
        let n = token_len(s);
        proof {
            lemma_token_len_bound(s);
        }
        seq![s.take(n as int)] + tokens(s.skip(n as int))
    }
}

pub proof fn lemma_token_len_bound(s: Seq<u8>)
    requires
        s.len() > 0,
        !is_ws(s[0]),
    ensures
        0 < token_len(s) <= s.len(),
    decreases s.len(),
{
    if s.len() > 1 && !is_ws(s[1]) {
        lemma_token_len_bound(s.drop_first());
    } else if s.len() > 1 {
        assert(token_len(s.drop_first()) == 0);
    } else {
        assert(token_len(s.drop_first()) == 0);
    }
}

proof fn lemma_token_len_is(s: Seq<u8>, j: int)
    requires
        0 <= j <= s.len(),
        forall|k: int| 0 <= k < j ==> !is_ws(#[trigger] s[k]),
        j == s.len() || is_ws(s[j]),
    ensures
        token_len(s) == j,
    decreases j,
{
    if j > 0 {
        lemma_token_len_is(s.drop_first(), j - 1);
    }
}

/// The contents of each vector of `v`.
pub open spec fn views(v: Seq<Vec<u8>>) -> Seq<Seq<u8>> {
    v.map_values(|x: Vec<u8>| x@)
}

/// The fields of `b` copied out, each as its own vector.
fn split_fields(b: &[u8]) -> (r: Vec<Vec<u8>>)
    ensures
        views(r@) == tokens(b@),
{
    let mut out: Vec<Vec<u8>> = Vec::new();
    let mut i: usize = 0;
    proof {
        assert(b@.skip(0) =~= b@);
        assert(views(out@) + tokens(b@) =~= tokens(b@));
    }
    while i < b.len()
        invariant
            i <= b@.len(),
            views(out@) + tokens(b@.skip(i as int)) == tokens(b@),
        decreases b@.len() - i,
    {
        if b[i] == 32 || b[i] == 9 || b[i] == 10 || b[i] == 12 || b[i] == 13 {
            proof {
                assert(b@.skip(i as int).drop_first() =~= b@.skip(i as int + 1));
            }
            i += 1;
        } else {
            let start = i;
            let mut tok: Vec<u8> = Vec::new();
            while i < b.len() && !(b[i] == 32 || b[i] == 9 || b[i] == 10 || b[i] == 12 || b[i]
                == 13)
                invariant
                    start <= i <= b@.len(),
                    tok@ =~= b@.subrange(start as int, i as int),
                    forall|k: int| start <= k < i ==> !is_ws(#[trigger] b@[k]),
                decreases b@.len() - i,
            {
                tok.push(b[i]);
                i += 1;
            }
            let ghost before = out@;
            proof {
                let s = b@.skip(start as int);
                lemma_token_len_is(s, (i - start) as int);
                assert(s.take((i - start) as int) =~= tok@);
                assert(s.skip((i - start) as int) =~= b@.skip(i as int));
                assert(tokens(s) == seq![tok@] + tokens(b@.skip(i as int)));
            }
            let ghost tv = tok@;
            out.push(tok);
            proof {
                assert(views(out@) =~= views(before).push(tv));
                assert(views(out@) + tokens(b@.skip(i as int)) =~= views(before) + (seq![tv]
                    + tokens(b@.skip(i as int))));
            }
        }
    }
    proof {
        assert(b@.skip(i as int) =~= Seq::<u8>::empty());
        assert(views(out@) + Seq::<Seq<u8>>::empty() =~= views(out@));
    }
    out
}

pub open spec fn is_digit(c: u8) -> bool {
    48 <= c <= 57
}

/// Side and kind index of a piece letter (upper case white, lower case black).
pub open spec fn piece_letter(c: u8) -> Option<(Side, int)> {
    if c == 75 {
        Some((Side::White, 0))
    } else if c == 81 {
        Some((Side::White, 1))
    } else if c == 82 {
        Some((Side::White, 2))
    } else if c == 66 {
        Some((Side::White, 3))
    } else if c == 78 {
        Some((Side::White, 4))
    } else if c == 80 {
        Some((Side::White, 5))
    } else if c == 107 {
        Some((Side::Black, 0))
    } else if c == 113 {
        Some((Side::Black, 1))
    } else if c == 114 {
        Some((Side::Black, 2))
    } else if c == 98 {
        Some((Side::Black, 3))
    } else if c == 110 {
        Some((Side::Black, 4))
    } else if c == 112 {
        Some((Side::Black, 5))
    } else {
        None
    }
}

/// Number of leading bytes of `t` before the first `/`.
pub open spec fn line_len(t: Seq<u8>) -> nat
    decreases t.len(),
{
    if t.len() == 0 || t[0] == 47 {
        0
    } else {
        1 + line_len(t.drop_first())
    }
}

pub proof fn lemma_line_len_bound(t: Seq<u8>)
    ensures
        line_len(t) <= t.len(),
        line_len(t) < t.len() ==> t[line_len(t) as int] == 47,
    decreases t.len(),
{
    if t.len() > 0 && t[0] != 47 {
        lemma_line_len_bound(t.drop_first());
    }
}

/// The ranks of a placement field, each read from its last byte to its first,
/// one after the other: the order in which squares 63 down to 0 are filled.
pub open spec fn rev_lines(t: Seq<u8>) -> Seq<u8>
    decreases t.len(),
{
    let n = line_len(t);
    proof {
        lemma_line_len_bound(t);
    }
    if n >= t.len() {
        t.reverse()
    } else {
        t.take(n as int).reverse() + rev_lines(t.skip(n + 1int))
    }
}

/// Piece bitboards after placing the bytes of `cs` from square `sq` downward:
/// a digit skips that many squares, a piece letter fills one.
pub open spec fn place(cs: Seq<u8>, sq: int, w: Seq<Bitboard>, k: Seq<Bitboard>) -> (Seq<Bitboard>, Seq<Bitboard>)
    decreases cs.len(),
{
    if cs.len() == 0 {
        (w, k)
    } else {
        let c = cs[0];
        let rest = cs.drop_first();
        if is_digit(c) {
            place(rest, sq - (c - 48), w, k)
        } else {
            match piece_letter(c) {
                Some((s, i)) => if s == Side::White {
                    place(rest, sq - 1, w.update(i, w[i] | sq_bb(sq)), k)
                } else {
                    place(rest, sq - 1, w, k.update(i, k[i] | sq_bb(sq)))
                },
                None => (w, k),
            }
        }
    }
}

/// Every byte of `cs` is a digit or a piece letter, and every piece lands on the board.
pub open spec fn place_ok(cs: Seq<u8>, sq: int) -> bool
    decreases cs.len(),
{
    if cs.len() == 0 {
        true
    } else {
        let c = cs[0];
        let rest = cs.drop_first();
        if is_digit(c) {
            place_ok(rest, sq - (c - 48))
        } else {
            piece_letter(c) is Some && 0 <= sq < 64 && place_ok(rest, sq - 1)
        }
    }
}

/// Six empty bitboards.
pub open spec fn empty6() -> Seq<Bitboard> {
    seq![0u64, 0u64, 0u64, 0u64, 0u64, 0u64]
}

/// Castling right named by one byte of the castling field.
pub open spec fn right_bit(c: u8) -> u8 {
    if c == 75 {
        1
    } else if c == 81 {
        2
    } else if c == 107 {
        4
    } else if c == 113 {
        8
    } else {
        0
    }
}

/// Castling rights named by a castling field.
pub open spec fn rights_of(t: Seq<u8>) -> u8
    decreases t.len(),
{
    if t.len() == 0 {
        0
    } else {
        rights_of(t.drop_last()) | right_bit(t.last())
    }
}

/// `c` in lower case, for ASCII letters.
pub open spec fn lower(c: u8) -> u8 {
    if 65 <= c <= 90 {
        (c + 32) as u8
    } else {
        c
    }
}

/// A square name: a file letter `a`-`h` (either case) then a rank digit, more bytes ignored.
pub open spec fn square_name_ok(t: Seq<u8>) -> bool {
    t.len() >= 2 && 97 <= lower(t[0]) <= 104 && 49 <= t[1] <= 57
}

/// The square a name denotes: eight times the rank digit less one, plus the file.
pub open spec fn square_of(t: Seq<u8>) -> int {
    (t[1] - 49) * 8 + (lower(t[0]) - 97)
}

/// Value of a string of decimal digits.
pub open spec fn digits_value(s: Seq<u8>) -> int
    decreases s.len(),
{
    if s.len() == 0 {
        0
    } else {
        digits_value(s.drop_last()) * 10 + (s.last() - 48)
    }
}

/// `s` without a leading `+`.
pub open spec fn unsigned_digits(s: Seq<u8>) -> Seq<u8> {
    if s.len() > 0 && s[0] == 43 {
        s.drop_first()
    } else {
        s
    }
}

/// What `str::parse::<usize>` makes of `s`: an optional `+`, then at least one
/// digit, the value fitting in a `usize`.
pub open spec fn parse_usize(s: Seq<u8>) -> Option<usize> {
    let d = unsigned_digits(s);
    if d.len() > 0 && (forall|i: int| 0 <= i < d.len() ==> is_digit(#[trigger] d[i]))
        && digits_value(d) <= usize::MAX {
        Some(digits_value(d) as usize)
    } else {
        None
    }
}

/// A move counter read from field `i`: 0 when it is missing or does not parse.
pub open spec fn counter(f: Seq<Seq<u8>>, i: int) -> usize {
    if f.len() > i {
        match parse_usize(f[i]) {
            Some(v) => v,
            None => 0,
        }
    } else {
        0
    }
}

/// `fen` is a position `from_fen` reads without a panic: at least four fields,
/// a placement that puts every piece on the board, and an en passant field
/// that is `-` or names a square.
pub open spec fn fen_ok(fen: Seq<u8>) -> bool {
    let f = tokens(fen);
    &&& f.len() >= 4
    &&& place_ok(rev_lines(f[0]), 63)
    &&& (f[3] =~= seq![45u8] || (square_name_ok(f[3]) && f[3][1] <= 56))
}

proof fn lemma_line_len_is(t: Seq<u8>, j: int)
    requires
        0 <= j <= t.len(),
        forall|k: int| 0 <= k < j ==> #[trigger] t[k] != 47,
        j == t.len() || t[j] == 47,
    ensures
        line_len(t) == j,
    decreases j,
{
    if j > 0 {
        lemma_line_len_is(t.drop_first(), j - 1);
    }
}

proof fn lemma_digits_step(s: Seq<u8>, i: int)
    requires
        0 <= i < s.len(),
    ensures
        digits_value(s.take(i + 1)) == digits_value(s.take(i)) * 10 + (s[i] - 48),
{
    assert(s.take(i + 1).drop_last() =~= s.take(i));
}

proof fn lemma_digits_nonneg(s: Seq<u8>)
    requires
        forall|i: int| 0 <= i < s.len() ==> is_digit(#[trigger] s[i]),
    ensures
        digits_value(s) >= 0,
    decreases s.len(),
{
    if s.len() > 0 {
        lemma_digits_nonneg(s.drop_last());
    }
}

proof fn lemma_digits_grow(s: Seq<u8>, i: int, j: int)
    requires
        0 <= i <= j <= s.len(),
        forall|k: int| 0 <= k < s.len() ==> is_digit(#[trigger] s[k]),
    ensures
        digits_value(s.take(i)) <= digits_value(s.take(j)),
    decreases j - i,
{
    if i < j {
        lemma_digits_grow(s, i, j - 1);
        lemma_digits_step(s, j - 1);
        lemma_digits_nonneg(s.take(j - 1));
        assert forall|k: int| 0 <= k < s.take(j - 1).len() implies is_digit(
            #[trigger] s.take(j - 1)[k],
        ) by {
            assert(s.take(j - 1)[k] == s[k]);
        }
    }
}

/// Reads a move counter: the value of `s` as `str::parse::<usize>` gives it, or 0.
fn parse_counter(s: &Vec<u8>) -> (v: usize)
    ensures
        v == match parse_usize(s@) {
            Some(x) => x,
            None => 0,
        },
{
    let mut i: usize = 0;
    if s.len() > 0 && s[0] == 43 {
        i = 1;
    }
    let start = i;
    let ghost d = s@.skip(start as int);
    proof {
        assert(d =~= unsigned_digits(s@));
    }
    if i >= s.len() {
        return 0;
    }
    let mut all: bool = true;
    let mut j: usize = i;
    while j < s.len()
        invariant
            start <= j <= s@.len(),
            all == (forall|k: int| start <= k < j ==> is_digit(#[trigger] s@[k])),
        decreases s@.len() - j,
    {
        if !(48 <= s[j] && s[j] <= 57) {
            all = false;
        }
        j += 1;
    }
    if !all {
        proof {
            assert(!(forall|k: int| start <= k < s@.len() ==> is_digit(#[trigger] s@[k])));
            let k = choose|k: int| start <= k < s@.len() && !is_digit(s@[k]);
            assert(d[k - start] == s@[k]);
            assert(!is_digit(d[k - start]));
            assert(!(forall|i: int| 0 <= i < d.len() ==> is_digit(#[trigger] d[i])));
            assert(parse_usize(s@) is None);
        }
        return 0;
    }
    assert forall|k: int| 0 <= k < d.len() implies is_digit(#[trigger] d[k]) by {
        assert(d[k] == s@[k + start]);
    }
    let mut v: usize = 0;
    while i < s.len()
        invariant
            start <= i <= s@.len(),
            d == s@.skip(start as int),
            d == unsigned_digits(s@),
            forall|k: int| 0 <= k < d.len() ==> is_digit(#[trigger] d[k]),
            v == digits_value(d.take((i - start) as int)),
        decreases s@.len() - i,
    {
        proof {
            lemma_digits_step(d, (i - start) as int);
            assert(d[(i - start) as int] == s@[i as int]);
        }
        let digit = (s[i] - 48) as usize;
        match v.checked_mul(10) {
            Some(t) => match t.checked_add(digit) {
                Some(u) => {
                    v = u;
                },
                None => {
                    proof {
                        assert(digits_value(d.take((i - start) as int + 1)) > usize::MAX);
                        lemma_digits_grow(d, (i - start) as int + 1, d.len() as int);
                        assert(d.take(d.len() as int) =~= d);
                        assert(digits_value(d) > usize::MAX);
                        assert(parse_usize(s@) is None);
                    }
                    return 0;
                },
            },
            None => {
                proof {
                    assert(v * 10 > usize::MAX);
                    assert(digits_value(d.take((i - start) as int + 1)) > usize::MAX);
                    lemma_digits_grow(d, (i - start) as int + 1, d.len() as int);
                    assert(d.take(d.len() as int) =~= d);
                    assert(digits_value(d) > usize::MAX);
                    assert(parse_usize(s@) is None);
                }
                return 0;
            },
        }
        i += 1;
    }
    proof {
        assert(d.take(d.len() as int) =~= d);
    }
    v
}

/// Side and kind index of a piece letter given as a `char`.
pub open spec fn char_piece(c: char) -> Option<(Side, int)> {
    if (c as u32) < 128 {
        piece_letter((c as u32) as u8)
    } else {
        None
    }
}

proof fn lemma_rev_lines_step(t: Seq<u8>, start: int, end: int)
    requires
        0 <= start <= end <= t.len(),
        forall|k: int| start <= k < end ==> #[trigger] t[k] != 47,
        end == t.len() || t[end] == 47,
    ensures
        rev_lines(t.skip(start)) == t.subrange(start, end).reverse() + if end < t.len() {
            rev_lines(t.skip(end + 1))
        } else {
            Seq::<u8>::empty()
        },
{
    let u = t.skip(start);
    assert forall|k: int| 0 <= k < end - start implies #[trigger] u[k] != 47 by {
        assert(u[k] == t[start + k]);
    }
    lemma_line_len_is(u, end - start);
    lemma_line_len_bound(u);
    if end < t.len() {
        assert(u.take(end - start) =~= t.subrange(start, end));
        assert(u.skip(end - start + 1) =~= t.skip(end + 1));
    } else {
        assert(u =~= t.subrange(start, end));
        assert(t.subrange(start, end).reverse() + Seq::<u8>::empty() =~= t.subrange(
            start,
            end,
        ).reverse());
    }
}

proof fn lemma_rev_take(t: Seq<u8>, start: int, k: int, after: Seq<u8>)
    requires
        0 <= start < k <= t.len(),
    ensures
        (t.subrange(start, k).reverse() + after)[0] == t[k - 1],
        (t.subrange(start, k).reverse() + after).drop_first() =~= t.subrange(start, k - 1).reverse()
            + after,
        (t.subrange(start, k).reverse() + after).len() > 0,
{
}

impl Board {
    /// Side and kind of a piece letter: upper case white, lower case black.
    fn char_to_piece(piece: char) -> (r: (Side, Piece))
        requires
            char_piece(piece) is Some,
        ensures
            char_piece(piece) == Some((r.0, crate::board::piece_index(r.1))),
    {
        match piece {
            'K' => (Side::White, Piece::King),
            'Q' => (Side::White, Piece::Queen),
            'R' => (Side::White, Piece::Rook),
            'B' => (Side::White, Piece::Bishop),
            'N' => (Side::White, Piece::Knight),
            'P' => (Side::White, Piece::Pawn),
            'k' => (Side::Black, Piece::King),
            'q' => (Side::Black, Piece::Queen),
            'r' => (Side::Black, Piece::Rook),
            'b' => (Side::Black, Piece::Bishop),
            'n' => (Side::Black, Piece::Knight),
            _ => (Side::Black, Piece::Pawn),
        }
    }
}

/// The decimal digits of `n`, most significant first.
pub open spec fn decimal(n: nat) -> Seq<char>
    decreases n,
{
    if n < 10 {
        seq![digit_char(n)]
    } else {
        decimal(n / 10) + seq![digit_char(n % 10)]
    }
}

pub open spec fn digit_char(d: nat) -> char {
    if d == 0 {
        '0'
    } else if d == 1 {
        '1'
    } else if d == 2 {
        '2'
    } else if d == 3 {
        '3'
    } else if d == 4 {
        '4'
    } else if d == 5 {
        '5'
    } else if d == 6 {
        '6'
    } else if d == 7 {
        '7'
    } else if d == 8 {
        '8'
    } else {
        '9'
    }
}

/// The letter of file `f` (0 to 7).
pub open spec fn file_char(f: int) -> char {
    if f == 0 {
        'a'
    } else if f == 1 {
        'b'
    } else if f == 2 {
        'c'
    } else if f == 3 {
        'd'
    } else if f == 4 {
        'e'
    } else if f == 5 {
        'f'
    } else if f == 6 {
        'g'
    } else {
        'h'
    }
}

/// `format!("{}{}", file, rank)`: the character followed by the decimal
/// digits of the number, as `Display` for `char` and `usize` writes them.
#[verifier::external_body]
fn format_square(file: char, rank: usize) -> (s: String)
    ensures
        s@ == seq![file] + decimal(rank as nat),
{
    format!("{}{}", file, rank)
}

/// Square named by the two bytes of `b` at `off`: a file letter, then a rank digit.
fn square_from_name(b: &[u8], off: usize) -> (r: usize)
    requires
        off + 2 <= b@.len(),
        square_name_ok(b@.skip(off as int)),
    ensures
        r == square_of(b@.skip(off as int)),
{
    proof {
        assert(b@.skip(off as int)[1] == b@[off + 1]);
        assert(b@.skip(off as int)[0] == b@[off as int]);
    }
    let n = b.len();
    let row = (b[off + 1] - 49) as usize;
    let c = b[off];
    let lc = if 65 <= c && c <= 90 {
        c + 32
    } else {
        c
    };
    let col = (lc - 97) as usize;
    row * 8 + col
}

impl Board {
    /// Name of square `sq`: file letter, then rank number.
    pub fn sq_to_notation(sq: usize) -> (s: String)
        ensures
            s@ == square_name(sq as int),
    {
        let row = sq / 8;
        let col = match sq % 8 {
            0 => 'a',
            1 => 'b',
            2 => 'c',
            3 => 'd',
            4 => 'e',
            5 => 'f',
            6 => 'g',
            _ => 'h',
        };
        format_square(col, row + 1)
    }

    /// Square named by the first two characters of `not`.
    fn notation_to_sq(not: &str) -> (r: usize)
        requires
            square_name_ok(not.spec_bytes()),
        ensures
            r == square_of(not.spec_bytes()),
    {
        let b = not.as_bytes();
        proof {
            assert(b@.skip(0) =~= b@);
        }
        square_from_name(b, 0)
    }

    /// Origin and destination squares of a move written as two square names, as in `e2e4`.
    pub fn move_to_sqs(m: &str) -> (r: (usize, usize))
        requires
            square_name_ok(m.spec_bytes()),
            square_name_ok(m.spec_bytes().skip(2)),
        ensures
            r == (square_of(m.spec_bytes()) as usize, square_of(m.spec_bytes().skip(2)) as usize),
    {
        let b = m.as_bytes();
        proof {
            assert(b@.skip(0) =~= b@);
        }
        (square_from_name(b, 0), square_from_name(b, 2))
    }

    /// Reads a position in Forsyth-Edwards notation: placement, side to move,
    /// castling rights, en passant square, and the two move counters (0 when
    /// missing or unreadable).
    pub fn from_fen(fen: &str) -> (r: Board)
        requires
            fen_ok(fen.spec_bytes()),
        ensures
            ({
                let f = tokens(fen.spec_bytes());
                let placed = place(rev_lines(f[0]), 63, empty6(), empty6());
                &&& r.white@ == placed.0
                &&& r.black@ == placed.1
                &&& r.white_bb == union6(r.white)
                &&& r.black_bb == union6(r.black)
                &&& r.side == if f[1] =~= seq![98u8] {
                    Side::Black
                } else {
                    Side::White
                }
                &&& r.castling == Castling(rights_of(f[2]))
                &&& r.en_passant == if f[3] =~= seq![45u8] {
                    0u64
                } else {
                    sq_bb(square_of(f[3]))
                }
                &&& r.half_move == counter(f, 4)
                &&& r.full_move == counter(f, 5)
                &&& r.state == GameState::Normal
            }),
            r.wf(),
    {
        let bytes = fen.as_bytes();
        let fields = split_fields(bytes);
        let ghost f = tokens(bytes@);
        proof {
            assert(fields@.len() == f.len());
            assert(views(fields@)[0] == fields@[0]@);
            assert(views(fields@)[1] == fields@[1]@);
            assert(views(fields@)[2] == fields@[2]@);
            assert(views(fields@)[3] == fields@[3]@);
        }
        let mut white: [Bitboard; 6] = [0; 6];
        let mut black: [Bitboard; 6] = [0; 6];
        let t0 = &fields[0];
        let ghost total = place(rev_lines(f[0]), 63, empty6(), empty6());
        let mut sq: i128 = 63;
        let mut start: usize = 0;
        proof {
            assert(white@ =~= empty6());
            assert(black@ =~= empty6());
            assert(t0@.skip(0) =~= t0@);
        }
        loop
            invariant_except_break
                start <= t0@.len(),
                t0@ == f[0],
                total == place(rev_lines(t0@.skip(start as int)), sq as int, white@, black@),
                place_ok(rev_lines(t0@.skip(start as int)), sq as int),
                63 - 10 * start <= sq <= 63,
            ensures
                total == (white@, black@),
            decreases t0@.len() - start,
        {
            let mut end = start;
            while end < t0.len() && t0[end] != 47
                invariant
                    start <= end <= t0@.len(),
                    forall|k: int| start <= k < end ==> #[trigger] t0@[k] != 47,
                decreases t0@.len() - end,
            {
                end += 1;
            }
            let ghost after = if end < t0@.len() {
                rev_lines(t0@.skip(end + 1))
            } else {
                Seq::<u8>::empty()
            };
            proof {
                lemma_rev_lines_step(t0@, start as int, end as int);
            }
            let mut k = end;
            while k > start
                invariant
                    start <= k <= end <= t0@.len(),
                    t0@ == f[0],
                    total == place(t0@.subrange(start as int, k as int).reverse() + after, sq as int, white@, black@),
                    place_ok(t0@.subrange(start as int, k as int).reverse() + after, sq as int),
                    63 - 10 * start - 10 * (end - k) <= sq <= 63,
                decreases k,
            {
                proof {
                    lemma_rev_take(t0@, start as int, k as int, after);
                }
                let c = t0[k - 1];
                if 48 <= c && c <= 57 {
                    sq = sq - (c - 48) as i128;
                } else {
                    let (s, p) = Board::char_to_piece(c as char);
                    let i = p.index();
                    let bit: Bitboard = 1u64 << (sq as u64);
                    match s {
                        Side::White => {
                            white[i] = white[i] | bit;
                        },
                        Side::Black => {
                            black[i] = black[i] | bit;
                        },
                    }
                    sq = sq - 1;
                }
                k -= 1;
            }
            proof {
                assert(t0@.subrange(start as int, start as int).reverse() + after =~= after);
            }
            if end >= t0.len() {
                proof {
                    assert(place(Seq::<u8>::empty(), sq as int, white@, black@) == (white@, black@));
                }
                break;
            }
            start = end + 1;
        }
        let side = if fields[1].len() == 1 && fields[1][0] == 98 {
            Side::Black
        } else {
            Side::White
        };
        let mut rights: u8 = 0;
        let t2 = &fields[2];
        if !(t2.len() == 1 && t2[0] == 45) {
            let mut i: usize = 0;
            while i < t2.len()
                invariant
                    i <= t2@.len(),
                    rights == rights_of(t2@.take(i as int)),
                decreases t2@.len() - i,
            {
                proof {
                    assert(t2@.take(i as int + 1).drop_last() =~= t2@.take(i as int));
                }
                let c = t2[i];
                rights = rights | if c == 75 {
                    1u8
                } else if c == 81 {
                    2u8
                } else if c == 107 {
                    4u8
                } else if c == 113 {
                    8u8
                } else {
                    0u8
                };
                i += 1;
            }
            proof {
                assert(t2@.take(t2@.len() as int) =~= t2@);
                assert(rights == rights_of(t2@));
            }
        } else {
            proof {
                assert(t2@.take(0).len() == 0);
                assert(t2@.drop_last() =~= t2@.take(0));
                assert(right_bit(45) == 0);
                assert(0u8 | 0u8 == 0u8) by (bit_vector);
                assert(rights_of(t2@.drop_last()) == 0);
                assert(t2@.last() == 45);
                assert(rights == rights_of(t2@));
            }
        }
        assert(rights == rights_of(t2@));
        let mut en_passant: Bitboard = 0;
        let t3 = &fields[3];
        if !(t3.len() == 1 && t3[0] == 45) {
            proof {
                assert(t3@.skip(0) =~= t3@);
            }
            let sq3 = square_from_name(t3.as_slice(), 0);
            en_passant = 1u64 << (sq3 as u64);
        }
        let white_bb = white[0] | white[1] | white[2] | white[3] | white[4] | white[5];
        let black_bb = black[0] | black[1] | black[2] | black[3] | black[4] | black[5];
        let half_move = if fields.len() > 4 {
            proof {
                assert(views(fields@)[4] == fields@[4]@);
            }
            parse_counter(&fields[4])
        } else {
            0
        };
        let full_move = if fields.len() > 5 {
            proof {
                assert(views(fields@)[5] == fields@[5]@);
            }
            parse_counter(&fields[5])
        } else {
            0
        };
        proof {
            assert(white@ == total.0);
            assert(black@ == total.1);
            assert(side == if f[1] =~= seq![98u8] {
                Side::Black
            } else {
                Side::White
            });
            assert(rights == rights_of(f[2]));
            assert(en_passant == if f[3] =~= seq![45u8] {
                0u64
            } else {
                sq_bb(square_of(f[3]))
            });
            assert(half_move == counter(f, 4));
            assert(full_move == counter(f, 5));
        }
        let r = Board {
            side,
            castling: Castling(rights),
            en_passant,
            white,
            black,
            white_bb,
            black_bb,
            half_move,
            full_move,
            state: GameState::Normal,
        };
        proof {
            lemma_fen_board_wf(f[0], r);
        }
        r
    }
}


/// The name of square `sq`: its file letter, then its rank number.
pub open spec fn square_name(sq: int) -> Seq<char> {
    seq![file_char(sq % 8)] + decimal((sq / 8 + 1) as nat)
}

/// A square's name reads back as the square: it is a file letter and a rank
/// digit, and the bytes of those two characters name `sq`.
pub proof fn lemma_square_name_reads_back(sq: int)
    requires
        0 <= sq < 64,
    ensures
        square_name(sq).len() == 2,
        square_name_ok(seq![square_name(sq)[0] as u8, square_name(sq)[1] as u8]),
        square_of(seq![square_name(sq)[0] as u8, square_name(sq)[1] as u8]) == sq,
{
    let f = sq % 8;
    let r = sq / 8;
    assert(decimal((r + 1) as nat) == seq![digit_char((r + 1) as nat)]);
    let n = square_name(sq);
    assert(n[0] == file_char(f));
    assert(n[1] == digit_char((r + 1) as nat));
    assert(file_char(f) as u8 == 97 + f);
    assert(digit_char((r + 1) as nat) as u8 == 49 + r);
}


/// Every square of the bitboards `w` lies above `sq`.
pub open spec fn above(w: Seq<Bitboard>, sq: int) -> bool {
    forall|i: int, t: int| 0 <= i < 6 && #[trigger] sq_in(w[i], t) ==> t > sq
}

/// The twelve bitboards `w` and `k` share no square.
pub open spec fn apart12(w: Seq<Bitboard>, k: Seq<Bitboard>) -> bool {
    &&& forall|i: int, j: int| 0 <= i < 6 && 0 <= j < 6 && i != j ==> #[trigger] (w[i] & w[j]) == 0
    &&& forall|i: int, j: int| 0 <= i < 6 && 0 <= j < 6 && i != j ==> #[trigger] (k[i] & k[j]) == 0
    &&& forall|i: int, j: int| 0 <= i < 6 && 0 <= j < 6 ==> #[trigger] (w[i] & k[j]) == 0
}

/// Adding square `sq` to `a` keeps it apart from `b`, all of whose squares lie above `sq`.
proof fn lemma_add_apart(a: u64, b: u64, sq: int)
    requires
        0 <= sq < 64,
        a & b == 0,
        forall|t: int| #[trigger] sq_in(b, t) ==> t > sq,
    ensures
        (a | sq_bb(sq)) & b == 0,
        b & (a | sq_bb(sq)) == 0,
{
    broadcast use group_bits;

    lemma_and_zero(a, b);
    lemma_and_zero(a | sq_bb(sq), b);
    lemma_and_zero(b, a | sq_bb(sq));
}

proof fn lemma_place_apart(cs: Seq<u8>, sq: int, w: Seq<Bitboard>, k: Seq<Bitboard>)
    requires
        place_ok(cs, sq),
        w.len() == 6,
        k.len() == 6,
        above(w, sq),
        above(k, sq),
        apart12(w, k),
    ensures
        place(cs, sq, w, k).0.len() == 6,
        place(cs, sq, w, k).1.len() == 6,
        apart12(place(cs, sq, w, k).0, place(cs, sq, w, k).1),
    decreases cs.len(),
{
    broadcast use group_bits;

    if cs.len() > 0 {
        let c = cs[0];
        let rest = cs.drop_first();
        if is_digit(c) {
            lemma_place_apart(rest, sq - (c - 48), w, k);
        } else {
            let (s, x) = piece_letter(c)->0;
            let add = sq_bb(sq);
            if s == Side::White {
                let w2 = w.update(x, w[x] | add);
                assert forall|i: int, j: int| 0 <= i < 6 && 0 <= j < 6 && i != j implies #[trigger] (
                w2[i] & w2[j]) == 0 by {
                    if i == x {
                        lemma_add_apart(w[x], w[j], sq);
                    } else if j == x {
                        lemma_add_apart(w[x], w[i], sq);
                    }
                }
                assert forall|i: int, j: int| 0 <= i < 6 && 0 <= j < 6 implies #[trigger] (w2[i]
                    & k[j]) == 0 by {
                    if i == x {
                        lemma_add_apart(w[x], k[j], sq);
                    }
                }
                assert forall|i: int, t: int| 0 <= i < 6 && #[trigger] sq_in(w2[i], t) implies t > sq
                    - 1 by {
                    if i == x {
                        assert(sq_in(w[x] | add, t) == (sq_in(w[x], t) || sq_in(add, t)));
                    }
                }
                lemma_place_apart(rest, sq - 1, w2, k);
            } else {
                let k2 = k.update(x, k[x] | add);
                assert forall|i: int, j: int| 0 <= i < 6 && 0 <= j < 6 && i != j implies #[trigger] (
                k2[i] & k2[j]) == 0 by {
                    if i == x {
                        lemma_add_apart(k[x], k[j], sq);
                    } else if j == x {
                        lemma_add_apart(k[x], k[i], sq);
                    }
                }
                assert forall|i: int, j: int| 0 <= i < 6 && 0 <= j < 6 implies #[trigger] (w[i]
                    & k2[j]) == 0 by {
                    if j == x {
                        crate::bits::lemma_bit_basics(w[i], k[x], 0);
                        lemma_add_apart(k[x], w[i], sq);
                    }
                }
                assert forall|i: int, t: int| 0 <= i < 6 && #[trigger] sq_in(k2[i], t) implies t > sq
                    - 1 by {
                    if i == x {
                        assert(sq_in(k[x] | add, t) == (sq_in(k[x], t) || sq_in(add, t)));
                    }
                }
                lemma_place_apart(rest, sq - 1, w, k2);
            }
        }
    }
}

/// Pieces placed from a placement field never share a square, so the board
/// they make, with each occupancy the union of its side's pieces, is
/// consistent.
proof fn lemma_fen_board_wf(t: Seq<u8>, b: Board)
    requires
        place_ok(rev_lines(t), 63),
        b.white@ == place(rev_lines(t), 63, empty6(), empty6()).0,
        b.black@ == place(rev_lines(t), 63, empty6(), empty6()).1,
        b.white_bb == union6(b.white),
        b.black_bb == union6(b.black),
    ensures
        b.wf(),
{
    broadcast use group_bits;

    let e = empty6();
    crate::bits::lemma_bit_basics(0, 0, 0);
    assert forall|i: int, tt: int| 0 <= i < 6 && #[trigger] sq_in(e[i], tt) implies tt > 63 by {}
    lemma_place_apart(rev_lines(t), 63, e, e);
    let w = b.white;
    let k = b.black;
    assert forall|i: int, j: int| 0 <= i < j < 6 implies #[trigger] (w[i] & w[j]) == 0 by {
        assert(w[i] == b.white@[i] && w[j] == b.white@[j]);
    }
    assert forall|i: int, j: int| 0 <= i < j < 6 implies #[trigger] (k[i] & k[j]) == 0 by {
        assert(k[i] == b.black@[i] && k[j] == b.black@[j]);
    }
    lemma_and_zero(b.white_bb, b.black_bb);
    assert forall|tt: int| 0 <= tt < 64 implies !(sq_in(b.white_bb, tt) && sq_in(b.black_bb, tt)) by {
        if sq_in(b.white_bb, tt) && sq_in(b.black_bb, tt) {
            let i = choose|i: int| 0 <= i < 6 && sq_in(w[i], tt);
            let j = choose|j: int| 0 <= j < 6 && sq_in(k[j], tt);
            assert(w[i] == b.white@[i] && k[j] == b.black@[j]);
            assert(w[i] & k[j] == 0);
            lemma_and_zero(w[i], k[j]);
        }
    }
}

} // verus!
