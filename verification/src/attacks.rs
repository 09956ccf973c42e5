//! Squares attacked by a king, a knight or a pawn standing on a square.
use vstd::prelude::*;
use crate::bits::{sq_in, group_bits};

verus! {

pub type Bitboard = u64;

pub open spec fn file_diff(a: int, b: int) -> int {
    b % 8 - a % 8
}

pub open spec fn rank_diff(a: int, b: int) -> int {
    b / 8 - a / 8
}

pub open spec fn abs(x: int) -> int {
    if x < 0 {
        -x
    } else {
        x
    }
}

/// A knight on `a` reaches `b`.
pub open spec fn knight_jump(a: int, b: int) -> bool {
    let df = abs(file_diff(a, b));
    let dr = abs(rank_diff(a, b));
    (df == 1 && dr == 2) || (df == 2 && dr == 1)
}

/// A king on `a` reaches `b`.
pub open spec fn king_step(a: int, b: int) -> bool {
    a != b && abs(file_diff(a, b)) <= 1 && abs(rank_diff(a, b)) <= 1
}

/// A knight-move bitboard for a knight on `sq`: the bitboard arithmetic of the
/// move table.
pub open spec fn knight_attacks(sq: int) -> Bitboard {
    let bb = 1u64 << (sq as u64);
    ((bb & 0xfefefefefefefefeu64) << 15u64) | ((bb & 0x7f7f7f7f7f7f7f7fu64) << 17u64) | ((bb
        & 0xfcfcfcfcfcfcfcfcu64) << 6u64) | ((bb & 0x3f3f3f3f3f3f3f3fu64) << 10u64) | ((bb
        & 0x7f7f7f7f7f7f7f7fu64) >> 15u64) | ((bb & 0xfefefefefefefefeu64) >> 17u64) | ((bb
        & 0x3f3f3f3f3f3f3f3fu64) >> 6u64) | ((bb & 0xfcfcfcfcfcfcfcfcu64) >> 10u64)
}

proof fn lemma_knight_terms(sq: u64, t: u64)
    by (bit_vector)
    requires
        sq < 64,
        t < 64,
    ensures
        ((((1u64 << sq) & 0xfefefefefefefefeu64) << 15u64) >> t) & 1u64 == 1u64 <==> (sq % 8 != 0
            && t == sq + 15),
        ((((1u64 << sq) & 0x7f7f7f7f7f7f7f7fu64) << 17u64) >> t) & 1u64 == 1u64 <==> (sq % 8 != 7
            && t == sq + 17),
        ((((1u64 << sq) & 0xfcfcfcfcfcfcfcfcu64) << 6u64) >> t) & 1u64 == 1u64 <==> (sq % 8 >= 2
            && t == sq + 6),
        ((((1u64 << sq) & 0x3f3f3f3f3f3f3f3fu64) << 10u64) >> t) & 1u64 == 1u64 <==> (sq % 8 <= 5
            && t == sq + 10),
        ((((1u64 << sq) & 0x7f7f7f7f7f7f7f7fu64) >> 15u64) >> t) & 1u64 == 1u64 <==> (sq % 8 != 7
            && t + 15 == sq),
        ((((1u64 << sq) & 0xfefefefefefefefeu64) >> 17u64) >> t) & 1u64 == 1u64 <==> (sq % 8 != 0
            && t + 17 == sq),
        ((((1u64 << sq) & 0x3f3f3f3f3f3f3f3fu64) >> 6u64) >> t) & 1u64 == 1u64 <==> (sq % 8 <= 5
            && t + 6 == sq),
        ((((1u64 << sq) & 0xfcfcfcfcfcfcfcfcu64) >> 10u64) >> t) & 1u64 == 1u64 <==> (sq % 8 >= 2
            && t + 10 == sq),
{
}

/// The squares of `knight_attacks(sq)` are those a knight on `sq` jumps to.
pub proof fn lemma_knight_attacks(sq: int)
    requires
        0 <= sq < 64,
    ensures
        forall|t: int| #[trigger] sq_in(knight_attacks(sq), t) <==> 0 <= t < 64 && knight_jump(sq, t),
{
    broadcast use group_bits;

    assert forall|t: int| #[trigger] sq_in(knight_attacks(sq), t) <==> 0 <= t < 64 && knight_jump(
        sq,
        t,
    ) by {
        if 0 <= t < 64 {
            lemma_knight_terms(sq as u64, t as u64);
        }
    }
}

/// A pawn of the side moving up the board (`up`) or down it, standing on
/// `a`, attacks `b`.
pub open spec fn pawn_capture(up: bool, a: int, b: int) -> bool {
    abs(file_diff(a, b)) == 1 && rank_diff(a, b) == if up {
        1int
    } else {
        -1int
    }
}

/// The king-move bitboard for a king on `sq`: the bitboard arithmetic of the move table.
pub open spec fn king_attacks(sq: int) -> Bitboard {
    let bb = 1u64 << (sq as u64);
    (bb << 8u64) | (bb >> 8u64) | ((bb & 0x7f7f7f7f7f7f7f7fu64) << 1u64) | ((bb
        & 0xfefefefefefefefeu64) >> 1u64) | ((bb & (0x7f7f7f7f7f7f7f7fu64 & 0x00ffffffffffffffu64))
        << 9u64) | ((bb & (0xfefefefefefefefeu64 & 0x00ffffffffffffffu64)) << 7u64) | ((bb & (
    0x7f7f7f7f7f7f7f7fu64 & 0xffffffffffffff00u64)) >> 7u64) | ((bb & (0xfefefefefefefefeu64
        & 0xffffffffffffff00u64)) >> 9u64)
}

/// The attack bitboard of a pawn on `sq` of the side moving up the board
/// (`up`) or down it.
pub open spec fn pawn_attacks(up: bool, sq: int) -> Bitboard {
    let bb = 1u64 << (sq as u64);
    let file = sq % 8;
    let rank = sq / 8;
    if up {
        if rank != 7 {
            (if file != 0 {
                bb << 7u64
            } else {
                0u64
            }) | (if file != 7 {
                bb << 9u64
            } else {
                0u64
            })
        } else {
            0u64
        }
    } else {
        if rank != 0 {
            (if file != 0 {
                bb >> 9u64
            } else {
                0u64
            }) | (if file != 7 {
                bb >> 7u64
            } else {
                0u64
            })
        } else {
            0u64
        }
    }
}

proof fn lemma_king_terms(sq: u64, t: u64)
    by (bit_vector)
    requires
        sq < 64,
        t < 64,
    ensures
        (((1u64 << sq) << 8u64) >> t) & 1u64 == 1u64 <==> t == sq + 8,
        (((1u64 << sq) >> 8u64) >> t) & 1u64 == 1u64 <==> t + 8 == sq,
        ((((1u64 << sq) & 0x7f7f7f7f7f7f7f7fu64) << 1u64) >> t) & 1u64 == 1u64 <==> (sq % 8 != 7
            && t == sq + 1),
        ((((1u64 << sq) & 0xfefefefefefefefeu64) >> 1u64) >> t) & 1u64 == 1u64 <==> (sq % 8 != 0
            && t + 1 == sq),
        ((((1u64 << sq) & (0x7f7f7f7f7f7f7f7fu64 & 0x00ffffffffffffffu64)) << 9u64) >> t) & 1u64
            == 1u64 <==> (sq % 8 != 7 && t == sq + 9),
        ((((1u64 << sq) & (0xfefefefefefefefeu64 & 0x00ffffffffffffffu64)) << 7u64) >> t) & 1u64
            == 1u64 <==> (sq % 8 != 0 && sq < 56 && t == sq + 7),
        ((((1u64 << sq) & (0x7f7f7f7f7f7f7f7fu64 & 0xffffffffffffff00u64)) >> 7u64) >> t) & 1u64
            == 1u64 <==> (sq % 8 != 7 && sq >= 8 && t + 7 == sq),
        ((((1u64 << sq) & (0xfefefefefefefefeu64 & 0xffffffffffffff00u64)) >> 9u64) >> t) & 1u64
            == 1u64 <==> (sq % 8 != 0 && t + 9 == sq),
        (((1u64 << sq) << 7u64) >> t) & 1u64 == 1u64 <==> t == sq + 7,
        (((1u64 << sq) << 9u64) >> t) & 1u64 == 1u64 <==> t == sq + 9,
        (((1u64 << sq) >> 7u64) >> t) & 1u64 == 1u64 <==> t + 7 == sq,
        (((1u64 << sq) >> 9u64) >> t) & 1u64 == 1u64 <==> t + 9 == sq,
{
}

/// The squares of `king_attacks(sq)` are those next to `sq`.
pub proof fn lemma_king_attacks(sq: int)
    requires
        0 <= sq < 64,
    ensures
        forall|t: int| #[trigger] sq_in(king_attacks(sq), t) <==> 0 <= t < 64 && king_step(sq, t),
{
    broadcast use group_bits;

    assert forall|t: int| #[trigger] sq_in(king_attacks(sq), t) <==> 0 <= t < 64 && king_step(
        sq,
        t,
    ) by {
        if 0 <= t < 64 {
            lemma_king_terms(sq as u64, t as u64);
        }
    }
}

/// The squares of `pawn_attacks(up, sq)` are the two diagonal squares ahead of `sq`.
pub proof fn lemma_pawn_attacks(up: bool, sq: int)
    requires
        0 <= sq < 64,
    ensures
        forall|t: int| #[trigger] sq_in(pawn_attacks(up, sq), t) <==> 0 <= t < 64 && pawn_capture(
            up,
            sq,
            t,
        ),
{
    broadcast use group_bits;

    assert forall|t: int| #[trigger] sq_in(pawn_attacks(up, sq), t) <==> 0 <= t < 64
        && pawn_capture(up, sq, t) by {
        if 0 <= t < 64 {
            lemma_king_terms(sq as u64, t as u64);
        }
    }
}

/// Squares a knight on `sq` attacks.
pub fn knight_moves_at(sq: usize) -> (r: Bitboard)
    requires
        sq < 64,
    ensures
        r == knight_attacks(sq as int),
        forall|t: int| #[trigger] sq_in(r, t) <==> 0 <= t < 64 && knight_jump(sq as int, t),
{
    proof {
        lemma_knight_attacks(sq as int);
    }
    let bb: Bitboard = 1u64 << (sq as u64);
    let mut out: Bitboard = 0;
    out = out | ((bb & 0xfefefefefefefefe) << 15u64);
    out = out | ((bb & 0x7f7f7f7f7f7f7f7f) << 17u64);
    out = out | ((bb & 0xfcfcfcfcfcfcfcfc) << 6u64);
    out = out | ((bb & 0x3f3f3f3f3f3f3f3f) << 10u64);
    out = out | ((bb & 0x7f7f7f7f7f7f7f7f) >> 15u64);
    out = out | ((bb & 0xfefefefefefefefe) >> 17u64);
    out = out | ((bb & 0x3f3f3f3f3f3f3f3f) >> 6u64);
    out = out | ((bb & 0xfcfcfcfcfcfcfcfc) >> 10u64);
    proof {
        let x = bb;
        assert(0u64 | ((x & 0xfefefefefefefefeu64) << 15u64) == ((x & 0xfefefefefefefefeu64)
            << 15u64)) by (bit_vector);
    }
    out
}

/// Squares a king on `sq` attacks.
pub fn king_moves_at(sq: usize) -> (r: Bitboard)
    requires
        sq < 64,
    ensures
        r == king_attacks(sq as int),
        forall|t: int| #[trigger] sq_in(r, t) <==> 0 <= t < 64 && king_step(sq as int, t),
{
    proof {
        lemma_king_attacks(sq as int);
    }
    let bb: Bitboard = 1u64 << (sq as u64);
    let mut out: Bitboard = 0;
    out = out | (bb << 8u64);
    out = out | (bb >> 8u64);
    out = out | ((bb & 0x7f7f7f7f7f7f7f7f) << 1u64);
    out = out | ((bb & 0xfefefefefefefefe) >> 1u64);
    out = out | ((bb & (0x7f7f7f7f7f7f7f7f & 0x00ffffffffffffff)) << 9u64);
    out = out | ((bb & (0xfefefefefefefefe & 0x00ffffffffffffff)) << 7u64);
    out = out | ((bb & (0x7f7f7f7f7f7f7f7f & 0xffffffffffffff00)) >> 7u64);
    out = out | ((bb & (0xfefefefefefefefe & 0xffffffffffffff00)) >> 9u64);
    proof {
        let x = bb;
        assert(0u64 | (x << 8u64) == x << 8u64) by (bit_vector);
    }
    out
}

/// Squares a pawn on `sq` attacks; `up` for the side moving up the board.
pub fn pawn_attacks_at(up: bool, sq: usize) -> (r: Bitboard)
    requires
        sq < 64,
    ensures
        r == pawn_attacks(up, sq as int),
        forall|t: int| #[trigger] sq_in(r, t) <==> 0 <= t < 64 && pawn_capture(up, sq as int, t),
{
    proof {
        lemma_pawn_attacks(up, sq as int);
    }
    let sq_bb: Bitboard = 1u64 << (sq as u64);
    let file = sq % 8;
    let rank = sq / 8;
    if up {
        if rank != 7 {
            (if file != 0 {
                sq_bb << 7u64
            } else {
                0
            }) | (if file != 7 {
                sq_bb << 9u64
            } else {
                0
            })
        } else {
            0
        }
    } else {
        if rank != 0 {
            (if file != 0 {
                sq_bb >> 9u64
            } else {
                0
            }) | (if file != 7 {
                sq_bb >> 7u64
            } else {
                0
            })
        } else {
            0
        }
    }
}

/// Knight-move table: entry `sq` holds the squares a knight on `sq` attacks.
pub fn compute_knight_moves() -> (out: [Bitboard; 64])
    ensures
        forall|sq: int| 0 <= sq < 64 ==> #[trigger] out[sq] == knight_attacks(sq),
{
    let mut out: [Bitboard; 64] = [0; 64];
    let mut sq: usize = 0;
    while sq < 64
        invariant
            sq <= 64,
            forall|i: int| 0 <= i < sq ==> #[trigger] out[i] == knight_attacks(i),
        decreases 64 - sq,
    {
        out[sq] = knight_moves_at(sq);
        sq += 1;
    }
    out
}

/// King-move table: entry `sq` holds the squares a king on `sq` attacks.
pub fn compute_king_moves() -> (out: [Bitboard; 64])
    ensures
        forall|sq: int| 0 <= sq < 64 ==> #[trigger] out[sq] == king_attacks(sq),
{
    let mut out: [Bitboard; 64] = [0; 64];
    let mut sq: usize = 0;
    while sq < 64
        invariant
            sq <= 64,
            forall|i: int| 0 <= i < sq ==> #[trigger] out[i] == king_attacks(i),
        decreases 64 - sq,
    {
        out[sq] = king_moves_at(sq);
        sq += 1;
    }
    out
}

/// Pawn-attack tables, white's (moving up the board) first, then black's.
pub fn compute_pawn_attacks() -> (out: [[Bitboard; 64]; 2])
    ensures
        forall|sq: int| 0 <= sq < 64 ==> #[trigger] out[0][sq] == pawn_attacks(true, sq),
        forall|sq: int| 0 <= sq < 64 ==> #[trigger] out[1][sq] == pawn_attacks(false, sq),
{
    let mut white: [Bitboard; 64] = [0; 64];
    let mut black: [Bitboard; 64] = [0; 64];
    let mut sq: usize = 0;
    while sq < 64
        invariant
            sq <= 64,
            forall|i: int| 0 <= i < sq ==> #[trigger] white[i] == pawn_attacks(true, i),
            forall|i: int| 0 <= i < sq ==> #[trigger] black[i] == pawn_attacks(false, i),
        decreases 64 - sq,
    {
        white[sq] = pawn_attacks_at(true, sq);
        black[sq] = pawn_attacks_at(false, sq);
        sq += 1;
    }
    [white, black]
}

} // verus!
