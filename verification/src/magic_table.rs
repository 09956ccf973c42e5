//! Rays of the sliding pieces, the relevance masks of magic bitboards, the
//! pseudo-random numbers that search for magic multipliers, and the magic
//! lookup tables themselves.
use vstd::prelude::*;
use crate::bits::{sq_in, sq_bb, group_bits};

verus! {

pub type Bitboard = u64;

pub open spec fn file_of(sq: int) -> int {
    sq % 8
}

pub open spec fn rank_of(sq: int) -> int {
    sq / 8
}

/// `(file, rank)` is on the board.
pub open spec fn on_board(file: int, rank: int) -> bool {
    0 <= file < 8 && 0 <= rank < 8
}

/// The bitboard of rank `r`.
pub open spec fn row_mask_spec(r: int) -> Bitboard {
    (0xffu64 << ((8 * r) as u64)) as u64
}

/// The bitboard of file `c`.
pub open spec fn col_mask_spec(c: int) -> Bitboard {
    (0x0101010101010101u64 << (c as u64)) as u64
}

/// Squares a slider on `c` reaches moving by `(df, dr)` per step, up to and
/// including the first occupied square, looking at most `n` steps ahead.
pub open spec fn ray(occ: Bitboard, c: int, df: int, dr: int, n: nat) -> Bitboard
    decreases n,
{
    let f = file_of(c) + df;
    let r = rank_of(c) + dr;
    if n == 0 || !on_board(f, r) {
        0
    } else {
        let next = 8 * r + f;
        sq_bb(next) | if sq_in(occ, next) {
            0u64
        } else {
            ray(occ, next, df, dr, (n - 1) as nat)
        }
    }
}

/// Squares strictly between `c` and the edge of the board in direction
/// `(df, dr)`, the edge square itself left out, looking at most `n` steps ahead.
pub open spec fn inner_ray(c: int, df: int, dr: int, n: nat) -> Bitboard
    decreases n,
{
    let f = file_of(c) + df;
    let r = rank_of(c) + dr;
    if n == 0 || !on_board(f, r) || !on_board(f + df, r + dr) {
        0
    } else {
        sq_bb(8 * r + f) | inner_ray(8 * r + f, df, dr, (n - 1) as nat)
    }
}

/// Squares a rook on `sq` attacks when `occ` is occupied.
pub open spec fn rook_attack(occ: Bitboard, sq: int) -> Bitboard {
    ray(occ, sq, 0, 1, 7) | ray(occ, sq, 0, -1, 7) | ray(occ, sq, 1, 0, 7) | ray(occ, sq, -1, 0, 7)
}

/// Squares a bishop on `sq` attacks when `occ` is occupied.
pub open spec fn bishop_attack(occ: Bitboard, sq: int) -> Bitboard {
    ray(occ, sq, 1, 1, 7) | ray(occ, sq, -1, 1, 7) | ray(occ, sq, -1, -1, 7) | ray(occ, sq, 1, -1, 7)
}

/// Squares whose occupancy can change what a rook on `sq` attacks.
pub open spec fn rook_mask(sq: int) -> Bitboard {
    inner_ray(sq, 0, 1, 7) | inner_ray(sq, 0, -1, 7) | inner_ray(sq, 1, 0, 7) | inner_ray(sq, -1, 0, 7)
}

/// Squares whose occupancy can change what a bishop on `sq` attacks.
pub open spec fn bishop_mask(sq: int) -> Bitboard {
    inner_ray(sq, 1, 1, 7) | inner_ray(sq, -1, 1, 7) | inner_ray(sq, -1, -1, 7) | inner_ray(sq, 1, -1, 7)
}

pub proof fn lemma_shift_single(c: u64, k: u64)
    by (bit_vector)
    requires
        c < 64,
        k < 64,
    ensures
        c + k < 64 ==> (1u64 << c) << k == 1u64 << ((c + k) as u64),
        c + k >= 64 ==> (1u64 << c) << k == 0,
        c + k < 64 ==> (1u64 << c) << k != 0,
        c >= k ==> (1u64 << c) >> k != 0,
        c >= k ==> (1u64 << c) >> k == 1u64 << ((c - k) as u64),
        c < k ==> (1u64 << c) >> k == 0,
        1u64 << c != 0,
        c == 0 ==> 1u64 << c == 1u64,
        c > 0 ==> (1u64 << c) & 1u64 == 0u64,
{
}

/// Right shifts, the low bit, and `|` taken one bit at a time.
pub proof fn lemma_shift_right(x: u64, y: u64, s: u64)
    by (bit_vector)
    ensures
        x != 0 ==> x >> 1u64 < x,
        x >> 0u64 == x,
        s < 64 ==> (x >> s) >> 1u64 == x >> ((s + 1) as u64),
        (x >> 63u64) >> 1u64 == 0u64,
        x & 1u64 <= 1u64,
        s < 64 ==> x >> s <= 0xffff_ffff_ffff_ffffu64 >> s,
        s < 64 ==> (0xffff_ffff_ffff_ffffu64 >> s) & 1u64 == 1u64,
        x != 0 && x & 1u64 == 0 ==> x >> 1u64 != 0,
        1u64 & 1u64 == 1u64 && 1u64 >> 1u64 == 0u64,
        (x | y) & 1u64 <= (x & 1u64) + (y & 1u64),
        (x | y) >> 1u64 == (x >> 1u64) | (y >> 1u64),
        x != 0 ==> x | y != 0,
{
}

proof fn lemma_single_hits(c: u64, occ: u64)
    by (bit_vector)
    requires
        c < 64,
    ensures
        ((1u64 << c) & occ != 0) == ((occ >> c) & 1u64 == 1u64),
{
}

proof fn lemma_or_facts(a: u64, b: u64, c: u64)
    by (bit_vector)
    ensures
        (a | b) | c == a | (b | c),
        a | 0u64 == a,
        0u64 | a == a,
        (a | b) & c == (a | b) ==> a & c == a && b & c == b,
{
}

/// Upward ray of a rook.
fn ray_up(occ: Bitboard, sq: usize) -> (out: Bitboard)
    requires
        sq < 64,
    ensures
        out == ray(occ, sq as int, 0, 1, 7),
{
    let ghost target = ray(occ, sq as int, 0, 1, 7);
    let mut out: Bitboard = 0;
    let mut bb: Bitboard = 1u64 << (sq as u64);
    let ghost mut c: int = sq as int;
    let ghost mut n: nat = 7;
    proof {
        lemma_or_facts(target, 0, 0);
    }
    loop
        invariant_except_break
            0 <= c < 64,
            file_of(c) == file_of(sq as int),
            n + rank_of(c) >= 7,
            n <= 7,
            bb == sq_bb(c),
            out | ray(occ, c, 0, 1, n) == target,
        ensures
            out == target,
        decreases n,
    {
        proof {
            lemma_shift_single(c as u64, 8);
            assert(rank_of(c + 8) == rank_of(c) + 1 && file_of(c + 8) == file_of(c));
            if c + 8 < 64 {
                assert(n > 0);
                assert(8 * (rank_of(c) + 1) + file_of(c) == c + 8);
                lemma_single_hits((c + 8) as u64, occ);
                lemma_or_facts(out, sq_bb(c + 8), ray(occ, c + 8, 0, 1, (n - 1) as nat));
                lemma_or_facts(out, sq_bb(c + 8), 0);
                lemma_or_facts(sq_bb(c + 8), 0, 0);
                assert(ray(occ, c, 0, 1, n) == sq_bb(c + 8) | if sq_in(occ, c + 8) {
                    0u64
                } else {
                    ray(occ, c + 8, 0, 1, (n - 1) as nat)
                });
            } else {
                lemma_or_facts(out, 0, 0);
            }
        }
        bb = bb << 8u64;
        out = out | bb;
        if bb == 0 {
            assert(out == target);
            break;
        }
        if bb & occ != 0 {
            assert(sq_in(occ, c + 8));
            assert(bb == sq_bb(c + 8));
            assert(out == target);
            break;
        }
        proof {
            c = c + 8;
            n = (n - 1) as nat;
        }
    }
    out
}

proof fn lemma_edges(x: u64)
    by (bit_vector)
    requires
        x < 64,
    ensures
        ((1u64 << x) & 0xff00000000000000u64 != 0) == (x / 8 == 7),
        ((1u64 << x) & 0xffu64 != 0) == (x / 8 == 0),
        ((1u64 << x) & 0x8080808080808080u64 != 0) == (x % 8 == 7),
        ((1u64 << x) & 0x0101010101010101u64 != 0) == (x % 8 == 0),
        ((1u64 << x) & (0xff00000000000000u64 | 0x8080808080808080u64) == 0) == (x / 8 != 7 && x
            % 8 != 7),
        ((1u64 << x) & (0xff00000000000000u64 | 0x0101010101010101u64) == 0) == (x / 8 != 7 && x
            % 8 != 0),
        ((1u64 << x) & (0xffu64 | 0x0101010101010101u64) == 0) == (x / 8 != 0 && x % 8 != 0),
        ((1u64 << x) & (0xffu64 | 0x8080808080808080u64) == 0) == (x / 8 != 0 && x % 8 != 7),
{
}

proof fn lemma_row_hit(x: u64, r: u64)
    by (bit_vector)
    requires
        x < 64,
        r < 8,
    ensures
        ((1u64 << x) & (0xffu64 << (8 * r))) != 0 <==> x / 8 == r,
        (0u64 & (0xffu64 << (8 * r))) == 0,
{
}

proof fn lemma_mask_values()
    by (bit_vector)
    ensures
        0xffu64 << 56u64 == 0xff00000000000000u64,
        0xffu64 << 0u64 == 0xffu64,
        0x0101010101010101u64 << 7u64 == 0x8080808080808080u64,
        0x0101010101010101u64 << 0u64 == 0x0101010101010101u64,
{
}

/// The bitboard of rank `r`.
pub fn row_mask(r: usize) -> (m: Bitboard)
    requires
        r < 8,
    ensures
        m == row_mask_spec(r as int),
        r == 7 ==> m == 0xff00000000000000u64,
        r == 0 ==> m == 0xffu64,
{
    proof {
        lemma_mask_values();
    }
    0xffu64 << ((8 * r) as u64)
}

/// The bitboard of file `c`.
pub fn col_mask(c: usize) -> (m: Bitboard)
    requires
        c < 8,
    ensures
        m == col_mask_spec(c as int),
        c == 7 ==> m == 0x8080808080808080u64,
        c == 0 ==> m == 0x0101010101010101u64,
{
    proof {
        lemma_mask_values();
    }
    0x0101010101010101u64 << (c as u64)
}

/// Downward ray of a rook.
fn ray_down(occ: Bitboard, sq: usize) -> (out: Bitboard)
    requires
        sq < 64,
    ensures
        out == ray(occ, sq as int, 0, -1, 7),
{
    let ghost target = ray(occ, sq as int, 0, -1, 7);
    let mut out: Bitboard = 0;
    let mut bb: Bitboard = 1u64 << (sq as u64);
    let ghost mut c: int = sq as int;
    let ghost mut n: nat = 7;
    proof {
        lemma_or_facts(target, 0, 0);
    }
    loop
        invariant_except_break
            0 <= c < 64,
            file_of(c) == file_of(sq as int),
            n >= rank_of(c),
            n <= 7,
            bb == sq_bb(c),
            out | ray(occ, c, 0, -1, n) == target,
        ensures
            out == target,
        decreases n,
    {
        proof {
            lemma_shift_single(c as u64, 8);
            assert(rank_of(c - 8) == rank_of(c) - 1 && file_of(c - 8) == file_of(c));
            if c >= 8 {
                assert(n > 0);
                assert(8 * (rank_of(c) - 1) + file_of(c) == c - 8);
                lemma_single_hits((c - 8) as u64, occ);
                lemma_or_facts(out, sq_bb(c - 8), ray(occ, c - 8, 0, -1, (n - 1) as nat));
                lemma_or_facts(out, sq_bb(c - 8), 0);
                lemma_or_facts(sq_bb(c - 8), 0, 0);
            } else {
                lemma_or_facts(out, 0, 0);
            }
        }
        bb = bb >> 8u64;
        out = out | bb;
        if bb & occ != 0 || bb == 0 {
            break;
        }
        proof {
            c = c - 8;
            n = (n - 1) as nat;
        }
    }
    out
}

/// Rightward ray of a rook: toward higher files on the same rank.
fn ray_right(occ: Bitboard, sq: usize) -> (out: Bitboard)
    requires
        sq < 64,
    ensures
        out == ray(occ, sq as int, 1, 0, 7),
{
    let ghost target = ray(occ, sq as int, 1, 0, 7);
    let row = row_mask(sq / 8);
    let mut out: Bitboard = 0;
    proof {
        lemma_shift_single(sq as u64, 1);
        lemma_or_facts(target, 0, 0);
    }
    let mut bb: Bitboard = (1u64 << (sq as u64)) << 1u64;
    let ghost mut c: int = sq as int;
    let ghost mut n: nat = 7;
    loop
        invariant_except_break
            0 <= c < 64,
            rank_of(c) == rank_of(sq as int),
            n + file_of(c) >= 7,
            n <= 7,
            c + 1 < 64 ==> bb == sq_bb(c + 1),
            c + 1 >= 64 ==> bb == 0,
            row == row_mask_spec(rank_of(sq as int)),
            out | ray(occ, c, 1, 0, n) == target,
        ensures
            out == target,
        decreases n,
    {
        proof {
            if c + 1 < 64 {
                lemma_row_hit((c + 1) as u64, (sq / 8) as u64);
            } else {
                lemma_row_hit(0, (sq / 8) as u64);
            }
        }
        if bb & row == 0 {
            proof {
                assert(!on_board(file_of(c) + 1, rank_of(c)));
                lemma_or_facts(out, 0, 0);
            }
            break;
        }
        proof {
            assert(c + 1 < 64 && rank_of(c + 1) == rank_of(c));
            assert(file_of(c + 1) == file_of(c) + 1);
            assert(n > 0);
            lemma_single_hits((c + 1) as u64, occ);
            lemma_or_facts(out, sq_bb(c + 1), ray(occ, c + 1, 1, 0, (n - 1) as nat));
            lemma_or_facts(out, sq_bb(c + 1), 0);
            lemma_or_facts(sq_bb(c + 1), 0, 0);
            lemma_shift_single((c + 1) as u64, 1);
        }
        out = out | bb;
        if bb & occ != 0 {
            break;
        }
        bb = bb << 1u64;
        proof {
            c = c + 1;
            n = (n - 1) as nat;
        }
    }
    out
}

/// Leftward ray of a rook: toward lower files on the same rank.
fn ray_left(occ: Bitboard, sq: usize) -> (out: Bitboard)
    requires
        sq < 64,
    ensures
        out == ray(occ, sq as int, -1, 0, 7),
{
    let ghost target = ray(occ, sq as int, -1, 0, 7);
    let row = row_mask(sq / 8);
    let mut out: Bitboard = 0;
    proof {
        lemma_shift_single(sq as u64, 1);
        lemma_or_facts(target, 0, 0);
    }
    let mut bb: Bitboard = (1u64 << (sq as u64)) >> 1u64;
    let ghost mut c: int = sq as int;
    let ghost mut n: nat = 7;
    loop
        invariant_except_break
            0 <= c < 64,
            rank_of(c) == rank_of(sq as int),
            n >= file_of(c),
            n <= 7,
            c >= 1 ==> bb == sq_bb(c - 1),
            c < 1 ==> bb == 0,
            row == row_mask_spec(rank_of(sq as int)),
            out | ray(occ, c, -1, 0, n) == target,
        ensures
            out == target,
        decreases n,
    {
        proof {
            if c >= 1 {
                lemma_row_hit((c - 1) as u64, (sq / 8) as u64);
            } else {
                lemma_row_hit(0, (sq / 8) as u64);
            }
        }
        if bb & row == 0 {
            proof {
                assert(!on_board(file_of(c) - 1, rank_of(c)));
                lemma_or_facts(out, 0, 0);
            }
            break;
        }
        proof {
            assert(c >= 1 && rank_of(c - 1) == rank_of(c));
            assert(file_of(c - 1) == file_of(c) - 1);
            assert(n > 0);
            lemma_single_hits((c - 1) as u64, occ);
            lemma_or_facts(out, sq_bb(c - 1), ray(occ, c - 1, -1, 0, (n - 1) as nat));
            lemma_or_facts(out, sq_bb(c - 1), 0);
            lemma_or_facts(sq_bb(c - 1), 0, 0);
            lemma_shift_single((c - 1) as u64, 1);
        }
        out = out | bb;
        if bb & occ != 0 {
            break;
        }
        bb = bb >> 1u64;
        proof {
            c = c - 1;
            n = (n - 1) as nat;
        }
    }
    out
}

/// Ray toward the higher rank and the higher file.
fn ray_north_east(occ: Bitboard, sq: usize) -> (out: Bitboard)
    requires
        sq < 64,
    ensures
        out == ray(occ, sq as int, 1, 1, 7),
{
    let ghost target = ray(occ, sq as int, 1, 1, 7);
    let edge = row_mask(7) | col_mask(7);
    let mut out: Bitboard = 0;
    let mut bb: Bitboard = 1u64 << (sq as u64);
    let ghost mut c: int = sq as int;
    let ghost mut n: nat = 7;
    proof {
        lemma_or_facts(target, 0, 0);
    }
    loop
        invariant_except_break
            0 <= c < 64,
            n + rank_of(c) >= 7,
            n <= 7,
            bb == sq_bb(c),
            edge == (0xff00000000000000u64 | 0x8080808080808080u64),
            out | ray(occ, c, 1, 1, n) == target,
        ensures
            out == target,
        decreases n,
    {
        proof {
            lemma_edges(c as u64);
        }
        if bb & edge != 0 {
            proof {
                lemma_or_facts(out, 0, 0);
            }
            break;
        }
        proof {
            let nx = c + (9);
            assert(rank_of(nx) == rank_of(c) + (1) && file_of(nx) == file_of(c) + (1));
            assert(n > 0);
            lemma_shift_single(c as u64, 9);
            lemma_single_hits(nx as u64, occ);
            lemma_or_facts(out, sq_bb(nx), ray(occ, nx, 1, 1, (n - 1) as nat));
            lemma_or_facts(out, sq_bb(nx), 0);
            lemma_or_facts(sq_bb(nx), 0, 0);
        }
        bb = bb << 9u64;
        out = out | bb;
        if bb & occ != 0 || bb == 0 {
            break;
        }
        proof {
            c = c + (9);
            n = (n - 1) as nat;
        }
    }
    out
}

/// Ray toward the higher rank and the lower file.
fn ray_north_west(occ: Bitboard, sq: usize) -> (out: Bitboard)
    requires
        sq < 64,
    ensures
        out == ray(occ, sq as int, -1, 1, 7),
{
    let ghost target = ray(occ, sq as int, -1, 1, 7);
    let edge = row_mask(7) | col_mask(0);
    let mut out: Bitboard = 0;
    let mut bb: Bitboard = 1u64 << (sq as u64);
    let ghost mut c: int = sq as int;
    let ghost mut n: nat = 7;
    proof {
        lemma_or_facts(target, 0, 0);
    }
    loop
        invariant_except_break
            0 <= c < 64,
            n + rank_of(c) >= 7,
            n <= 7,
            bb == sq_bb(c),
            edge == (0xff00000000000000u64 | 0x0101010101010101u64),
            out | ray(occ, c, -1, 1, n) == target,
        ensures
            out == target,
        decreases n,
    {
        proof {
            lemma_edges(c as u64);
        }
        if bb & edge != 0 {
            proof {
                lemma_or_facts(out, 0, 0);
            }
            break;
        }
        proof {
            let nx = c + (7);
            assert(rank_of(nx) == rank_of(c) + (1) && file_of(nx) == file_of(c) + (-1));
            assert(n > 0);
            lemma_shift_single(c as u64, 7);
            lemma_single_hits(nx as u64, occ);
            lemma_or_facts(out, sq_bb(nx), ray(occ, nx, -1, 1, (n - 1) as nat));
            lemma_or_facts(out, sq_bb(nx), 0);
            lemma_or_facts(sq_bb(nx), 0, 0);
        }
        bb = bb << 7u64;
        out = out | bb;
        if bb & occ != 0 || bb == 0 {
            break;
        }
        proof {
            c = c + (7);
            n = (n - 1) as nat;
        }
    }
    out
}

/// Ray toward the lower rank and the lower file.
fn ray_south_west(occ: Bitboard, sq: usize) -> (out: Bitboard)
    requires
        sq < 64,
    ensures
        out == ray(occ, sq as int, -1, -1, 7),
{
    let ghost target = ray(occ, sq as int, -1, -1, 7);
    let edge = row_mask(0) | col_mask(0);
    let mut out: Bitboard = 0;
    let mut bb: Bitboard = 1u64 << (sq as u64);
    let ghost mut c: int = sq as int;
    let ghost mut n: nat = 7;
    proof {
        lemma_or_facts(target, 0, 0);
    }
    loop
        invariant_except_break
            0 <= c < 64,
            n >= rank_of(c),
            n <= 7,
            bb == sq_bb(c),
            edge == (0xffu64 | 0x0101010101010101u64),
            out | ray(occ, c, -1, -1, n) == target,
        ensures
            out == target,
        decreases n,
    {
        proof {
            lemma_edges(c as u64);
        }
        if bb & edge != 0 {
            proof {
                lemma_or_facts(out, 0, 0);
            }
            break;
        }
        proof {
            let nx = c + (-9);
            assert(rank_of(nx) == rank_of(c) + (-1) && file_of(nx) == file_of(c) + (-1));
            assert(n > 0);
            lemma_shift_single(c as u64, 9);
            lemma_single_hits(nx as u64, occ);
            lemma_or_facts(out, sq_bb(nx), ray(occ, nx, -1, -1, (n - 1) as nat));
            lemma_or_facts(out, sq_bb(nx), 0);
            lemma_or_facts(sq_bb(nx), 0, 0);
        }
        bb = bb >> 9u64;
        out = out | bb;
        if bb & occ != 0 || bb == 0 {
            break;
        }
        proof {
            c = c + (-9);
            n = (n - 1) as nat;
        }
    }
    out
}

/// Ray toward the lower rank and the higher file.
fn ray_south_east(occ: Bitboard, sq: usize) -> (out: Bitboard)
    requires
        sq < 64,
    ensures
        out == ray(occ, sq as int, 1, -1, 7),
{
    let ghost target = ray(occ, sq as int, 1, -1, 7);
    let edge = row_mask(0) | col_mask(7);
    let mut out: Bitboard = 0;
    let mut bb: Bitboard = 1u64 << (sq as u64);
    let ghost mut c: int = sq as int;
    let ghost mut n: nat = 7;
    proof {
        lemma_or_facts(target, 0, 0);
    }
    loop
        invariant_except_break
            0 <= c < 64,
            n >= rank_of(c),
            n <= 7,
            bb == sq_bb(c),
            edge == (0xffu64 | 0x8080808080808080u64),
            out | ray(occ, c, 1, -1, n) == target,
        ensures
            out == target,
        decreases n,
    {
        proof {
            lemma_edges(c as u64);
        }
        if bb & edge != 0 {
            proof {
                lemma_or_facts(out, 0, 0);
            }
            break;
        }
        proof {
            let nx = c + (-7);
            assert(rank_of(nx) == rank_of(c) + (-1) && file_of(nx) == file_of(c) + (1));
            assert(n > 0);
            lemma_shift_single(c as u64, 7);
            lemma_single_hits(nx as u64, occ);
            lemma_or_facts(out, sq_bb(nx), ray(occ, nx, 1, -1, (n - 1) as nat));
            lemma_or_facts(out, sq_bb(nx), 0);
            lemma_or_facts(sq_bb(nx), 0, 0);
        }
        bb = bb >> 7u64;
        out = out | bb;
        if bb & occ != 0 || bb == 0 {
            break;
        }
        proof {
            c = c + (-7);
            n = (n - 1) as nat;
        }
    }
    out
}

/// Relevance squares of a rook above its square.
fn mask_up(sq: usize) -> (out: Bitboard)
    requires
        sq < 64,
    ensures
        out == inner_ray(sq as int, 0, 1, 7),
{
    let ghost target = inner_ray(sq as int, 0, 1, 7);
    let edge = row_mask(7);
    let mut out: Bitboard = 0;
    let mut bb: Bitboard = 1u64 << (sq as u64);
    let ghost mut c: int = sq as int;
    let ghost mut n: nat = 7;
    proof {
        lemma_or_facts(target, 0, 0);
    }
    loop
        invariant_except_break
            0 <= c < 64,
            n + rank_of(c) >= 7,
            n <= 7,
            bb == sq_bb(c),
            edge == 0xff00000000000000u64,
            out | inner_ray(c, 0, 1, n) == target,
        ensures
            out == target,
        decreases n,
    {
        proof {
            let nx = c + (8);
            lemma_shift_single(c as u64, 8);
            assert(rank_of(nx) == rank_of(c) + (1) && file_of(nx) == file_of(c));
            if c + 8 < 64 {
                lemma_edges(nx as u64);
                assert(8 * (rank_of(c) + (1)) + file_of(c) == nx);
                lemma_or_facts(out, sq_bb(nx), inner_ray(nx, 0, 1, (n - 1) as nat));
            }
            lemma_or_facts(out, 0, 0);
        }
        bb = bb << 8u64;
        if bb & edge != 0 || bb == 0 {
            break;
        }
        out = out | bb;
        proof {
            c = c + (8);
            n = (n - 1) as nat;
        }
    }
    out
}

/// Relevance squares of a rook below its square.
fn mask_down(sq: usize) -> (out: Bitboard)
    requires
        sq < 64,
    ensures
        out == inner_ray(sq as int, 0, -1, 7),
{
    let ghost target = inner_ray(sq as int, 0, -1, 7);
    let edge = row_mask(0);
    let mut out: Bitboard = 0;
    let mut bb: Bitboard = 1u64 << (sq as u64);
    let ghost mut c: int = sq as int;
    let ghost mut n: nat = 7;
    proof {
        lemma_or_facts(target, 0, 0);
    }
    loop
        invariant_except_break
            0 <= c < 64,
            n >= rank_of(c),
            n <= 7,
            bb == sq_bb(c),
            edge == 0xffu64,
            out | inner_ray(c, 0, -1, n) == target,
        ensures
            out == target,
        decreases n,
    {
        proof {
            let nx = c + (-8);
            lemma_shift_single(c as u64, 8);
            assert(rank_of(nx) == rank_of(c) + (-1) && file_of(nx) == file_of(c));
            if c >= 8 {
                lemma_edges(nx as u64);
                assert(8 * (rank_of(c) + (-1)) + file_of(c) == nx);
                lemma_or_facts(out, sq_bb(nx), inner_ray(nx, 0, -1, (n - 1) as nat));
            }
            lemma_or_facts(out, 0, 0);
        }
        bb = bb >> 8u64;
        if bb & edge != 0 || bb == 0 {
            break;
        }
        out = out | bb;
        proof {
            c = c + (-8);
            n = (n - 1) as nat;
        }
    }
    out
}

/// Relevance squares of a rook toward the higher files.
fn mask_right(sq: usize) -> (out: Bitboard)
    requires
        sq < 64,
    ensures
        out == inner_ray(sq as int, 1, 0, 7),
{
    let ghost target = inner_ray(sq as int, 1, 0, 7);
    let row = row_mask(sq / 8);
    let edge = col_mask(7);
    let mut out: Bitboard = 0;
    proof {
        lemma_shift_single(sq as u64, 1);
        lemma_or_facts(target, 0, 0);
    }
    let mut bb: Bitboard = (1u64 << (sq as u64)) << 1u64;
    let ghost mut c: int = sq as int;
    let ghost mut n: nat = 7;
    loop
        invariant_except_break
            0 <= c < 64,
            rank_of(c) == rank_of(sq as int),
            n + file_of(c) >= 7,
            n <= 7,
            c + 1 < 64 ==> bb == sq_bb(c + 1),
            c + 1 >= 64 ==> bb == 0,
            row == row_mask_spec(rank_of(sq as int)),
            edge == 0x8080808080808080u64,
            out | inner_ray(c, 1, 0, n) == target,
        ensures
            out == target,
        decreases n,
    {
        proof {
            if c + 1 < 64 {
                lemma_row_hit((c + 1) as u64, (sq / 8) as u64);
                lemma_edges((c + 1) as u64);
            } else {
                lemma_row_hit(0, (sq / 8) as u64);
            }
            lemma_or_facts(out, 0, 0);
        }
        if bb & row == 0 {
            break;
        }
        if bb & edge != 0 {
            break;
        }
        proof {
            assert(c + 1 < 64 && rank_of(c + 1) == rank_of(c));
            assert(file_of(c + 1) == file_of(c) + (1));
            assert(n > 0);
            lemma_or_facts(out, sq_bb(c + 1), inner_ray(c + 1, 1, 0, (n - 1) as nat));
            lemma_shift_single((c + 1) as u64, 1);
        }
        out = out | bb;
        bb = bb << 1u64;
        proof {
            c = c + 1;
            n = (n - 1) as nat;
        }
    }
    out
}

/// Relevance squares of a rook toward the lower files.
fn mask_left(sq: usize) -> (out: Bitboard)
    requires
        sq < 64,
    ensures
        out == inner_ray(sq as int, -1, 0, 7),
{
    let ghost target = inner_ray(sq as int, -1, 0, 7);
    let row = row_mask(sq / 8);
    let edge = col_mask(0);
    let mut out: Bitboard = 0;
    proof {
        lemma_shift_single(sq as u64, 1);
        lemma_or_facts(target, 0, 0);
    }
    let mut bb: Bitboard = (1u64 << (sq as u64)) >> 1u64;
    let ghost mut c: int = sq as int;
    let ghost mut n: nat = 7;
    loop
        invariant_except_break
            0 <= c < 64,
            rank_of(c) == rank_of(sq as int),
            n >= file_of(c),
            n <= 7,
            c >= 1 ==> bb == sq_bb(c - 1),
            c < 1 ==> bb == 0,
            row == row_mask_spec(rank_of(sq as int)),
            edge == 0x0101010101010101u64,
            out | inner_ray(c, -1, 0, n) == target,
        ensures
            out == target,
        decreases n,
    {
        proof {
            if c >= 1 {
                lemma_row_hit((c - 1) as u64, (sq / 8) as u64);
                lemma_edges((c - 1) as u64);
            } else {
                lemma_row_hit(0, (sq / 8) as u64);
            }
            lemma_or_facts(out, 0, 0);
        }
        if bb & row == 0 {
            break;
        }
        if bb & edge != 0 {
            break;
        }
        proof {
            assert(c >= 1 && rank_of(c - 1) == rank_of(c));
            assert(file_of(c - 1) == file_of(c) + (-1));
            assert(n > 0);
            lemma_or_facts(out, sq_bb(c - 1), inner_ray(c - 1, -1, 0, (n - 1) as nat));
            lemma_shift_single((c - 1) as u64, 1);
        }
        out = out | bb;
        bb = bb >> 1u64;
        proof {
            c = c - 1;
            n = (n - 1) as nat;
        }
    }
    out
}

/// Relevance squares of a bishop toward the higher rank and file.
fn mask_north_east(sq: usize) -> (out: Bitboard)
    requires
        sq < 64,
    ensures
        out == inner_ray(sq as int, 1, 1, 7),
{
    let ghost target = inner_ray(sq as int, 1, 1, 7);
    let edge = row_mask(7) | col_mask(7);
    let mut out: Bitboard = 0;
    let mut bb: Bitboard = 1u64 << (sq as u64);
    let ghost mut c: int = sq as int;
    let ghost mut n: nat = 7;
    proof {
        lemma_or_facts(target, 0, 0);
    }
    loop
        invariant_except_break
            0 <= c < 64,
            n + rank_of(c) >= 7,
            n <= 7,
            bb == sq_bb(c),
            edge == (0xff00000000000000u64 | 0x8080808080808080u64),
            out | inner_ray(c, 1, 1, n) == target,
        ensures
            out == target,
        decreases n,
    {
        proof {
            lemma_edges(c as u64);
            lemma_or_facts(out, 0, 0);
        }
        if bb & edge != 0 {
            break;
        }
        proof {
            let nx = c + (9);
            assert(rank_of(nx) == rank_of(c) + (1) && file_of(nx) == file_of(c) + (1));
            assert(n > 0);
            lemma_shift_single(c as u64, 9);
            lemma_edges(nx as u64);
            lemma_or_facts(out, sq_bb(nx), inner_ray(nx, 1, 1, (n - 1) as nat));
        }
        bb = bb << 9u64;
        if bb & edge != 0 || bb == 0 {
            break;
        }
        out = out | bb;
        proof {
            c = c + (9);
            n = (n - 1) as nat;
        }
    }
    out
}

/// Relevance squares of a bishop toward the higher rank and lower file.
fn mask_north_west(sq: usize) -> (out: Bitboard)
    requires
        sq < 64,
    ensures
        out == inner_ray(sq as int, -1, 1, 7),
{
    let ghost target = inner_ray(sq as int, -1, 1, 7);
    let edge = row_mask(7) | col_mask(0);
    let mut out: Bitboard = 0;
    let mut bb: Bitboard = 1u64 << (sq as u64);
    let ghost mut c: int = sq as int;
    let ghost mut n: nat = 7;
    proof {
        lemma_or_facts(target, 0, 0);
    }
    loop
        invariant_except_break
            0 <= c < 64,
            n + rank_of(c) >= 7,
            n <= 7,
            bb == sq_bb(c),
            edge == (0xff00000000000000u64 | 0x0101010101010101u64),
            out | inner_ray(c, -1, 1, n) == target,
        ensures
            out == target,
        decreases n,
    {
        proof {
            lemma_edges(c as u64);
            lemma_or_facts(out, 0, 0);
        }
        if bb & edge != 0 {
            break;
        }
        proof {
            let nx = c + (7);
            assert(rank_of(nx) == rank_of(c) + (1) && file_of(nx) == file_of(c) + (-1));
            assert(n > 0);
            lemma_shift_single(c as u64, 7);
            lemma_edges(nx as u64);
            lemma_or_facts(out, sq_bb(nx), inner_ray(nx, -1, 1, (n - 1) as nat));
        }
        bb = bb << 7u64;
        if bb & edge != 0 || bb == 0 {
            break;
        }
        out = out | bb;
        proof {
            c = c + (7);
            n = (n - 1) as nat;
        }
    }
    out
}

/// Relevance squares of a bishop toward the lower rank and file.
fn mask_south_west(sq: usize) -> (out: Bitboard)
    requires
        sq < 64,
    ensures
        out == inner_ray(sq as int, -1, -1, 7),
{
    let ghost target = inner_ray(sq as int, -1, -1, 7);
    let edge = row_mask(0) | col_mask(0);
    let mut out: Bitboard = 0;
    let mut bb: Bitboard = 1u64 << (sq as u64);
    let ghost mut c: int = sq as int;
    let ghost mut n: nat = 7;
    proof {
        lemma_or_facts(target, 0, 0);
    }
    loop
        invariant_except_break
            0 <= c < 64,
            n >= rank_of(c),
            n <= 7,
            bb == sq_bb(c),
            edge == (0xffu64 | 0x0101010101010101u64),
            out | inner_ray(c, -1, -1, n) == target,
        ensures
            out == target,
        decreases n,
    {
        proof {
            lemma_edges(c as u64);
            lemma_or_facts(out, 0, 0);
        }
        if bb & edge != 0 {
            break;
        }
        proof {
            let nx = c + (-9);
            assert(rank_of(nx) == rank_of(c) + (-1) && file_of(nx) == file_of(c) + (-1));
            assert(n > 0);
            lemma_shift_single(c as u64, 9);
            lemma_edges(nx as u64);
            lemma_or_facts(out, sq_bb(nx), inner_ray(nx, -1, -1, (n - 1) as nat));
        }
        bb = bb >> 9u64;
        if bb & edge != 0 || bb == 0 {
            break;
        }
        out = out | bb;
        proof {
            c = c + (-9);
            n = (n - 1) as nat;
        }
    }
    out
}

/// Relevance squares of a bishop toward the lower rank and higher file.
fn mask_south_east(sq: usize) -> (out: Bitboard)
    requires
        sq < 64,
    ensures
        out == inner_ray(sq as int, 1, -1, 7),
{
    let ghost target = inner_ray(sq as int, 1, -1, 7);
    let edge = row_mask(0) | col_mask(7);
    let mut out: Bitboard = 0;
    let mut bb: Bitboard = 1u64 << (sq as u64);
    let ghost mut c: int = sq as int;
    let ghost mut n: nat = 7;
    proof {
        lemma_or_facts(target, 0, 0);
    }
    loop
        invariant_except_break
            0 <= c < 64,
            n >= rank_of(c),
            n <= 7,
            bb == sq_bb(c),
            edge == (0xffu64 | 0x8080808080808080u64),
            out | inner_ray(c, 1, -1, n) == target,
        ensures
            out == target,
        decreases n,
    {
        proof {
            lemma_edges(c as u64);
            lemma_or_facts(out, 0, 0);
        }
        if bb & edge != 0 {
            break;
        }
        proof {
            let nx = c + (-7);
            assert(rank_of(nx) == rank_of(c) + (-1) && file_of(nx) == file_of(c) + (1));
            assert(n > 0);
            lemma_shift_single(c as u64, 7);
            lemma_edges(nx as u64);
            lemma_or_facts(out, sq_bb(nx), inner_ray(nx, 1, -1, (n - 1) as nat));
        }
        bb = bb >> 7u64;
        if bb & edge != 0 || bb == 0 {
            break;
        }
        out = out | bb;
        proof {
            c = c + (-7);
            n = (n - 1) as nat;
        }
    }
    out
}

/// Squares a rook on `sq` attacks with `occ` occupied: each ray runs up to
/// and including the first occupied square.
pub fn rook_slider_attack(occ: Bitboard, sq: usize) -> (out: Bitboard)
    requires
        sq < 64,
    ensures
        out == rook_attack(occ, sq as int),
{
    let up = ray_up(occ, sq);
    let down = ray_down(occ, sq);
    let right = ray_right(occ, sq);
    let left = ray_left(occ, sq);
    up | down | right | left
}

/// Squares a bishop on `sq` attacks with `occ` occupied.
pub fn generate_bishop_sliding(occ: Bitboard, sq: usize) -> (out: Bitboard)
    requires
        sq < 64,
    ensures
        out == bishop_attack(occ, sq as int),
{
    let north_east = ray_north_east(occ, sq);
    let north_west = ray_north_west(occ, sq);
    let south_west = ray_south_west(occ, sq);
    let south_east = ray_south_east(occ, sq);
    north_east | north_west | south_west | south_east
}

/// Relevance mask of a rook on `sq`.
pub fn rook_mask_at(sq: usize) -> (out: Bitboard)
    requires
        sq < 64,
    ensures
        out == rook_mask(sq as int),
{
    let up = mask_up(sq);
    let down = mask_down(sq);
    let right = mask_right(sq);
    let left = mask_left(sq);
    up | down | right | left
}

/// Relevance mask of a bishop on `sq`.
pub fn bishop_mask_at(sq: usize) -> (out: Bitboard)
    requires
        sq < 64,
    ensures
        out == bishop_mask(sq as int),
{
    let north_east = mask_north_east(sq);
    let north_west = mask_north_west(sq);
    let south_west = mask_south_west(sq);
    let south_east = mask_south_east(sq);
    north_east | north_west | south_west | south_east
}

/// The eight rank bitboards, rank 1 first.
pub fn row_masks() -> (out: [Bitboard; 8])
    ensures
        forall|r: int| 0 <= r < 8 ==> #[trigger] out[r] == row_mask_spec(r),
{
    let mut out: [Bitboard; 8] = [0; 8];
    let mut row: usize = 0;
    while row < 8
        invariant
            row <= 8,
            forall|r: int| 0 <= r < row ==> #[trigger] out[r] == row_mask_spec(r),
        decreases 8 - row,
    {
        out[row] = row_mask(row);
        row += 1;
    }
    out
}

/// The eight file bitboards, file a first.
pub fn col_masks() -> (out: [Bitboard; 8])
    ensures
        forall|c: int| 0 <= c < 8 ==> #[trigger] out[c] == col_mask_spec(c),
{
    let mut out: [Bitboard; 8] = [0; 8];
    let mut col: usize = 0;
    while col < 8
        invariant
            col <= 8,
            forall|c: int| 0 <= c < col ==> #[trigger] out[c] == col_mask_spec(c),
        decreases 8 - col,
    {
        out[col] = col_mask(col);
        col += 1;
    }
    out
}

/// Relevance masks of a rook on each square.
pub fn rook_masks() -> (out: [Bitboard; 64])
    ensures
        forall|sq: int| 0 <= sq < 64 ==> #[trigger] out[sq] == rook_mask(sq),
{
    let mut out: [Bitboard; 64] = [0; 64];
    let mut sq: usize = 0;
    while sq < 64
        invariant
            sq <= 64,
            forall|i: int| 0 <= i < sq ==> #[trigger] out[i] == rook_mask(i),
        decreases 64 - sq,
    {
        out[sq] = rook_mask_at(sq);
        sq += 1;
    }
    out
}

/// Relevance masks of a bishop on each square.
pub fn bishop_masks() -> (out: [Bitboard; 64])
    ensures
        forall|sq: int| 0 <= sq < 64 ==> #[trigger] out[sq] == bishop_mask(sq),
{
    let mut out: [Bitboard; 64] = [0; 64];
    let mut sq: usize = 0;
    while sq < 64
        invariant
            sq <= 64,
            forall|i: int| 0 <= i < sq ==> #[trigger] out[i] == bishop_mask(i),
        decreases 64 - sq,
    {
        out[sq] = bishop_mask_at(sq);
        sq += 1;
    }
    out
}


proof fn lemma_next_subset(s: u64, m: u64, t: u64)
    by (bit_vector)
    requires
        s & m == s,
        t & m == t,
        s < t,
    ensures
        t >= (((s + !m + 1) as u64) & m),
{
}
proof fn lemma_next_bigger(s: u64, m: u64)
    by (bit_vector)
    requires
        s & m == s,
        s != m,
    ensures
        (((s + !m + 1) as u64) & m) > s,
        !m == (0xffff_ffff_ffff_ffffu64 - m) as u64,
{
}

/// Number of set bits of `x`.
pub open spec fn popcount(x: u64) -> nat
    decreases x,
{
    if x == 0 {
        0
    } else {
        proof {
            lemma_shift_right(x, 0, 0);
        }
        (x & 1u64) as nat + popcount(x >> 1u64)
    }
}

proof fn lemma_popcount_single(c: u64)
    requires
        c < 64,
    ensures
        popcount(1u64 << c) == 1,
    decreases c,
{
    lemma_shift_single(c, 1);
    lemma_shift_right(1, 0, 0);
    if c == 0 {
        assert(popcount(0u64) == 0);
        assert(popcount(1u64) == 1);
    } else {
        lemma_popcount_single((c - 1) as u64);
    }
}

proof fn lemma_popcount_or(a: u64, b: u64)
    ensures
        popcount(a | b) <= popcount(a) + popcount(b),
    decreases a as int + b as int,
{
    crate::bits::lemma_bit_basics(a, b, 0);
    crate::bits::lemma_bit_basics(b, a, 0);
    if a == 0 {
    } else if b == 0 {
    } else {
        lemma_shift_right(a, b, 0);
        lemma_shift_right(b, a, 0);
        lemma_popcount_or(a >> 1u64, b >> 1u64);
    }
}

/// Squares from `c` to the edge of the board in direction `(df, dr)`.
pub open spec fn room(c: int, df: int, dr: int) -> int {
    let rf = if df > 0 {
        7 - file_of(c)
    } else if df < 0 {
        file_of(c)
    } else {
        7
    };
    let rr = if dr > 0 {
        7 - rank_of(c)
    } else if dr < 0 {
        rank_of(c)
    } else {
        7
    };
    if rf < rr {
        rf
    } else {
        rr
    }
}

proof fn lemma_inner_ray_count(c: int, df: int, dr: int, n: nat)
    requires
        0 <= c < 64,
        -1 <= df <= 1,
        -1 <= dr <= 1,
        df != 0 || dr != 0,
    ensures
        popcount(inner_ray(c, df, dr, n)) <= if room(c, df, dr) >= 1 {
            room(c, df, dr) - 1
        } else {
            0
        },
    decreases n,
{
    let f = file_of(c) + df;
    let r = rank_of(c) + dr;
    if n == 0 || !on_board(f, r) || !on_board(f + df, r + dr) {
        assert(popcount(0u64) == 0);
    } else {
        let next = 8 * r + f;
        assert(file_of(next) == f && rank_of(next) == r);
        lemma_inner_ray_count(next, df, dr, (n - 1) as nat);
        lemma_popcount_or(sq_bb(next), inner_ray(next, df, dr, (n - 1) as nat));
        lemma_popcount_single(next as u64);
    }
}

/// A rook's relevance mask holds at most 12 squares.
pub proof fn lemma_rook_mask_size(sq: int)
    requires
        0 <= sq < 64,
    ensures
        popcount(rook_mask(sq)) <= 12,
{
    let a = inner_ray(sq, 0, 1, 7);
    let b = inner_ray(sq, 0, -1, 7);
    let c = inner_ray(sq, 1, 0, 7);
    let d = inner_ray(sq, -1, 0, 7);
    lemma_inner_ray_count(sq, 0, 1, 7);
    lemma_inner_ray_count(sq, 0, -1, 7);
    lemma_inner_ray_count(sq, 1, 0, 7);
    lemma_inner_ray_count(sq, -1, 0, 7);
    lemma_popcount_or(a, b);
    lemma_popcount_or(a | b, c);
    lemma_popcount_or(a | b | c, d);
}

/// A bishop's relevance mask holds at most 9 squares.
pub proof fn lemma_bishop_mask_size(sq: int)
    requires
        0 <= sq < 64,
    ensures
        popcount(bishop_mask(sq)) <= 9,
{
    let a = inner_ray(sq, 1, 1, 7);
    let b = inner_ray(sq, -1, 1, 7);
    let c = inner_ray(sq, -1, -1, 7);
    let d = inner_ray(sq, 1, -1, 7);
    lemma_inner_ray_count(sq, 1, 1, 7);
    lemma_inner_ray_count(sq, -1, 1, 7);
    lemma_inner_ray_count(sq, -1, -1, 7);
    lemma_inner_ray_count(sq, 1, -1, 7);
    lemma_popcount_or(a, b);
    lemma_popcount_or(a | b, c);
    lemma_popcount_or(a | b | c, d);
}

/// Progress of `t` beyond `c` along direction `(df, dr)`, in steps.
pub open spec fn progress(c: int, t: int, df: int, dr: int) -> int {
    if dr != 0 {
        dr * (rank_of(t) - rank_of(c))
    } else {
        df * (t - c)
    }
}

proof fn lemma_ray_ahead(occ: Bitboard, c: int, df: int, dr: int, n: nat, t: int)
    requires
        0 <= c < 64,
        -1 <= df <= 1,
        -1 <= dr <= 1,
        df != 0 || dr != 0,
        sq_in(ray(occ, c, df, dr, n), t),
    ensures
        progress(c, t, df, dr) > 0,
    decreases n,
{
    broadcast use group_bits;

    let f = file_of(c) + df;
    let r = rank_of(c) + dr;
    if n == 0 || !on_board(f, r) {
    } else {
        let next = 8 * r + f;
        assert(file_of(next) == f && rank_of(next) == r);
        assert(8 * rank_of(c) + file_of(c) == c);
        let rc = rank_of(c);
        assert(progress(c, next, df, dr) == 1) by {
            if dr != 0 {
                assert(dr * (r - rc) == 1) by (nonlinear_arith)
                    requires
                        r == rc + dr,
                        dr == 1 || dr == -1,
                ;
            } else {
                assert(df * (next - c) == 1) by (nonlinear_arith)
                    requires
                        next == c + df,
                        df == 1 || df == -1,
                ;
            }
        }
        if t != next {
            if !sq_in(occ, next) {
                lemma_ray_ahead(occ, next, df, dr, (n - 1) as nat, t);
                assert(progress(c, t, df, dr) == progress(c, next, df, dr) + progress(
                    next,
                    t,
                    df,
                    dr,
                )) by {
                    let a = rank_of(t);
                    let b2 = rank_of(next);
                    if dr != 0 {
                        assert(dr * (a - rc) == dr * (b2 - rc) + dr * (a - b2)) by (nonlinear_arith);
                    } else {
                        assert(df * (t - c) == df * (next - c) + df * (t - next)) by (nonlinear_arith);
                    }
                }
            }
        }
    }
}

/// A slider never attacks its own square.
pub proof fn lemma_attack_not_full(rook: bool, occ: Bitboard, sq: int)
    requires
        0 <= sq < 64,
    ensures
        !sq_in(attack_of(rook, occ, sq), sq),
        attack_of(rook, occ, sq) != 0xffff_ffff_ffff_ffffu64,
{
    broadcast use group_bits;

    if rook {
        if sq_in(ray(occ, sq, 0, 1, 7), sq) {
            lemma_ray_ahead(occ, sq, 0, 1, 7, sq);
        }
        if sq_in(ray(occ, sq, 0, -1, 7), sq) {
            lemma_ray_ahead(occ, sq, 0, -1, 7, sq);
        }
        if sq_in(ray(occ, sq, 1, 0, 7), sq) {
            lemma_ray_ahead(occ, sq, 1, 0, 7, sq);
        }
        if sq_in(ray(occ, sq, -1, 0, 7), sq) {
            lemma_ray_ahead(occ, sq, -1, 0, 7, sq);
        }
    } else {
        if sq_in(ray(occ, sq, 1, 1, 7), sq) {
            lemma_ray_ahead(occ, sq, 1, 1, 7, sq);
        }
        if sq_in(ray(occ, sq, -1, 1, 7), sq) {
            lemma_ray_ahead(occ, sq, -1, 1, 7, sq);
        }
        if sq_in(ray(occ, sq, -1, -1, 7), sq) {
            lemma_ray_ahead(occ, sq, -1, -1, 7, sq);
        }
        if sq_in(ray(occ, sq, 1, -1, 7), sq) {
            lemma_ray_ahead(occ, sq, 1, -1, 7, sq);
        }
    }
    lemma_shift_right(0, 0, sq as u64);
    assert(sq_in(0xffff_ffff_ffff_ffffu64, sq));
}

/// Attack set of a rook (`rook`) or a bishop on `sq` with `occ` occupied.
pub open spec fn attack_of(rook: bool, occ: Bitboard, sq: int) -> Bitboard {
    if rook {
        rook_attack(occ, sq)
    } else {
        bishop_attack(occ, sq)
    }
}

/// Counts the set bits of `x`.
fn count_ones(x: u64) -> (r: u32)
    ensures
        r == popcount(x),
{
    let mut v = x;
    let mut c: u32 = 0;
    let ghost mut i: nat = 0;
    proof {
        lemma_shift_right(x, 0, 0);
    }
    while v != 0
        invariant
            c + popcount(v) == popcount(x),
            c <= i <= 64,
            v == x >> (i as u64),
            i == 64 ==> v == 0,
        decreases v,
    {
        proof {
            lemma_shift_right(v, 0, 0);
            lemma_shift_right(x, 0, i as u64);
        }
        c = c + (v & 1) as u32;
        v = v >> 1u64;
        proof {
            i = i + 1;
        }
    }
    c
}

/// Starting state of the generator that searches for magic numbers.
pub const SEED: u64 = 0x01010101010101;

/// Marks a table entry no occupancy uses: no slider attacks every square.
pub const IMPOSSIBLE: Bitboard = 0xffffffffffffffff;

/// One step of the xorshift generator.
pub open spec fn xorshift(x: u64) -> u64 {
    let a = x ^ (x << 13u64);
    let b = a ^ (a >> 7u64);
    b ^ (b << 5u64)
}

/// Xorshift pseudo-random numbers.
pub struct Rand {
    x: u64,
}

impl View for Rand {
    type V = u64;

    closed spec fn view(&self) -> u64 {
        self.x
    }
}

impl Rand {
    /// A generator in its fixed starting state.
    pub fn new() -> (r: Rand)
        ensures
            r@ == 0x01010101010101u64,
    {
        Rand { x: SEED }
    }

    /// Advances the state by one xorshift step and returns the new state.
    pub fn rand(&mut self) -> (r: u64)
        ensures
            r == xorshift(old(self)@),
            final(self)@ == r,
    {
        let mut x = self.x;
        x = x ^ (x << 13u64);
        x = x ^ (x >> 7u64);
        x = x ^ (x << 5u64);
        self.x = x;
        self.x
    }

    pub fn set_seed(&mut self, seed: u64)
        ensures
            final(self)@ == seed,
    {
        self.x = seed;
    }

    /// The `&` of the next three numbers: a number with few bits set.
    pub fn sparse_rand(&mut self) -> (r: u64)
        ensures
            r == xorshift(old(self)@) & xorshift(xorshift(old(self)@)) & xorshift(
                xorshift(xorshift(old(self)@)),
            ),
            final(self)@ == xorshift(xorshift(xorshift(old(self)@))),
    {
        let a = self.rand();
        let b = self.rand();
        let c = self.rand();
        a & b & c
    }
}

/// Table index of occupancy `occ` under magic number `number` and shift `shift`.
pub open spec fn magic_index(number: u64, shift: u8, occ: Bitboard) -> int {
    (vstd::wrapping::u64_specs::wrapping_mul(occ, number) >> (shift as u64)) as int
}

/// Magic number `number` with shift `shift` sends any two occupancies of
/// `mask` whose attack sets (for a rook, `rook`, or a bishop on `sq`) differ to
/// different indices.
pub open spec fn separates(number: u64, shift: u8, mask: Bitboard, sq: int, rook: bool) -> bool {
    forall|s1: Bitboard, s2: Bitboard|
        #![trigger magic_index(number, shift, s1), magic_index(number, shift, s2)]
        (s1 & mask) == s1 && (s2 & mask) == s2 && magic_index(number, shift, s1) == magic_index(
            number,
            shift,
            s2,
        ) ==> attack_of(rook, s1, sq) == attack_of(rook, s2, sq)
}

/// The generator's state after `k` sparse draws from state `x`.
pub open spec fn state_after(x: u64, k: nat) -> u64
    decreases k,
{
    if k == 0 {
        x
    } else {
        xorshift(xorshift(xorshift(state_after(x, (k - 1) as nat))))
    }
}

/// Sparse draw number `k` (counting from 0) from state `x`.
pub open spec fn sparse_draw(x: u64, k: nat) -> u64 {
    let s = state_after(x, k);
    xorshift(s) & xorshift(xorshift(s)) & xorshift(xorshift(xorshift(s)))
}

/// Shift of the table of a rook (`rook`) or bishop on `sq`: one index bit per
/// relevant square.
pub open spec fn shift_of(rook: bool, sq: int) -> u8 {
    (64 - popcount(mask_of(rook, sq))) as u8
}

/// Sparse draw `k` from state `x` is the first to separate the occupancies
/// of the mask of a rook (`rook`) or bishop on `sq`.
pub open spec fn first_separating(x: u64, sq: int, rook: bool, k: nat) -> bool {
    &&& k < u64::MAX
    &&& separates(sparse_draw(x, k), shift_of(rook, sq), mask_of(rook, sq), sq, rook)
    &&& forall|j: nat|
        j < k ==> !separates(
            #[trigger] sparse_draw(x, j),
            shift_of(rook, sq),
            mask_of(rook, sq),
            sq,
            rook,
        )
}

/// Index of the first sparse draw from `x` that separates square `sq`'s
/// occupancies.
pub open spec fn first_draw(x: u64, sq: int, rook: bool) -> nat {
    choose|k: nat| first_separating(x, sq, rook, k)
}

/// None of the `u64::MAX` sparse draws from `x` separates square `sq`'s occupancies.
pub open spec fn gives_up(x: u64, sq: int, rook: bool) -> bool {
    forall|j: nat|
        j < u64::MAX ==> !separates(
            #[trigger] sparse_draw(x, j),
            shift_of(rook, sq),
            mask_of(rook, sq),
            sq,
            rook,
        )
}

/// The generator's state when the search for square `sq` starts: the seed
/// for square 0, then just past the draw each earlier square kept.
pub open spec fn start_state(rook: bool, sq: nat) -> u64
    decreases sq,
{
    if sq == 0 {
        SEED
    } else {
        let x = start_state(rook, (sq - 1) as nat);
        state_after(x, first_draw(x, sq - 1, rook) + 1)
    }
}

/// The first separating draw is unique.
proof fn lemma_first_draw(x: u64, sq: int, rook: bool, k: nat)
    requires
        first_separating(x, sq, rook, k),
    ensures
        first_draw(x, sq, rook) == k,
{
    let c = first_draw(x, sq, rook);
    assert(first_separating(x, sq, rook, c));
    if c < k {
        assert(!separates(sparse_draw(x, c), shift_of(rook, sq), mask_of(rook, sq), sq, rook));
    } else if k < c {
        assert(!separates(sparse_draw(x, k), shift_of(rook, sq), mask_of(rook, sq), sq, rook));
    }
}

/// A magic lookup table for one square: the occupancy of the relevant squares,
/// multiplied by the magic number and shifted, indexes the attack set.
pub struct Magic {
    pub mask: Bitboard,
    pub shift: u8,
    pub number: u64,
    pub entries: Vec<Bitboard>,
}

impl Magic {
    /// Entry index of occupancy `occ`.
    pub open spec fn index_of(self, occ: Bitboard) -> int {
        magic_index(self.number, self.shift, occ)
    }

    /// Every index the shift can produce is an entry.
    pub open spec fn fits(self) -> bool {
        self.shift < 64 && (0xffff_ffff_ffff_ffffu64 >> (self.shift as u64)) < self.entries@.len()
    }

    /// Each subset of the mask indexes the attack set of that occupancy.
    pub open spec fn sound(self, sq: int, rook: bool) -> bool {
        forall|s: Bitboard| #[trigger] (s & self.mask) == s ==> self.entries@[self.index_of(s)] == attack_of(rook, s, sq)
    }

    pub fn new(mask: Bitboard, shift: u8, number: u64, entries: Vec<Bitboard>) -> (m: Magic)
        ensures
            m.mask == mask,
            m.shift == shift,
            m.number == number,
            m.entries@ == entries@,
    {
        Magic { mask, shift, number, entries }
    }

    /// Entry for occupancy `occ`, after keeping only the relevant squares.
    /// The squares outside the mask never matter.
    pub fn get(&self, occ: Bitboard) -> (r: Bitboard)
        requires
            self.shift < 64,
            self.index_of(occ & self.mask) < self.entries@.len(),
        ensures
            r == self.entries@[self.index_of(occ & self.mask)],
            r == self.entries@[self.index_of((occ & self.mask) & self.mask)],
    {
        let o = occ & self.mask;
        proof {
            crate::bits::lemma_bit_basics(occ, self.mask, 0);
        }
        let i = self.get_index(o);
        let n = self.entries.len();
        proof {
            assert(o & self.mask == o);
            assert(0 <= self.index_of(o) < self.entries@.len());
            assert(i as int == self.index_of(o));
        }
        self.entries[i]
    }

    /// Entry index of occupancy `occ`.
    pub fn get_index(&self, occ: Bitboard) -> (r: usize)
        requires
            self.shift < 64,
        ensures
            r == self.index_of(occ) as usize,
    {
        let p = occ.wrapping_mul(self.number);
        let s = self.shift as u64;
        proof {
            lemma_shift_right(p, 0, s);
        }
        (p >> s) as usize
    }
}

/// Relevance mask of a rook (`rook`) or a bishop on `sq`.
pub open spec fn mask_of(rook: bool, sq: int) -> Bitboard {
    if rook {
        rook_mask(sq)
    } else {
        bishop_mask(sq)
    }
}

/// Entries of a rook's (`rook`) or a bishop's table.
pub open spec fn table_size(rook: bool) -> int {
    if rook {
        4096
    } else {
        512
    }
}

/// `m` is the finished table of a rook (`rook`) or bishop on `sq`: its mask,
/// a shift leaving one index bit per relevant square, room for every index,
/// and the right attack set under every occupancy of the mask.
pub open spec fn magic_for(m: Magic, sq: int, rook: bool) -> bool {
    &&& m.mask == mask_of(rook, sq)
    &&& m.shift == 64 - popcount(m.mask)
    &&& m.entries@.len() == table_size(rook)
    &&& m.fits()
    &&& m.sound(sq, rook)
}

proof fn lemma_next_subset_wrapping(s: u64, m: u64)
    requires
        s & m == s,
    ensures
        s != m ==> (vstd::wrapping::u64_specs::wrapping_sub(s, m) & m) > s,
        s != m ==> forall|t: u64| #[trigger] (t & m) == t && s < t ==> t >= (
        vstd::wrapping::u64_specs::wrapping_sub(s, m) & m),
        s == m ==> (vstd::wrapping::u64_specs::wrapping_sub(s, m) & m) == 0,
        (vstd::wrapping::u64_specs::wrapping_sub(s, m) & m) & m == (
        vstd::wrapping::u64_specs::wrapping_sub(s, m) & m),
        (vstd::wrapping::u64_specs::wrapping_sub(s, m) & m) <= m,
        s <= m,
{
    let w = vstd::wrapping::u64_specs::wrapping_sub(s, m);
    crate::bits::lemma_bit_basics(s, m, 0);
    crate::bits::lemma_bit_basics(w & m, m, 0);
    crate::bits::lemma_bit_basics(w, m, 0);
    if s != m {
        lemma_next_bigger(s, m);
        assert(w == (s + !m + 1) as u64);
        assert forall|t: u64| #[trigger] (t & m) == t && s < t implies t >= (w & m) by {
            lemma_next_subset(s, m, t);
        }
    } else {
        assert(w == 0);
    }
}

proof fn lemma_index_in(m: Magic, occ: Bitboard)
    requires
        m.fits(),
    ensures
        0 <= m.index_of(occ) < m.entries@.len(),
{
    let p = vstd::wrapping::u64_specs::wrapping_mul(occ, m.number);
    lemma_shift_right(p, 0, m.shift as u64);
}

proof fn lemma_popcount_pos(x: u64)
    requires
        x != 0,
    ensures
        popcount(x) >= 1,
    decreases x,
{
    if x & 1u64 == 0 {
        lemma_shift_right(x, 0, 0);
        lemma_popcount_pos(x >> 1u64);
    }
}

/// Every relevance mask holds a square.
proof fn lemma_mask_nonempty(rook: bool, sq: int)
    requires
        0 <= sq < 64,
    ensures
        mask_of(rook, sq) != 0,
{
    broadcast use group_bits;

    let f = file_of(sq);
    let r = rank_of(sq);
    assert(8 * r + f == sq);
    let x = if rook {
        if r <= 5 {
            sq + 8
        } else {
            sq - 8
        }
    } else {
        if r <= 5 && f <= 5 {
            sq + 9
        } else if r <= 5 {
            sq + 7
        } else if f >= 2 {
            sq - 9
        } else {
            sq - 7
        }
    };
    if rook {
        if r <= 5 {
            assert(sq_in(inner_ray(sq, 0, 1, 7), x));
        } else {
            assert(sq_in(inner_ray(sq, 0, -1, 7), x));
        }
    } else {
        if r <= 5 && f <= 5 {
            assert(sq_in(inner_ray(sq, 1, 1, 7), x));
        } else if r <= 5 {
            assert(sq_in(inner_ray(sq, -1, 1, 7), x));
        } else if f >= 2 {
            assert(sq_in(inner_ray(sq, -1, -1, 7), x));
        } else {
            assert(sq_in(inner_ray(sq, 1, -1, 7), x));
        }
    }
    assert(sq_in(mask_of(rook, sq), x));
}

proof fn lemma_fits(shift: u64)
    by (bit_vector)
    requires
        shift < 64,
    ensures
        shift >= 52 ==> 0xffff_ffff_ffff_ffffu64 >> shift < 4096,
        shift >= 55 ==> 0xffff_ffff_ffff_ffffu64 >> shift < 512,
{
}

/// Draws magic numbers for square `sq` until one maps each subset of the
/// relevance mask to an entry that no subset with a different attack set
/// shares: the first such draw, with its table filled (entries no subset uses
/// stay `IMPOSSIBLE`). Gives up, returning `None`, only after `u64::MAX` draws.
fn find_magic(rand: &mut Rand, sq: usize, rook: bool) -> (r: Option<Magic>)
    requires
        sq < 64,
    ensures
        r matches Some(m) ==> {
            &&& magic_for(m, sq as int, rook)
            &&& forall|i: int|
                0 <= i < m.entries@.len() && m.entries@[i] != IMPOSSIBLE ==> exists|t: Bitboard|
                    (t & m.mask) == t && #[trigger] m.index_of(t) == i
            &&& first_separating(old(rand)@, sq as int, rook, first_draw(old(rand)@, sq as int, rook))
            &&& m.number == sparse_draw(old(rand)@, first_draw(old(rand)@, sq as int, rook))
            &&& final(rand)@ == state_after(old(rand)@, first_draw(old(rand)@, sq as int, rook) + 1)
        },
        r is None ==> gives_up(old(rand)@, sq as int, rook),
{
    let mask = if rook {
        rook_mask_at(sq)
    } else {
        bishop_mask_at(sq)
    };
    let size: usize = if rook {
        4096
    } else {
        512
    };
    proof {
        if rook {
            lemma_rook_mask_size(sq as int);
        } else {
            lemma_bishop_mask_size(sq as int);
        }
        lemma_mask_nonempty(rook, sq as int);
        lemma_popcount_pos(mask);
    }
    let count = count_ones(mask);
    let shift = (64 - count) as u8;
    proof {
        lemma_fits(shift as u64);
    }
    let ghost x0 = rand@;
    let mut magic = Magic::new(mask, shift, 0, Vec::new());
    let mut tries: u64 = 0;
    while tries < u64::MAX
        invariant
            sq < 64,
            mask == mask_of(rook, sq as int),
            size == table_size(rook),
            shift == 64 - popcount(mask),
            magic.mask == mask,
            magic.shift == shift,
            (0xffff_ffff_ffff_ffffu64 >> (shift as u64)) < size,
            shift < 64,
            x0 == old(rand)@,
            rand@ == state_after(x0, tries as nat),
            forall|j: nat| j < tries ==> !separates(#[trigger] sparse_draw(x0, j), shift, mask, sq as int, rook),
        decreases u64::MAX - tries,
    {
        let mut entries: Vec<Bitboard> = Vec::new();
        while entries.len() < size
            invariant
                entries@.len() <= size,
                forall|i: int| 0 <= i < entries@.len() ==> #[trigger] entries@[i] == IMPOSSIBLE,
            decreases size - entries@.len(),
        {
            entries.push(IMPOSSIBLE);
        }
        magic.entries = entries;
        magic.number = rand.sparse_rand();
        proof {
            assert(magic.number == sparse_draw(x0, tries as nat));
            assert(rand@ == state_after(x0, tries as nat + 1));
        }
        let mut subset: Bitboard = 0;
        let mut found = true;
        let ghost drawn = magic.number;
        proof {
            crate::bits::lemma_bit_basics(mask, 0, 0);
        }
        loop
            invariant_except_break
                sq < 64,
                found,
                magic.number == drawn,
                magic.mask == mask,
                magic.shift == shift,
                shift < 64,
                magic.entries@.len() == size,
                (0xffff_ffff_ffff_ffffu64 >> (shift as u64)) < size,
                subset & mask == subset,
                forall|t: u64| #![auto]
                    t & mask == t && t < subset ==> magic.entries@[magic.index_of(t)] == attack_of(
                        rook,
                        t,
                        sq as int,
                    ),
                forall|i: int|
                    0 <= i < size && magic.entries@[i] != IMPOSSIBLE ==> exists|t: Bitboard|
                        (t & mask) == t && t < subset && #[trigger] magic.index_of(t) == i
                            && magic.entries@[i] == attack_of(rook, t, sq as int),
            ensures
                magic.number == drawn,
                magic.mask == mask,
                magic.shift == shift,
                magic.entries@.len() == size,
                (0xffff_ffff_ffff_ffffu64 >> (shift as u64)) < size,
                found ==> magic.sound(sq as int, rook),
                found ==> forall|i: int|
                    0 <= i < size && magic.entries@[i] != IMPOSSIBLE ==> exists|t: Bitboard|
                        (t & mask) == t && #[trigger] magic.index_of(t) == i,
                !found ==> !separates(magic.number, shift, mask, sq as int, rook),
            decreases mask - subset,
        {
            let attack = if rook {
                rook_slider_attack(subset, sq)
            } else {
                generate_bishop_sliding(subset, sq)
            };
            let idx = magic.get_index(subset);
            proof {
                lemma_index_in(magic, subset);
            }
            let ghost before = magic.entries@;
            proof {
                lemma_attack_not_full(rook, subset, sq as int);
                lemma_next_subset_wrapping(subset, mask);
            }
            if magic.entries[idx] == IMPOSSIBLE {
                magic.entries.set(idx, attack);
                proof {
                    assert forall|t: u64| #![auto]
                        t & mask == t && t < subset implies magic.entries@[magic.index_of(t)]
                        == attack_of(rook, t, sq as int) by {
                        lemma_attack_not_full(rook, t, sq as int);
                        lemma_index_in(magic, t);
                    }
                }
            } else if magic.entries[idx] != attack {
                proof {
                    let t = choose|t: Bitboard|
                        (t & mask) == t && t < subset && #[trigger] magic.index_of(t) == idx
                            && magic.entries@[idx as int] == attack_of(rook, t, sq as int);
                    assert(magic_index(magic.number, shift, t) == magic_index(
                        magic.number,
                        shift,
                        subset,
                    ));
                }
                found = false;
                break;
            }
            let next = subset.wrapping_sub(magic.mask) & magic.mask;
            if next == 0 {
                proof {
                    assert(subset == mask);
                    assert forall|s: Bitboard| #[trigger] (s & magic.mask) == s implies magic.entries@[
                        magic.index_of(s)] == attack_of(rook, s, sq as int) by {
                        crate::bits::lemma_bit_basics(s, mask, 0);
                    }
                }
                break;
            }
            proof {
                assert forall|i: int|
                    0 <= i < size && magic.entries@[i] != IMPOSSIBLE implies exists|t: Bitboard|
                        (t & mask) == t && t < next && #[trigger] magic.index_of(t) == i
                            && magic.entries@[i] == attack_of(rook, t, sq as int) by {
                    if i == idx && before[i] == IMPOSSIBLE {
                        assert(magic.index_of(subset) == i);
                    } else {
                        let t = choose|t: Bitboard|
                            (t & mask) == t && t < subset && #[trigger] magic.index_of(t) == i
                                && before[i] == attack_of(rook, t, sq as int);
                        assert(magic.index_of(t) == i);
                    }
                }
            }
            subset = next;
        }
        if found {
            proof {
                assert forall|s1: Bitboard, s2: Bitboard|
                    (s1 & mask) == s1 && (s2 & mask) == s2 && magic_index(magic.number, shift, s1)
                        == magic_index(magic.number, shift, s2) implies attack_of(rook, s1, sq as int)
                    == attack_of(rook, s2, sq as int) by {
                    assert(magic.entries@[magic.index_of(s1)] == attack_of(rook, s1, sq as int));
                    assert(magic.entries@[magic.index_of(s2)] == attack_of(rook, s2, sq as int));
                }
                assert(separates(magic.number, shift, mask, sq as int, rook));
                let k = tries as nat;
                assert(magic.number == sparse_draw(x0, k));
                assert(first_separating(x0, sq as int, rook, k));
                lemma_first_draw(x0, sq as int, rook, k);
            }
            return Some(magic);
        }
        tries += 1;
    }
    None
}

/// The 64 rook tables, searched with one generator from its starting state;
/// `None` only when a search gives up.
pub fn generate_rook_magic_table() -> (r: Option<Vec<Magic>>)
    ensures
        r matches Some(v) ==> v@.len() == 64 && forall|sq: int|
            0 <= sq < 64 ==> {
                &&& magic_for(#[trigger] v@[sq], sq, true)
                &&& v@[sq].number == sparse_draw(
                    start_state(true, sq as nat),
                    first_draw(start_state(true, sq as nat), sq, true),
                )
                &&& forall|i: int|
                    0 <= i < v@[sq].entries@.len() && v@[sq].entries@[i] != IMPOSSIBLE ==> exists|
                        t: Bitboard,
                    | (t & v@[sq].mask) == t && #[trigger] v@[sq].index_of(t) == i
            },
        r is None ==> exists|sq: nat|
            sq < 64 && #[trigger] gives_up(start_state(true, sq), sq as int, true),
{
    let mut rand = Rand::new();
    let mut out: Vec<Magic> = Vec::new();
    let mut sq: usize = 0;
    while sq < 64
        invariant
            sq <= 64,
            out@.len() == sq,
            rand@ == start_state(true, sq as nat),
            forall|i: int|
                0 <= i < sq ==> {
                    &&& magic_for(#[trigger] out@[i], i, true)
                    &&& out@[i].number == sparse_draw(
                        start_state(true, i as nat),
                        first_draw(start_state(true, i as nat), i, true),
                    )
                    &&& forall|j: int|
                        0 <= j < out@[i].entries@.len() && out@[i].entries@[j] != IMPOSSIBLE
                            ==> exists|t: Bitboard|
                            (t & out@[i].mask) == t && #[trigger] out@[i].index_of(t) == j
                },
        decreases 64 - sq,
    {
        match find_magic(&mut rand, sq, true) {
            Some(m) => out.push(m),
            None => {
                proof {
                    assert(gives_up(start_state(true, sq as nat), sq as int, true));
                }
                return None;
            },
        }
        sq += 1;
    }
    Some(out)
}

/// The 64 bishop tables, searched with one generator from its starting state;
/// `None` only when a search gives up.
pub fn generate_bishop_magic_table() -> (r: Option<Vec<Magic>>)
    ensures
        r matches Some(v) ==> v@.len() == 64 && forall|sq: int|
            0 <= sq < 64 ==> {
                &&& magic_for(#[trigger] v@[sq], sq, false)
                &&& v@[sq].number == sparse_draw(
                    start_state(false, sq as nat),
                    first_draw(start_state(false, sq as nat), sq, false),
                )
                &&& forall|i: int|
                    0 <= i < v@[sq].entries@.len() && v@[sq].entries@[i] != IMPOSSIBLE ==> exists|
                        t: Bitboard,
                    | (t & v@[sq].mask) == t && #[trigger] v@[sq].index_of(t) == i
            },
        r is None ==> exists|sq: nat|
            sq < 64 && #[trigger] gives_up(start_state(false, sq), sq as int, false),
{
    let mut rand = Rand::new();
    let mut out: Vec<Magic> = Vec::new();
    let mut sq: usize = 0;
    while sq < 64
        invariant
            sq <= 64,
            out@.len() == sq,
            rand@ == start_state(false, sq as nat),
            forall|i: int|
                0 <= i < sq ==> {
                    &&& magic_for(#[trigger] out@[i], i, false)
                    &&& out@[i].number == sparse_draw(
                        start_state(false, i as nat),
                        first_draw(start_state(false, i as nat), i, false),
                    )
                    &&& forall|j: int|
                        0 <= j < out@[i].entries@.len() && out@[i].entries@[j] != IMPOSSIBLE
                            ==> exists|t: Bitboard|
                            (t & out@[i].mask) == t && #[trigger] out@[i].index_of(t) == j
                },
        decreases 64 - sq,
    {
        match find_magic(&mut rand, sq, false) {
            Some(m) => out.push(m),
            None => {
                proof {
                    assert(gives_up(start_state(false, sq as nat), sq as int, false));
                }
                return None;
            },
        }
        sq += 1;
    }
    Some(out)
}

proof fn lemma_ray_masked(occ: Bitboard, m: Bitboard, c: int, df: int, dr: int, n: nat)
    requires
        0 <= c < 64,
        inner_ray(c, df, dr, n) & m == inner_ray(c, df, dr, n),
    ensures
        ray(occ & m, c, df, dr, n) == ray(occ, c, df, dr, n),
    decreases n,
{
    broadcast use group_bits;

    let f = file_of(c) + df;
    let r = rank_of(c) + dr;
    if n == 0 || !on_board(f, r) {
    } else {
        let next = 8 * r + f;
        assert(file_of(next) == f && rank_of(next) == r);
        if on_board(f + df, r + dr) {
            let inner = inner_ray(c, df, dr, n);
            let rest = inner_ray(next, df, dr, (n - 1) as nat);
            assert(inner == sq_bb(next) | rest);
            let bn = sq_bb(next);
            lemma_or_facts(bn, rest, m);
            assert(sq_in(sq_bb(next) & m, next));
            assert(sq_in(m, next));
            assert(sq_in(occ & m, next) == sq_in(occ, next));
            lemma_ray_masked(occ, m, next, df, dr, (n - 1) as nat);
        } else {
            let n1 = (n - 1) as nat;
            assert(ray(occ & m, next, df, dr, n1) == 0);
            assert(ray(occ, next, df, dr, n1) == 0);
            let b = sq_bb(next);
            lemma_or_facts(b, 0, 0);
        }
    }
}

proof fn lemma_or_parts(a: u64, b: u64, c: u64, d: u64, m: u64)
    by (bit_vector)
    requires
        m == a | b | c | d,
    ensures
        a & m == a,
        b & m == b,
        c & m == c,
        d & m == d,
{
}

/// Occupancy outside the relevance mask does not change a slider's attacks.
pub proof fn lemma_attack_masked(rook: bool, occ: Bitboard, sq: int)
    requires
        0 <= sq < 64,
    ensures
        attack_of(rook, occ & mask_of(rook, sq), sq) == attack_of(rook, occ, sq),
{
    let m = mask_of(rook, sq);
    if rook {
        lemma_or_parts(inner_ray(sq, 0, 1, 7), inner_ray(sq, 0, -1, 7), inner_ray(sq, 1, 0, 7), inner_ray(sq, -1, 0, 7), m);
        lemma_ray_masked(occ, m, sq, 0, 1, 7);
        lemma_ray_masked(occ, m, sq, 0, -1, 7);
        lemma_ray_masked(occ, m, sq, 1, 0, 7);
        lemma_ray_masked(occ, m, sq, -1, 0, 7);
    } else {
        lemma_or_parts(inner_ray(sq, 1, 1, 7), inner_ray(sq, -1, 1, 7), inner_ray(sq, -1, -1, 7), inner_ray(sq, 1, -1, 7), m);
        lemma_ray_masked(occ, m, sq, 1, 1, 7);
        lemma_ray_masked(occ, m, sq, -1, 1, 7);
        lemma_ray_masked(occ, m, sq, -1, -1, 7);
        lemma_ray_masked(occ, m, sq, 1, -1, 7);
    }
}

/// A finished magic table answers every occupancy with the slider's attack
/// set: `Magic::get` may be called on it with any occupancy, and what it
/// returns equals what the ray walk computes.
pub proof fn lemma_magic_lookup(m: Magic, sq: int, rook: bool, occ: Bitboard)
    requires
        0 <= sq < 64,
        magic_for(m, sq, rook),
    ensures
        m.shift < 64,
        0 <= m.index_of(occ & m.mask) < m.entries@.len(),
        m.entries@[m.index_of(occ & m.mask)] == attack_of(rook, occ, sq),
{
    lemma_index_in(m, occ & m.mask);
    let mk = m.mask;
    let s = occ & mk;
    crate::bits::lemma_bit_basics(occ, mk, 0);
    assert(s & m.mask == s);
    lemma_attack_masked(rook, occ, sq);
}

} // verus!
