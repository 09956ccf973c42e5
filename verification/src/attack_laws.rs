//! Attacks read both ways. A square is attacked when a piece standing
//! elsewhere attacks it; `is_attacked` finds that piece by looking outward
//! from the square itself. That works because every attack relation here is
//! symmetric: a knight, king or slider on `a` reaches `b` exactly when one on
//! `b` reaches `a`, and a pawn of one side takes towards `b` from `a` exactly
//! when a pawn of the other side takes towards `a` from `b`.
use vstd::prelude::*;
use crate::bits::{sq_in, group_bits, lemma_nonzero_has, lowest};
use crate::magic_table::{file_of, rank_of, on_board, ray, rook_attack, bishop_attack};
use crate::attacks::{
    king_attacks, knight_attacks, pawn_attacks, king_step, knight_jump,
    pawn_capture, lemma_king_attacks, lemma_knight_attacks, lemma_pawn_attacks,
};
use crate::board::{Board, Side, opposite};
use crate::movegen::occupied;
use crate::legality::attacked;

verus! {

/// `k` steps of size `d`, where `d` is -1, 0 or 1.
pub open spec fn times(k: int, d: int) -> int {
    if d > 0 {
        k
    } else if d < 0 {
        -k
    } else {
        0
    }
}

/// File and rank `k` steps from `c` in direction `(df, dr)` are on the board.
pub open spec fn on_path(c: int, k: int, df: int, dr: int) -> bool {
    on_board(file_of(c) + times(k, df), rank_of(c) + times(k, dr))
}

/// The square `k` steps from `c` in direction `(df, dr)`.
pub open spec fn along(c: int, k: int, df: int, dr: int) -> int {
    8 * (rank_of(c) + times(k, dr)) + file_of(c) + times(k, df)
}

/// A slider on `c` moving by `(df, dr)` reaches `t` in `k` steps: `t` is on
/// the board there, and every square strictly between is empty in `occ`.
pub open spec fn reaches(occ: u64, c: int, df: int, dr: int, k: int, t: int) -> bool {
    &&& 1 <= k
    &&& on_path(c, k, df, dr)
    &&& t == along(c, k, df, dr)
    &&& forall|j: int| 1 <= j < k ==> !#[trigger] sq_in(occ, along(c, j, df, dr))
}

/// A direction of a slider: each step -1, 0 or 1, not both 0.
pub open spec fn direction(df: int, dr: int) -> bool {
    -1 <= df <= 1 && -1 <= dr <= 1 && (df != 0 || dr != 0)
}

/// Every square of a ray is reached in some number of steps up to its length.
proof fn lemma_ray_sound(occ: u64, c: int, df: int, dr: int, n: nat, t: int) -> (k: int)
    requires
        0 <= c < 64,
        direction(df, dr),
        sq_in(ray(occ, c, df, dr, n), t),
    ensures
        k <= n,
        reaches(occ, c, df, dr, k, t),
    decreases n,
{
    broadcast use group_bits;

    let f = file_of(c) + df;
    let r = rank_of(c) + dr;
    let next = 8 * r + f;
    assert(n > 0 && on_board(f, r));
    assert(file_of(next) == f && rank_of(next) == r);
    if t == next {
        assert(along(c, 1, df, dr) == next);
        1
    } else {
        assert(!sq_in(occ, next));
        let k1 = lemma_ray_sound(occ, next, df, dr, (n - 1) as nat, t);
        assert forall|j: int| 1 <= j < k1 + 1 implies !#[trigger] sq_in(occ, along(c, j, df, dr)) by {
            if j > 1 {
                assert(along(c, j, df, dr) == along(next, j - 1, df, dr));
            } else {
                assert(along(c, 1, df, dr) == next);
            }
        }
        assert(along(c, k1 + 1, df, dr) == along(next, k1, df, dr));
        k1 + 1
    }
}

/// A square reached in at most `n` steps is on the ray of length `n`.
proof fn lemma_ray_complete(occ: u64, c: int, df: int, dr: int, n: nat, k: int, t: int)
    requires
        0 <= c < 64,
        direction(df, dr),
        k <= n,
        reaches(occ, c, df, dr, k, t),
    ensures
        sq_in(ray(occ, c, df, dr, n), t),
    decreases n,
{
    broadcast use group_bits;

    let f = file_of(c) + df;
    let r = rank_of(c) + dr;
    let next = 8 * r + f;
    assert(on_board(f, r));
    assert(file_of(next) == f && rank_of(next) == r);
    if k == 1 {
        assert(t == next);
    } else {
        assert(along(c, 1, df, dr) == next);
        assert(!sq_in(occ, along(c, 1, df, dr)));
        assert forall|j: int| 1 <= j < k - 1 implies !#[trigger] sq_in(occ, along(next, j, df, dr)) by {
            assert(along(next, j, df, dr) == along(c, j + 1, df, dr));
        }
        assert(along(next, k - 1, df, dr) == along(c, k, df, dr));
        lemma_ray_complete(occ, next, df, dr, (n - 1) as nat, k - 1, t);
    }
}

/// A slider on `c` reaches `t` along direction `(df, dr)` exactly when one on
/// `t` reaches `c` along the opposite direction: the squares in between are
/// the same.
pub proof fn lemma_ray_symmetric(occ: u64, c: int, t: int, df: int, dr: int)
    requires
        0 <= c < 64,
        direction(df, dr),
        sq_in(ray(occ, c, df, dr, 7), t),
    ensures
        sq_in(ray(occ, t, -df, -dr, 7), c),
{
    let k = lemma_ray_sound(occ, c, df, dr, 7, t);
    let ft = file_of(c) + times(k, df);
    let rt = rank_of(c) + times(k, dr);
    assert(file_of(t) == ft && rank_of(t) == rt);
    assert(8 * rank_of(c) + file_of(c) == c);
    assert forall|j: int| 1 <= j < k implies !#[trigger] sq_in(occ, along(t, j, -df, -dr)) by {
        assert(along(t, j, -df, -dr) == along(c, k - j, df, dr));
    }
    assert(along(t, k, -df, -dr) == c);
    lemma_ray_complete(occ, t, -df, -dr, 7, k, c);
}

/// A rook on `c` attacks `t` exactly when a rook on `t` attacks `c`.
pub proof fn lemma_rook_symmetric(occ: u64, c: int, t: int)
    requires
        0 <= c < 64,
        0 <= t < 64,
    ensures
        sq_in(rook_attack(occ, c), t) == sq_in(rook_attack(occ, t), c),
{
    broadcast use group_bits;

    if sq_in(ray(occ, c, 0, 1, 7), t) {
        lemma_ray_symmetric(occ, c, t, 0, 1);
    }
    if sq_in(ray(occ, c, 0, -1, 7), t) {
        lemma_ray_symmetric(occ, c, t, 0, -1);
    }
    if sq_in(ray(occ, c, 1, 0, 7), t) {
        lemma_ray_symmetric(occ, c, t, 1, 0);
    }
    if sq_in(ray(occ, c, -1, 0, 7), t) {
        lemma_ray_symmetric(occ, c, t, -1, 0);
    }
    if sq_in(ray(occ, t, 0, 1, 7), c) {
        lemma_ray_symmetric(occ, t, c, 0, 1);
    }
    if sq_in(ray(occ, t, 0, -1, 7), c) {
        lemma_ray_symmetric(occ, t, c, 0, -1);
    }
    if sq_in(ray(occ, t, 1, 0, 7), c) {
        lemma_ray_symmetric(occ, t, c, 1, 0);
    }
    if sq_in(ray(occ, t, -1, 0, 7), c) {
        lemma_ray_symmetric(occ, t, c, -1, 0);
    }
}

/// A bishop on `c` attacks `t` exactly when a bishop on `t` attacks `c`.
pub proof fn lemma_bishop_symmetric(occ: u64, c: int, t: int)
    requires
        0 <= c < 64,
        0 <= t < 64,
    ensures
        sq_in(bishop_attack(occ, c), t) == sq_in(bishop_attack(occ, t), c),
{
    broadcast use group_bits;

    if sq_in(ray(occ, c, 1, 1, 7), t) {
        lemma_ray_symmetric(occ, c, t, 1, 1);
    }
    if sq_in(ray(occ, c, -1, 1, 7), t) {
        lemma_ray_symmetric(occ, c, t, -1, 1);
    }
    if sq_in(ray(occ, c, -1, -1, 7), t) {
        lemma_ray_symmetric(occ, c, t, -1, -1);
    }
    if sq_in(ray(occ, c, 1, -1, 7), t) {
        lemma_ray_symmetric(occ, c, t, 1, -1);
    }
    if sq_in(ray(occ, t, 1, 1, 7), c) {
        lemma_ray_symmetric(occ, t, c, 1, 1);
    }
    if sq_in(ray(occ, t, -1, 1, 7), c) {
        lemma_ray_symmetric(occ, t, c, -1, 1);
    }
    if sq_in(ray(occ, t, -1, -1, 7), c) {
        lemma_ray_symmetric(occ, t, c, -1, -1);
    }
    if sq_in(ray(occ, t, 1, -1, 7), c) {
        lemma_ray_symmetric(occ, t, c, 1, -1);
    }
}


/// A piece of side `s` standing on `from` attacks `sq`, `b`'s pieces blocking
/// the sliders.
pub open spec fn attacks_from(b: Board, s: Side, from: int, sq: int) -> bool {
    let p = b.pieces(s);
    let occ = occupied(b);
    ||| sq_in(p[0], from) && sq_in(king_attacks(from), sq)
    ||| sq_in(p[4], from) && sq_in(knight_attacks(from), sq)
    ||| sq_in(p[5], from) && sq_in(pawn_attacks(s == Side::White, from), sq)
    ||| (sq_in(p[2], from) || sq_in(p[1], from)) && sq_in(rook_attack(occ, from), sq)
    ||| (sq_in(p[3], from) || sq_in(p[1], from)) && sq_in(bishop_attack(occ, from), sq)
}

/// The leapers' moves and the pawns' captures read both ways: a king or
/// knight on `a` reaches `b` exactly when one on `b` reaches `a`; a pawn
/// moving up the board takes towards `b` from `a` exactly when one moving
/// down takes towards `a` from `b`.
pub proof fn lemma_leapers_symmetric(a: int, b: int)
    requires
        0 <= a < 64,
        0 <= b < 64,
    ensures
        sq_in(king_attacks(a), b) == sq_in(king_attacks(b), a),
        sq_in(knight_attacks(a), b) == sq_in(knight_attacks(b), a),
        forall|up: bool| #[trigger] sq_in(pawn_attacks(up, a), b) == sq_in(pawn_attacks(!up, b), a),
{
    lemma_king_attacks(a);
    lemma_king_attacks(b);
    lemma_knight_attacks(a);
    lemma_knight_attacks(b);
    lemma_pawn_attacks(true, a);
    lemma_pawn_attacks(false, a);
    lemma_pawn_attacks(true, b);
    lemma_pawn_attacks(false, b);
    assert(sq_in(king_attacks(a), b) == king_step(a, b));
    assert(sq_in(king_attacks(b), a) == king_step(b, a));
    assert(sq_in(knight_attacks(a), b) == knight_jump(a, b));
    assert(sq_in(knight_attacks(b), a) == knight_jump(b, a));
    assert forall|up: bool| #[trigger] sq_in(pawn_attacks(up, a), b) == sq_in(
        pawn_attacks(!up, b),
        a,
    ) by {
        assert(sq_in(pawn_attacks(up, a), b) == pawn_capture(up, a, b));
        assert(sq_in(pawn_attacks(!up, b), a) == pawn_capture(!up, b, a));
    }
}

proof fn lemma_meets(x: u64, y: u64)
    requires
        x & y != 0,
    ensures
        0 <= lowest(x & y) < 64,
        sq_in(x, lowest(x & y)),
        sq_in(y, lowest(x & y)),
{
    broadcast use group_bits;

    lemma_nonzero_has(x & y);
}

/// What `is_attacked` finds looking outward from `sq` is what the pieces of
/// the side not to move attack from where they stand: `sq` is attacked
/// exactly when one of them attacks it.
pub proof fn lemma_attacked_forward(b: Board, sq: int)
    requires
        0 <= sq < 64,
    ensures
        attacked(b, sq) <==> exists|from: int|
            0 <= from < 64 && #[trigger] attacks_from(b, opposite(b.side), from, sq),
{
    broadcast use group_bits;

    let e = b.pieces(opposite(b.side));
    let occ = occupied(b);
    let up = b.side == Side::White;
    assert(!up == (opposite(b.side) == Side::White));
    if attacked(b, sq) {
        let x = if king_attacks(sq) & e[0] != 0 {
            king_attacks(sq) & e[0]
        } else if knight_attacks(sq) & e[4] != 0 {
            knight_attacks(sq) & e[4]
        } else if pawn_attacks(up, sq) & e[5] != 0 {
            pawn_attacks(up, sq) & e[5]
        } else if rook_attack(occ, sq) & (e[2] | e[1]) != 0 {
            rook_attack(occ, sq) & (e[2] | e[1])
        } else {
            bishop_attack(occ, sq) & (e[3] | e[1])
        };
        let from = lowest(x);
        if king_attacks(sq) & e[0] != 0 {
            lemma_meets(king_attacks(sq), e[0]);
        } else if knight_attacks(sq) & e[4] != 0 {
            lemma_meets(knight_attacks(sq), e[4]);
        } else if pawn_attacks(up, sq) & e[5] != 0 {
            lemma_meets(pawn_attacks(up, sq), e[5]);
        } else if rook_attack(occ, sq) & (e[2] | e[1]) != 0 {
            lemma_meets(rook_attack(occ, sq), e[2] | e[1]);
        } else {
            lemma_meets(bishop_attack(occ, sq), e[3] | e[1]);
        }
        lemma_leapers_symmetric(sq, from);
        lemma_rook_symmetric(occ, sq, from);
        lemma_bishop_symmetric(occ, sq, from);
        assert(sq_in(pawn_attacks(up, sq), from) == sq_in(pawn_attacks(!up, from), sq));
        assert(attacks_from(b, opposite(b.side), from, sq));
    }
    if exists|from: int| 0 <= from < 64 && #[trigger] attacks_from(b, opposite(b.side), from, sq) {
        let from = choose|from: int|
            0 <= from < 64 && #[trigger] attacks_from(b, opposite(b.side), from, sq);
        lemma_leapers_symmetric(sq, from);
        lemma_rook_symmetric(occ, sq, from);
        lemma_bishop_symmetric(occ, sq, from);
        assert(sq_in(pawn_attacks(up, sq), from) == sq_in(pawn_attacks(!up, from), sq));
        if sq_in(e[0], from) && sq_in(king_attacks(from), sq) {
            assert(sq_in(king_attacks(sq) & e[0], from));
        } else if sq_in(e[4], from) && sq_in(knight_attacks(from), sq) {
            assert(sq_in(knight_attacks(sq) & e[4], from));
        } else if sq_in(e[5], from) && sq_in(pawn_attacks(!up, from), sq) {
            assert(sq_in(pawn_attacks(up, sq) & e[5], from));
        } else if (sq_in(e[2], from) || sq_in(e[1], from)) && sq_in(rook_attack(occ, from), sq) {
            assert(sq_in(rook_attack(occ, sq) & (e[2] | e[1]), from));
        } else {
            assert(sq_in(bishop_attack(occ, sq) & (e[3] | e[1]), from));
        }
    }
}

} // verus!
