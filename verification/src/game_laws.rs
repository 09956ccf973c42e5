//! Why a game ends: every move either takes a piece or moves a pawn towards
//! its last rank, which can happen only so often, or adds one to the
//! fifty-move counter, which ends the game at fifty.
use vstd::prelude::*;
use crate::bits::{
    sq_in, sq_bb, group_bits, lowest, pop_lowest, lemma_pop_lowest, lemma_nonzero_has,
    lemma_and_zero,
};
use crate::board::{
    Board, GameState, Move, Piece, Side, after_move, capture_square, move_fits, moved, opposite,
    piece_index, plain_move, taken_index, union6, moved_pieces,
};
use crate::legality::{check_ok, legal_moves, legal_prefix, lemma_legal_elems};
use crate::search::{legal_at, lemma_legal_source};
use crate::board_laws::{
    capture_sq, castle_rook_sq, lemma_capture_square, lemma_castle_rook_sq,
    lemma_mover_occ_square, lemma_mover_square, lemma_opp_square, lemma_union6_sq,
};
use crate::attacks::{pawn_attacks, lemma_pawn_attacks};
use crate::movegen::{
    castle_move, castle_open, king_moves, moves_to, occupied, pawn_move, pawn_moves,
    pawn_moves_to, pawn_targets, piece_moves, piece_targets, promotes, pseudo_moves,
};

verus! {

/// Sum of `wt` over the squares of `x` among `0..n`.
pub open spec fn weigh(x: u64, wt: spec_fn(int) -> int, n: int) -> int
    decreases n,
{
    if n <= 0 {
        0
    } else {
        weigh(x, wt, n - 1) + if sq_in(x, n - 1) {
            wt(n - 1)
        } else {
            0
        }
    }
}

/// `wt` is never negative on the board.
pub open spec fn nonneg(wt: spec_fn(int) -> int) -> bool {
    forall|i: int| 0 <= i < 64 ==> #[trigger] wt(i) >= 0
}

/// Weighing a bitboard with fewer squares gives no more.
pub proof fn lemma_weigh_mono(x: u64, y: u64, wt: spec_fn(int) -> int, n: int)
    requires
        nonneg(wt),
        n <= 64,
        forall|i: int| #[trigger] sq_in(x, i) ==> sq_in(y, i),
    ensures
        weigh(x, wt, n) <= weigh(y, wt, n),
    decreases n,
{
    if n > 0 {
        lemma_weigh_mono(x, y, wt, n - 1);
        assert(wt(n - 1) >= 0);
    }
}

/// Two bitboards that differ only on square `s`, which `y` holds and `x` does
/// not, weigh `wt(s)` apart.
pub proof fn lemma_weigh_one(x: u64, y: u64, s: int, wt: spec_fn(int) -> int, n: int)
    requires
        0 <= s < 64,
        sq_in(y, s),
        !sq_in(x, s),
        forall|i: int| i != s ==> #[trigger] sq_in(x, i) == sq_in(y, i),
    ensures
        weigh(y, wt, n) == weigh(x, wt, n) + if s < n {
            wt(s)
        } else {
            0
        },
    decreases n,
{
    if n > 0 {
        lemma_weigh_one(x, y, s, wt, n - 1);
        assert(sq_in(x, n - 1) == sq_in(y, n - 1) || n - 1 == s);
    }
}

/// Adding a square the bitboard lacks adds its weight.
pub proof fn lemma_weigh_add(x: u64, s: int, wt: spec_fn(int) -> int)
    requires
        0 <= s < 64,
        !sq_in(x, s),
    ensures
        weigh(x | sq_bb(s), wt, 64) == weigh(x, wt, 64) + wt(s),
{
    broadcast use group_bits;

    lemma_weigh_one(x, x | sq_bb(s), s, wt, 64);
}

/// Removing a square the bitboard holds takes its weight off.
pub proof fn lemma_weigh_remove(x: u64, s: int, wt: spec_fn(int) -> int)
    requires
        0 <= s < 64,
        sq_in(x, s),
    ensures
        weigh(x & !sq_bb(s), wt, 64) == weigh(x, wt, 64) - wt(s),
{
    broadcast use group_bits;

    lemma_weigh_one(x & !sq_bb(s), x, s, wt, 64);
}

/// Adding a square adds at most its weight.
pub proof fn lemma_weigh_add_at_most(x: u64, s: int, wt: spec_fn(int) -> int)
    requires
        0 <= s < 64,
        nonneg(wt),
    ensures
        weigh(x | sq_bb(s), wt, 64) <= weigh(x, wt, 64) + wt(s),
{
    broadcast use group_bits;

    if sq_in(x, s) {
        lemma_weigh_mono(x | sq_bb(s), x, wt, 64);
        assert(wt(s) >= 0);
    } else {
        lemma_weigh_add(x, s, wt);
    }
}


/// `to` lies towards the last rank of side `s`'s pawns from `from`.
pub open spec fn pawn_forward(s: Side, from: int, to: int) -> bool {
    match s {
        Side::White => to / 8 > from / 8,
        Side::Black => to / 8 < from / 8,
    }
}

/// What the generator's moves look like: a real piece moves; a pawn moves
/// towards its last rank; only a pawn promotes, and into a queen, rook,
/// bishop or knight.
pub open spec fn shaped(b: Board, m: Move) -> bool {
    &&& m.piece != Piece::Empty
    &&& (m.piece == Piece::Pawn ==> pawn_forward(b.side, m.from as int, m.to as int))
    &&& (m.piece != Piece::Pawn ==> m.promotion is None)
    &&& (m.promotion matches Some(q) ==> q != Piece::Pawn && q != Piece::Empty && q != Piece::King)
}

/// Every move of `s` is shaped.
pub open spec fn all_shaped(b: Board, s: Seq<Move>) -> bool {
    forall|i: int| 0 <= i < s.len() ==> shaped(b, #[trigger] s[i])
}

proof fn lemma_shaped_concat(b: Board, x: Seq<Move>, y: Seq<Move>)
    requires
        all_shaped(b, x),
        all_shaped(b, y),
    ensures
        all_shaped(b, x + y),
{
    assert forall|i: int| 0 <= i < (x + y).len() implies shaped(b, #[trigger] (x + y)[i]) by {
        if i < x.len() {
            assert((x + y)[i] == x[i]);
        } else {
            assert((x + y)[i] == y[i - x.len()]);
        }
    }
}

proof fn lemma_moves_to_shaped(b: Board, from: int, targets: u64, piece: Piece)
    requires
        piece != Piece::Empty,
        piece != Piece::Pawn,
    ensures
        all_shaped(b, moves_to(from, targets, piece)),
    decreases targets,
{
    if targets != 0 {
        lemma_pop_lowest(targets);
        lemma_moves_to_shaped(b, from, pop_lowest(targets), piece);
        lemma_shaped_concat(
            b,
            seq![plain_move(from as u8, lowest(targets) as u8, piece, None)],
            moves_to(from, pop_lowest(targets), piece),
        );
    }
}

proof fn lemma_piece_moves_shaped(b: Board, froms: u64, piece: Piece)
    requires
        piece != Piece::Empty,
        piece != Piece::Pawn,
    ensures
        all_shaped(b, piece_moves(b, froms, piece)),
    decreases froms,
{
    if froms != 0 {
        lemma_pop_lowest(froms);
        lemma_piece_moves_shaped(b, pop_lowest(froms), piece);
        lemma_moves_to_shaped(b, lowest(froms), piece_targets(b, piece, lowest(froms)), piece);
        lemma_shaped_concat(
            b,
            moves_to(lowest(froms), piece_targets(b, piece, lowest(froms)), piece),
            piece_moves(b, pop_lowest(froms), piece),
        );
    }
}

/// Every square a pawn of the side to move can move to from `sq` lies
/// towards its last rank.
proof fn lemma_pawn_targets_forward(b: Board, sq: int)
    requires
        0 <= sq < 64,
    ensures
        forall|t: int| #[trigger] sq_in(pawn_targets(b, sq), t) ==> pawn_forward(b.side, sq, t),
{
    broadcast use group_bits;

    let up = b.side == Side::White;
    lemma_pawn_attacks(up, sq);
    crate::magic_table::lemma_shift_single(sq as u64, 8);
    crate::magic_table::lemma_shift_single(sq as u64, 16);
    assert forall|t: int| #[trigger] sq_in(pawn_targets(b, sq), t) implies pawn_forward(b.side, sq, t) by {
        if sq_in(pawn_attacks(up, sq), t) {
            assert(crate::attacks::pawn_capture(up, sq, t));
        } else if up {
            if sq + 8 < 64 {
                assert(sq_bb(sq) << 8u64 == sq_bb(sq + 8));
            }
            if sq + 16 < 64 {
                assert(sq_bb(sq) << 16u64 == sq_bb(sq + 16));
            }
        } else {
            if sq >= 8 {
                assert(sq_bb(sq) >> 8u64 == sq_bb(sq - 8));
            }
            if sq >= 16 {
                assert(sq_bb(sq) >> 16u64 == sq_bb(sq - 16));
            }
        }
    }
}

proof fn lemma_pawn_moves_to_shaped(b: Board, from: int, targets: u64)
    requires
        0 <= from < 64,
        forall|t: int| #[trigger] sq_in(targets, t) ==> pawn_forward(b.side, from, t),
    ensures
        all_shaped(b, pawn_moves_to(b, from, targets)),
    decreases targets,
{
    broadcast use group_bits;

    if targets != 0 {
        lemma_pop_lowest(targets);
        lemma_nonzero_has(targets);
        let to = lowest(targets);
        assert(pawn_forward(b.side, from, to));
        assert(to as u8 as int == to && from as u8 as int == from);
        lemma_pawn_moves_to_shaped(b, from, pop_lowest(targets));
        let head = if promotes(b, to) {
            seq![
                pawn_move(b, from, to, Some(Piece::Queen)),
                pawn_move(b, from, to, Some(Piece::Rook)),
                pawn_move(b, from, to, Some(Piece::Bishop)),
                pawn_move(b, from, to, Some(Piece::Knight)),
            ]
        } else {
            seq![pawn_move(b, from, to, None)]
        };
        lemma_shaped_concat(b, head, pawn_moves_to(b, from, pop_lowest(targets)));
    }
}

proof fn lemma_pawn_moves_shaped(b: Board, froms: u64)
    ensures
        all_shaped(b, pawn_moves(b, froms)),
    decreases froms,
{
    if froms != 0 {
        lemma_pop_lowest(froms);
        lemma_nonzero_has(froms);
        lemma_pawn_moves_shaped(b, pop_lowest(froms));
        lemma_pawn_targets_forward(b, lowest(froms));
        lemma_pawn_moves_to_shaped(b, lowest(froms), pawn_targets(b, lowest(froms)));
        lemma_shaped_concat(
            b,
            pawn_moves_to(b, lowest(froms), pawn_targets(b, lowest(froms))),
            pawn_moves(b, pop_lowest(froms)),
        );
    }
}

/// Every pseudo-legal move is shaped.
pub proof fn lemma_pseudo_moves_shaped(b: Board)
    ensures
        all_shaped(b, pseudo_moves(b)),
{
    let p = b.pieces(b.side);
    lemma_pawn_moves_shaped(b, p[5]);
    lemma_piece_moves_shaped(b, p[4], Piece::Knight);
    lemma_piece_moves_shaped(b, p[3], Piece::Bishop);
    lemma_piece_moves_shaped(b, p[2], Piece::Rook);
    lemma_piece_moves_shaped(b, p[1], Piece::Queen);
    let k = p[0];
    if k != 0 {
        let from = lowest(k);
        lemma_moves_to_shaped(b, from, piece_targets(b, Piece::King, from), Piece::King);
        let c1: Seq<Move> = if castle_open(b, true) {
            seq![castle_move(from, from + 2)]
        } else {
            Seq::empty()
        };
        let c2: Seq<Move> = if castle_open(b, false) {
            seq![castle_move(from, from - 2)]
        } else {
            Seq::empty()
        };
        lemma_shaped_concat(b, moves_to(from, piece_targets(b, Piece::King, from), Piece::King), c1);
        lemma_shaped_concat(b, moves_to(from, piece_targets(b, Piece::King, from), Piece::King) + c1, c2);
    }
    assert(all_shaped(b, king_moves(b)));
    let a = pawn_moves(b, p[5]);
    let n = piece_moves(b, p[4], Piece::Knight);
    let bi = piece_moves(b, p[3], Piece::Bishop);
    let r = piece_moves(b, p[2], Piece::Rook);
    let q = piece_moves(b, p[1], Piece::Queen);
    lemma_shaped_concat(b, a, n);
    lemma_shaped_concat(b, a + n, bi);
    lemma_shaped_concat(b, a + n + bi, r);
    lemma_shaped_concat(b, a + n + bi + r, q);
    lemma_shaped_concat(b, a + n + bi + r + q, king_moves(b));
}


/// Weight 1 on every square.
pub open spec fn unit_wt() -> spec_fn(int) -> int {
    |i: int| 1int
}

/// Ranks a white pawn on square `i` still has to go.
pub open spec fn white_pawn_wt() -> spec_fn(int) -> int {
    |i: int| 7 - i / 8
}

/// Ranks a black pawn on square `i` still has to go.
pub open spec fn black_pawn_wt() -> spec_fn(int) -> int {
    |i: int| i / 8
}

/// Number of occupied squares.
pub open spec fn piece_count(b: Board) -> int {
    weigh(occupied(b), unit_wt(), 64)
}

/// Ranks the pawns of both sides still have to go.
pub open spec fn pawn_distance(b: Board) -> int {
    weigh(b.white[5], white_pawn_wt(), 64) + weigh(b.black[5], black_pawn_wt(), 64)
}

/// What must still happen before only quiet moves are left: the occupied
/// squares plus the ranks the pawns still have to go.
pub open spec fn material(b: Board) -> int {
    piece_count(b) + pawn_distance(b)
}

pub proof fn lemma_meets_single(x: u64, s: int)
    requires
        0 <= s < 64,
        x & sq_bb(s) != 0,
    ensures
        sq_in(x, s),
{
    broadcast use group_bits;

    lemma_and_zero(x, sq_bb(s));
}

pub proof fn lemma_misses_single(x: u64, s: int)
    requires
        0 <= s < 64,
        x & sq_bb(s) == 0,
    ensures
        !sq_in(x, s),
{
    broadcast use group_bits;

    lemma_and_zero(x, sq_bb(s));
}

/// Bitboards with the same squares weigh the same.
proof fn lemma_weigh_same(x: u64, y: u64, wt: spec_fn(int) -> int)
    requires
        nonneg(wt),
        forall|i: int| #[trigger] sq_in(x, i) == sq_in(y, i),
    ensures
        weigh(x, wt, 64) == weigh(y, wt, 64),
{
    lemma_weigh_mono(x, y, wt, 64);
    lemma_weigh_mono(y, x, wt, 64);
}

proof fn lemma_weights_nonneg()
    ensures
        nonneg(unit_wt()),
        nonneg(white_pawn_wt()),
        nonneg(black_pawn_wt()),
{
}

/// What a move that fits the board starts from: its piece stands on `from`,
/// its own side holds neither `to` nor the castling rook's target, the rook
/// stands where it starts, and a capture takes a square of the other side.
pub proof fn lemma_fits_squares(b: Board, m: Move)
    requires
        b.wf(),
        move_fits(b, m),
    ensures
        ({
            let s = b.side;
            let mo = b.occupancy(s);
            let oo = b.occupancy(opposite(s));
            let (fa, ta) = castle_rook_sq(m.to as int);
            &&& sq_in(b.pieces(s)[piece_index(m.piece)], m.from as int)
            &&& sq_in(mo, m.from as int)
            &&& !sq_in(oo, m.from as int)
            &&& !sq_in(mo, m.to as int)
            &&& 0 <= m.from < 64
            &&& 0 <= m.to < 64
            &&& (m.is_castle && fa >= 0 ==> sq_in(b.pieces(s)[2], fa) && sq_in(mo, fa) && !sq_in(mo, ta)
                && !sq_in(oo, fa) && fa != m.from && 0 <= fa < 64 && 0 <= ta < 64 && ta != m.to)
            &&& (capture_square(s, m) & oo != 0 ==> 0 <= capture_sq(s, m) < 64 && sq_in(
                oo,
                capture_sq(s, m),
            ) && !sq_in(mo, capture_sq(s, m)))
        }),
{
    broadcast use group_bits;

    let s = b.side;
    let p = b.pieces(s);
    let mo = b.occupancy(s);
    let oo = b.occupancy(opposite(s));
    let f = m.from as int;
    let t = m.to as int;
    lemma_meets_single(p[piece_index(m.piece)], f);
    lemma_union6_sq(p, f);
    assert(b.white_bb & b.black_bb == 0);
    crate::bits::lemma_bit_basics(b.white_bb, b.black_bb, 0);
    assert(mo & oo == 0);
    assert(sq_in(mo & oo, f) == (sq_in(mo, f) && sq_in(oo, f)));
    lemma_misses_single(mo, t);
    lemma_castle_rook_sq(t);
    lemma_capture_square(s, m);
    let (fa, ta) = castle_rook_sq(t);
    if m.is_castle && fa >= 0 {
        lemma_meets_single(p[2], fa);
        lemma_union6_sq(p, fa);
        lemma_misses_single(mo, ta);
        assert(sq_in(mo & oo, fa) == (sq_in(mo, fa) && sq_in(oo, fa)));
        if fa == f {
            assert(p[0] & p[2] == 0);
            assert(sq_in(p[0] & p[2], f));
        }
    }
    if capture_square(s, m) & oo != 0 {
        let c = capture_sq(s, m);
        crate::bits::lemma_bit_basics(0, oo, 0);
        assert(c >= 0);
        crate::bits::lemma_bit_basics(sq_bb(c), oo, 0);
        lemma_meets_single(oo, c);
        assert(sq_in(mo & oo, c) == (sq_in(mo, c) && sq_in(oo, c)));
    }
}

/// A move that fits the board leaves at most as many occupied squares, and
/// fewer when it takes a piece.
pub proof fn lemma_count_drops(b: Board, m: Move)
    requires
        b.wf(),
        move_fits(b, m),
    ensures
        piece_count(after_move(b, m)) <= piece_count(b),
        capture_square(b.side, m) & b.occupancy(opposite(b.side)) != 0 ==> piece_count(
            after_move(b, m),
        ) < piece_count(b),
{
    broadcast use group_bits;

    let s = b.side;
    let o = opposite(s);
    let a = after_move(b, m);
    let u = occupied(b);
    let f = m.from as int;
    let t = m.to as int;
    let hit = capture_square(s, m) & b.occupancy(o) != 0;
    let c = capture_sq(s, m);
    lemma_fits_squares(b, m);
    lemma_castle_rook_sq(t);
    let (fa, ta) = castle_rook_sq(t);
    let rook = m.is_castle && fa >= 0;
    let unit = unit_wt();
    lemma_weights_nonneg();
    let v0 = u & !sq_bb(f);
    let v1 = if rook {
        v0 & !sq_bb(fa)
    } else {
        v0
    };
    let v2 = if hit {
        v1 & !sq_bb(c)
    } else {
        v1
    };
    let w1 = v2 | sq_bb(t);
    let w2 = if rook {
        w1 | sq_bb(ta)
    } else {
        w1
    };
    assert(sq_in(u, f));
    lemma_weigh_remove(u, f, unit);
    if rook {
        assert(sq_in(v0, fa));
        lemma_weigh_remove(v0, fa, unit);
    }
    if hit {
        assert(sq_in(v1, c));
        lemma_weigh_remove(v1, c, unit);
    }
    lemma_weigh_add_at_most(v2, t, unit);
    if rook {
        lemma_weigh_add_at_most(w1, ta, unit);
    }
    assert forall|j: int| #[trigger] sq_in(occupied(a), j) implies sq_in(w2, j) by {
        assert(0 <= j < 64);
        lemma_mover_occ_square(b, m, j);
        lemma_opp_square(b, m, 0, j);
        assert(sq_in(occupied(a), j) == (sq_in(a.occupancy(s), j) || sq_in(a.occupancy(o), j)));
        assert(sq_in(u, j) == (sq_in(b.occupancy(s), j) || sq_in(b.occupancy(o), j)));
    }
    lemma_weigh_mono(occupied(a), w2, unit, 64);
}


/// The pawns' distance over `wt` for the mover's pawns `before` and `after` a
/// pawn move from `f` to `t`: without promotion the pawn's square moves, with
/// one the pawn is gone.
proof fn lemma_pawn_step(before: u64, after: u64, f: int, t: int, promoted: bool, wt: spec_fn(int) -> int)
    requires
        nonneg(wt),
        0 <= f < 64,
        0 <= t < 64,
        f != t,
        sq_in(before, f),
        !sq_in(before, t),
        forall|j: int|
            #[trigger] sq_in(after, j) == if j == t {
                !promoted
            } else if j == f {
                false
            } else {
                sq_in(before, j)
            },
    ensures
        weigh(after, wt, 64) == weigh(before, wt, 64) - wt(f) + if promoted {
            0
        } else {
            wt(t)
        },
{
    broadcast use group_bits;

    let v = before & !sq_bb(f);
    lemma_weigh_remove(before, f, wt);
    if promoted {
        lemma_weigh_same(after, v, wt);
    } else {
        lemma_weigh_add(v, t, wt);
        lemma_weigh_same(after, v | sq_bb(t), wt);
    }
}

/// A move of the generator's shape that fits the board never takes a pawn
/// further from its last rank, and a pawn move brings one closer (or
/// promotes it).
pub proof fn lemma_pawns_drop(b: Board, m: Move)
    requires
        b.wf(),
        move_fits(b, m),
        shaped(b, m),
    ensures
        pawn_distance(after_move(b, m)) <= pawn_distance(b),
        m.piece == Piece::Pawn ==> pawn_distance(after_move(b, m)) < pawn_distance(b),
{
    broadcast use group_bits;

    let s = b.side;
    let o = opposite(s);
    let a = after_move(b, m);
    let f = m.from as int;
    let t = m.to as int;
    lemma_fits_squares(b, m);
    lemma_weights_nonneg();
    let (mw, ow) = if s == Side::White {
        (white_pawn_wt(), black_pawn_wt())
    } else {
        (black_pawn_wt(), white_pawn_wt())
    };
    let p5 = b.pieces(s)[5];
    let q5 = b.pieces(o)[5];
    let p5a = a.pieces(s)[5];
    let q5a = a.pieces(o)[5];
    assert(a.pieces(s) == moved_pieces(b.pieces(s), m));
    assert(b.occupancy(s) == union6(b.pieces(s)));
    assert forall|j: int| #[trigger] sq_in(q5a, j) implies sq_in(q5, j) by {
        assert(0 <= j < 64);
        lemma_opp_square(b, m, 5, j);
    }
    lemma_weigh_mono(q5a, q5, ow, 64);
    if m.piece == Piece::Pawn {
        let promoted = m.promotion is Some;
        assert(!sq_in(p5, t)) by {
            lemma_union6_sq(b.pieces(s), t);
        }
        assert forall|j: int| #[trigger] sq_in(p5a, j) == if j == t {
            !promoted
        } else if j == f {
            false
        } else {
            sq_in(p5, j)
        } by {
            if 0 <= j < 64 {
                lemma_mover_square(b, m, 5, j);
                lemma_castle_rook_sq(t);
            }
        }
        lemma_pawn_step(p5, p5a, f, t, promoted, mw);
        assert(mw(t) < mw(f) && mw(f) >= 1);
    } else {
        assert forall|j: int| #[trigger] sq_in(p5a, j) == sq_in(p5, j) by {
            if 0 <= j < 64 {
                lemma_mover_square(b, m, 5, j);
                lemma_castle_rook_sq(t);
                lemma_union6_sq(b.pieces(s), j);
                if j == f {
                    assert(b.pieces(s)[piece_index(m.piece)] & b.pieces(s)[5] == 0);
                    assert(sq_in(b.pieces(s)[piece_index(m.piece)] & b.pieces(s)[5], j) == (sq_in(
                        b.pieces(s)[piece_index(m.piece)],
                        j,
                    ) && sq_in(b.pieces(s)[5], j)));
                }
                let (fa, ta) = castle_rook_sq(t);
                if m.is_castle && fa >= 0 && j == fa {
                    assert(b.pieces(s)[2] & b.pieces(s)[5] == 0);
                    assert(sq_in(b.pieces(s)[2] & b.pieces(s)[5], j) == (sq_in(b.pieces(s)[2], j)
                        && sq_in(b.pieces(s)[5], j)));
                }
            }
        }
        lemma_weigh_same(p5a, p5, mw);
    }
}

/// What must still happen before only quiet moves are left never grows with
/// a move of the generator's shape that fits the board, and shrinks with a
/// capture or a pawn move.
pub proof fn lemma_material_drops(b: Board, m: Move)
    requires
        b.wf(),
        move_fits(b, m),
        shaped(b, m),
    ensures
        material(after_move(b, m)) <= material(b),
        (taken_index(b, m) < 6 || m.piece == Piece::Pawn) ==> material(after_move(b, m)) < material(
            b,
        ),
{
    lemma_count_drops(b, m);
    lemma_pawns_drop(b, m);
    let o = opposite(b.side);
    if taken_index(b, m) < 6 {
        assert(capture_square(b.side, m) & b.occupancy(o) != 0);
    }
}


/// A weighing with weights that are never negative is never negative.
proof fn lemma_weigh_nonneg(x: u64, wt: spec_fn(int) -> int, n: int)
    requires
        nonneg(wt),
        n <= 64,
    ensures
        weigh(x, wt, n) >= 0,
    decreases n,
{
    if n > 0 {
        lemma_weigh_nonneg(x, wt, n - 1);
        assert(wt(n - 1) >= 0);
    }
}

/// Quiet moves left before the fifty-move rule ends the game.
pub open spec fn clock_left(b: Board) -> int {
    if b.half_move >= 50 {
        0
    } else {
        50 - b.half_move
    }
}

/// A bound on the moves left in a game from `b`: each capture or pawn move
/// lowers the material, and between two of them at most fifty quiet moves
/// are played.
#[verifier::opaque]
pub open spec fn moves_left_bound(b: Board) -> int {
    material(b) * 51 + clock_left(b)
}

/// A game in the normal state has played fewer than fifty quiet moves in a row.
pub open spec fn clock_ok(b: Board) -> bool {
    b.state == GameState::Normal ==> b.half_move < 50
}

/// Every move shortens the game: a move of the generator's shape that fits a
/// board in play lowers the bound on the moves left, and leaves a board that
/// is either over or still has fewer than fifty quiet moves in a row.
pub proof fn lemma_move_shortens_game(b: Board, m: Move)
    requires
        b.wf(),
        b.state == GameState::Normal,
        b.half_move < 50,
        move_fits(b, m),
        shaped(b, m),
    ensures
        0 <= moves_left_bound(after_move(b, m)) < moves_left_bound(b),
        clock_ok(after_move(b, m)),
{
    reveal(moves_left_bound);
    let a = after_move(b, m);
    lemma_material_drops(b, m);
    lemma_weights_nonneg();
    lemma_weigh_nonneg(occupied(a), unit_wt(), 64);
    lemma_weigh_nonneg(a.white[5], white_pawn_wt(), 64);
    lemma_weigh_nonneg(a.black[5], black_pawn_wt(), 64);
    assert(material(a) >= 0);
    if taken_index(b, m) < 6 || m.piece == Piece::Pawn {
        assert(a.half_move == 0);
        assert(material(a) * 51 <= material(b) * 51 - 51) by (nonlinear_arith)
            requires
                material(a) <= material(b) - 1,
        ;
    } else {
        assert(a.half_move == b.half_move + 1);
        assert(material(a) * 51 <= material(b) * 51) by (nonlinear_arith)
            requires
                material(a) <= material(b),
        ;
    }
    assert(material(a) * 51 >= 0) by (nonlinear_arith)
        requires
            material(a) >= 0,
    ;
}

/// Every legal move of a board in play shortens the game.
pub proof fn lemma_legal_move_shortens_game(b: Board, k: int)
    requires
        b.wf(),
        b.state == GameState::Normal,
        b.half_move < 50,
        forall|i: int| 0 <= i < pseudo_moves(b).len() ==> check_ok(b, #[trigger] pseudo_moves(b)[i]),
        0 <= k < legal_moves(b).len(),
    ensures
        0 <= moves_left_bound(after_move(b, legal_moves(b)[k])) < moves_left_bound(b),
        clock_ok(after_move(b, legal_moves(b)[k])),
{
    let ps = pseudo_moves(b);
    lemma_legal_elems(b, ps, ps.len() as int);
    lemma_legal_source(b, ps.len() as int, k);
    let j = choose|j: int|
        0 <= j < ps.len() && #[trigger] legal_at(b, j) && legal_prefix(b, ps, ps.len() as int)[k]
            == moved(b, ps[j]);
    lemma_pseudo_moves_shaped(b);
    assert(shaped(b, ps[j]));
    let m = legal_moves(b)[k];
    assert(check_ok(b, m));
    assert(shaped(b, m));
    lemma_move_shortens_game(b, m);
}


/// The bound on the moves left is never negative.
pub proof fn lemma_bound_nonneg(b: Board)
    ensures
        moves_left_bound(b) >= 0,
{
    reveal(moves_left_bound);
    lemma_weights_nonneg();
    lemma_weigh_nonneg(occupied(b), unit_wt(), 64);
    lemma_weigh_nonneg(b.white[5], white_pawn_wt(), 64);
    lemma_weigh_nonneg(b.black[5], black_pawn_wt(), 64);
    assert(material(b) * 51 >= 0) by (nonlinear_arith)
        requires
            material(b) >= 0,
    ;
}


/// `m` promoting into `q` instead.
pub open spec fn promoting_to(m: Move, q: Piece) -> Move {
    Move { promotion: Some(q), ..m }
}

/// A pawn move promotes exactly when it reaches the first or the last rank.
pub open spec fn promotes_at_edge(m: Move) -> bool {
    m.piece == Piece::Pawn ==> (m.promotion is Some <==> (m.to < 8 || m.to >= 56))
}

/// Every move of `s` promotes exactly when a pawn reaches the first or last rank.
pub open spec fn all_promote_at_edge(s: Seq<Move>) -> bool {
    forall|i: int| 0 <= i < s.len() ==> promotes_at_edge(#[trigger] s[i])
}

/// Each promotion in `s` comes with the same move promoting into a queen, a
/// rook, a bishop and a knight.
pub open spec fn promotions_complete(s: Seq<Move>) -> bool {
    forall|i: int|
        0 <= i < s.len() && (#[trigger] s[i]).promotion is Some ==> s.contains(
            promoting_to(s[i], Piece::Queen),
        ) && s.contains(promoting_to(s[i], Piece::Rook)) && s.contains(
            promoting_to(s[i], Piece::Bishop),
        ) && s.contains(promoting_to(s[i], Piece::Knight))
}

/// No move of `s` promotes.
pub open spec fn no_promotions(s: Seq<Move>) -> bool {
    forall|i: int| 0 <= i < s.len() ==> (#[trigger] s[i]).promotion is None
}

proof fn lemma_promotions_concat(x: Seq<Move>, y: Seq<Move>)
    requires
        all_promote_at_edge(x),
        all_promote_at_edge(y),
        promotions_complete(x),
        promotions_complete(y),
    ensures
        all_promote_at_edge(x + y),
        promotions_complete(x + y),
{
    let z = x + y;
    assert forall|i: int| 0 <= i < z.len() implies promotes_at_edge(#[trigger] z[i]) by {
        if i < x.len() {
            assert(z[i] == x[i]);
        } else {
            assert(z[i] == y[i - x.len()]);
        }
    }
    assert forall|i: int| 0 <= i < z.len() && (#[trigger] z[i]).promotion is Some implies z.contains(
        promoting_to(z[i], Piece::Queen),
    ) && z.contains(promoting_to(z[i], Piece::Rook)) && z.contains(promoting_to(z[i], Piece::Bishop))
        && z.contains(promoting_to(z[i], Piece::Knight)) by {
        if i < x.len() {
            assert(z[i] == x[i]);
            assert forall|e: Move| x.contains(e) implies z.contains(e) by {
                let j = choose|j: int| 0 <= j < x.len() && x[j] == e;
                assert(z[j] == e);
            }
        } else {
            assert(z[i] == y[i - x.len()]);
            assert forall|e: Move| y.contains(e) implies z.contains(e) by {
                let j = choose|j: int| 0 <= j < y.len() && y[j] == e;
                assert(z[j + x.len()] == e);
            }
        }
    }
}

proof fn lemma_no_promotions(s: Seq<Move>)
    requires
        no_promotions(s),
        forall|i: int| 0 <= i < s.len() ==> (#[trigger] s[i]).piece != Piece::Pawn,
    ensures
        all_promote_at_edge(s),
        promotions_complete(s),
{
}

proof fn lemma_moves_to_plain(from: int, targets: u64, piece: Piece)
    requires
        piece != Piece::Pawn,
    ensures
        no_promotions(moves_to(from, targets, piece)),
        forall|i: int|
            0 <= i < moves_to(from, targets, piece).len() ==> (#[trigger] moves_to(from, targets, piece)[i]).piece
                == piece,
    decreases targets,
{
    if targets != 0 {
        lemma_pop_lowest(targets);
        lemma_moves_to_plain(from, pop_lowest(targets), piece);
        let h = seq![plain_move(from as u8, lowest(targets) as u8, piece, None)];
        let t = moves_to(from, pop_lowest(targets), piece);
        assert forall|i: int| 0 <= i < (h + t).len() implies (#[trigger] (h + t)[i]).promotion is None
            && (h + t)[i].piece == piece by {
            if i > 0 {
                assert((h + t)[i] == t[i - 1]);
            }
        }
    }
}

proof fn lemma_piece_moves_plain(b: Board, froms: u64, piece: Piece)
    requires
        piece != Piece::Pawn,
    ensures
        all_promote_at_edge(piece_moves(b, froms, piece)),
        promotions_complete(piece_moves(b, froms, piece)),
    decreases froms,
{
    if froms != 0 {
        lemma_pop_lowest(froms);
        lemma_piece_moves_plain(b, pop_lowest(froms), piece);
        let from = lowest(froms);
        lemma_moves_to_plain(from, piece_targets(b, piece, from), piece);
        lemma_no_promotions(moves_to(from, piece_targets(b, piece, from), piece));
        lemma_promotions_concat(
            moves_to(from, piece_targets(b, piece, from), piece),
            piece_moves(b, pop_lowest(froms), piece),
        );
    }
}

proof fn lemma_pawn_moves_to_promote(b: Board, from: int, targets: u64)
    requires
        0 <= from < 64,
        forall|t: int| #[trigger] sq_in(targets, t) ==> pawn_forward(b.side, from, t),
    ensures
        all_promote_at_edge(pawn_moves_to(b, from, targets)),
        promotions_complete(pawn_moves_to(b, from, targets)),
    decreases targets,
{
    broadcast use group_bits;

    if targets != 0 {
        lemma_pop_lowest(targets);
        lemma_nonzero_has(targets);
        let to = lowest(targets);
        assert(pawn_forward(b.side, from, to));
        assert(to as u8 as int == to && from as u8 as int == from);
        lemma_pawn_moves_to_promote(b, from, pop_lowest(targets));
        let head = if promotes(b, to) {
            seq![
                pawn_move(b, from, to, Some(Piece::Queen)),
                pawn_move(b, from, to, Some(Piece::Rook)),
                pawn_move(b, from, to, Some(Piece::Bishop)),
                pawn_move(b, from, to, Some(Piece::Knight)),
            ]
        } else {
            seq![pawn_move(b, from, to, None)]
        };
        assert(all_promote_at_edge(head));
        if promotes(b, to) {
            assert forall|i: int| 0 <= i < head.len() && (#[trigger] head[i]).promotion is Some implies head.contains(
                promoting_to(head[i], Piece::Queen),
            ) && head.contains(promoting_to(head[i], Piece::Rook)) && head.contains(
                promoting_to(head[i], Piece::Bishop),
            ) && head.contains(promoting_to(head[i], Piece::Knight)) by {
                assert(promoting_to(head[i], Piece::Queen) == head[0]);
                assert(promoting_to(head[i], Piece::Rook) == head[1]);
                assert(promoting_to(head[i], Piece::Bishop) == head[2]);
                assert(promoting_to(head[i], Piece::Knight) == head[3]);
            }
        }
        assert(promotions_complete(head));
        lemma_promotions_concat(head, pawn_moves_to(b, from, pop_lowest(targets)));
    }
}

proof fn lemma_pawn_moves_promote(b: Board, froms: u64)
    ensures
        all_promote_at_edge(pawn_moves(b, froms)),
        promotions_complete(pawn_moves(b, froms)),
    decreases froms,
{
    if froms != 0 {
        lemma_pop_lowest(froms);
        lemma_nonzero_has(froms);
        lemma_pawn_moves_promote(b, pop_lowest(froms));
        lemma_pawn_targets_forward(b, lowest(froms));
        lemma_pawn_moves_to_promote(b, lowest(froms), pawn_targets(b, lowest(froms)));
        lemma_promotions_concat(
            pawn_moves_to(b, lowest(froms), pawn_targets(b, lowest(froms))),
            pawn_moves(b, pop_lowest(froms)),
        );
    }
}

/// Pawns promote on the last rank, into every piece: among the pseudo-legal
/// moves, a pawn move promotes exactly when it reaches the first or the last
/// rank, and each promotion comes with the same move promoting into a queen, a
/// rook, a bishop and a knight.
pub proof fn lemma_pseudo_moves_promote(b: Board)
    ensures
        forall|i: int|
            0 <= i < pseudo_moves(b).len() && (#[trigger] pseudo_moves(b)[i]).piece == Piece::Pawn ==> (
            pseudo_moves(b)[i].promotion is Some <==> (pseudo_moves(b)[i].to < 8
                || pseudo_moves(b)[i].to >= 56)),
        promotions_complete(pseudo_moves(b)),
{
    let p = b.pieces(b.side);
    lemma_pawn_moves_promote(b, p[5]);
    lemma_piece_moves_plain(b, p[4], Piece::Knight);
    lemma_piece_moves_plain(b, p[3], Piece::Bishop);
    lemma_piece_moves_plain(b, p[2], Piece::Rook);
    lemma_piece_moves_plain(b, p[1], Piece::Queen);
    let k = p[0];
    if k != 0 {
        let from = lowest(k);
        let steps = moves_to(from, piece_targets(b, Piece::King, from), Piece::King);
        lemma_moves_to_plain(from, piece_targets(b, Piece::King, from), Piece::King);
        lemma_no_promotions(steps);
        let c1: Seq<Move> = if castle_open(b, true) {
            seq![castle_move(from, from + 2)]
        } else {
            Seq::empty()
        };
        let c2: Seq<Move> = if castle_open(b, false) {
            seq![castle_move(from, from - 2)]
        } else {
            Seq::empty()
        };
        lemma_no_promotions(c1);
        lemma_no_promotions(c2);
        lemma_promotions_concat(steps, c1);
        lemma_promotions_concat(steps + c1, c2);
        assert(king_moves(b) == steps + c1 + c2);
    }
    assert(all_promote_at_edge(king_moves(b)) && promotions_complete(king_moves(b)));
    let a = pawn_moves(b, p[5]);
    let n = piece_moves(b, p[4], Piece::Knight);
    let bi = piece_moves(b, p[3], Piece::Bishop);
    let r = piece_moves(b, p[2], Piece::Rook);
    let q = piece_moves(b, p[1], Piece::Queen);
    lemma_promotions_concat(a, n);
    lemma_promotions_concat(a + n, bi);
    lemma_promotions_concat(a + n + bi, r);
    lemma_promotions_concat(a + n + bi + r, q);
    lemma_promotions_concat(a + n + bi + r + q, king_moves(b));
    let ps = pseudo_moves(b);
    assert forall|i: int| 0 <= i < ps.len() && (#[trigger] ps[i]).piece == Piece::Pawn implies (
    ps[i].promotion is Some <==> (ps[i].to < 8 || ps[i].to >= 56)) by {
        assert(promotes_at_edge(ps[i]));
    }
}

} // verus!
