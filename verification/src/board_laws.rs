//! Laws of the board: what `unmake_move` does to what `make_move` did, which
//! consistency of the bitboards every move keeps, that castling rights only
//! go away, and that the initial position is consistent.
use vstd::prelude::*;
use crate::bits::{sq_in, sq_bb, group_bits};
use crate::board::{
    Bitboard, Board, GameState, Move, after_move, can_make, can_unmake, capture_square, castle_rook,
    first_hit, move_fits, moved, moved_pieces, opposite, piece_at_index, piece_index, taken_index,
    undo_of, union6, unmade, start_white, start_black, disjoint6, Side, moved_occupancy,
    move_in_range, moved_rights, rook_right, side_rights, Piece,
};

verus! {

proof fn lemma_step_back(x: u64, f: u64, t: u64)
    by (bit_vector)
    requires
        x & f == f,
        x & t == 0,
    ensures
        (((x & !f) | t) & !t) | f == x,
        (((((x & !f) | t) & !t) & !t) | f) == x,
        (((((((x & !f) | t) & !t) | t) & !t) | f) & !t) == x,
{
}

proof fn lemma_add_back(y: u64, t: u64)
    by (bit_vector)
    ensures
        y & t == 0 ==> (y | t) & !t == y,
        y & t == t ==> (y & !t) | t == y,
{
}

proof fn lemma_castle_occupancy_back(s: u64, f: u64, t: u64, fr: u64, tr: u64)
    by (bit_vector)
    requires
        s & f == f,
        s & t == 0,
        s & fr == fr,
        s & tr == 0,
        f & fr == 0,
        t & tr == 0,
    ensures
        ((((((((s & !f) | t) & !fr) | tr) & !t) | f) & !tr) | fr) == s,
{
}

proof fn lemma_single_bit(x: u64, a: u64)
    by (bit_vector)
    requires
        a < 64,
    ensures
        x & (1u64 << a) != 0 ==> x & (1u64 << a) == (1u64 << a),
        (1u64 << a) & x != 0 ==> x & (1u64 << a) == (1u64 << a),
        ((1u64 << a) >> 8u64) & x != 0 ==> x & ((1u64 << a) >> 8u64) == ((1u64 << a) >> 8u64),
        ((1u64 << a) << 8u64) & x != 0 ==> x & ((1u64 << a) << 8u64) == ((1u64 << a) << 8u64),
        x & ((1u64 << a) >> 8u64) != 0 ==> x & ((1u64 << a) >> 8u64) == ((1u64 << a) >> 8u64),
        x & ((1u64 << a) << 8u64) != 0 ==> x & ((1u64 << a) << 8u64) == ((1u64 << a) << 8u64),
{
}

proof fn lemma_union_parts(a0: u64, a1: u64, a2: u64, a3: u64, a4: u64, a5: u64, t: u64)
    by (bit_vector)
    ensures
        (a0 | a1 | a2 | a3 | a4 | a5) & t == 0 ==> a0 & t == 0 && a1 & t == 0 && a2 & t == 0 && a3
            & t == 0 && a4 & t == 0 && a5 & t == 0,
        (a0 | a1 | a2 | a3 | a4 | a5) & t != 0 ==> a0 & t != 0 || a1 & t != 0 || a2 & t != 0 || a3
            & t != 0 || a4 & t != 0 || a5 & t != 0,
        a0 & t == t ==> (a0 | a1 | a2 | a3 | a4 | a5) & t == t,
        a1 & t == t ==> (a0 | a1 | a2 | a3 | a4 | a5) & t == t,
        a2 & t == t ==> (a0 | a1 | a2 | a3 | a4 | a5) & t == t,
        a3 & t == t ==> (a0 | a1 | a2 | a3 | a4 | a5) & t == t,
        a4 & t == t ==> (a0 | a1 | a2 | a3 | a4 | a5) & t == t,
        a5 & t == t ==> (a0 | a1 | a2 | a3 | a4 | a5) & t == t,
{
}

proof fn lemma_disjoint_parts(k: u64, r: u64, f: u64, fr: u64)
    by (bit_vector)
    requires
        k & r == 0,
        k & f == f,
        r & fr == fr,
    ensures
        f & fr == 0,
{
}

pub proof fn lemma_first_hit_nonneg(o: [Bitboard; 6], t: Bitboard)
    ensures
        0 <= first_hit(o, t, 0) <= 6,
{
    lemma_first_hit_range(o, t, 0);
}

proof fn lemma_first_hit_range(o: [Bitboard; 6], t: Bitboard, i: int)
    requires
        0 <= i,
    ensures
        i <= first_hit(o, t, i) <= 6 || first_hit(o, t, i) == 6,
        0 <= first_hit(o, t, i) <= 6,
    decreases 6 - i,
{
    if i < 6 {
        lemma_first_hit_range(o, t, i + 1);
    }
}

proof fn lemma_piece_index_roundtrip(k: int)
    requires
        0 <= k < 6,
    ensures
        piece_index(piece_at_index(k)) == k,
{
}

/// A square that a side's occupancy holds is held by one of its piece bitboards.
pub proof fn lemma_first_hit_found(o: [Bitboard; 6], t: Bitboard)
    requires
        t & union6(o) != 0,
    ensures
        first_hit(o, t, 0) < 6,
        o[first_hit(o, t, 0)] & t != 0,
{
    reveal_with_fuel(first_hit, 7);
    lemma_union_parts(o[0], o[1], o[2], o[3], o[4], o[5], t);
    crate::bits::lemma_bit_basics(union6(o), t, 0);
}

/// The single-square bitboards of the castling squares, and the bitboards of
/// the starting position.
proof fn lemma_board_constants()
    by (bit_vector)
    ensures
        1u64 << 0u64 == 1u64,
        1u64 << 3u64 == 8u64,
        1u64 << 5u64 == 32u64,
        1u64 << 7u64 == 128u64,
        1u64 << 56u64 == 0x100000000000000u64,
        1u64 << 59u64 == 0x800000000000000u64,
        1u64 << 61u64 == 0x2000000000000000u64,
        1u64 << 63u64 == 0x8000000000000000u64,
        (1u64 << 2u64) & 8u64 == 0,
        (1u64 << 6u64) & 32u64 == 0,
        (1u64 << 58u64) & 0x800000000000000u64 == 0,
        (1u64 << 62u64) & 0x2000000000000000u64 == 0,
        16u64 | 8u64 | 129u64 | 36u64 | 66u64 | 65280u64 == 65535u64,
        1152921504606846976u64 | 576460752303423488u64 | 9295429630892703744u64
            | 2594073385365405696u64 | 4755801206503243776u64 | 71776119061217280u64
            == 18446462598732840960u64,
        65535u64 & 18446462598732840960u64 == 0,
        16u64 & 8u64 == 0 && 16u64 & 129u64 == 0 && 16u64 & 36u64 == 0 && 16u64 & 66u64 == 0
            && 16u64 & 65280u64 == 0 && 8u64 & 129u64 == 0 && 8u64 & 36u64 == 0 && 8u64 & 66u64 == 0
            && 8u64 & 65280u64 == 0 && 129u64 & 36u64 == 0 && 129u64 & 66u64 == 0 && 129u64
            & 65280u64 == 0 && 36u64 & 66u64 == 0 && 36u64 & 65280u64 == 0 && 66u64 & 65280u64 == 0,
        1152921504606846976u64 & 576460752303423488u64 == 0 && 1152921504606846976u64
            & 9295429630892703744u64 == 0 && 1152921504606846976u64 & 2594073385365405696u64 == 0
            && 1152921504606846976u64 & 4755801206503243776u64 == 0 && 1152921504606846976u64
            & 71776119061217280u64 == 0 && 576460752303423488u64 & 9295429630892703744u64 == 0
            && 576460752303423488u64 & 2594073385365405696u64 == 0 && 576460752303423488u64
            & 4755801206503243776u64 == 0 && 576460752303423488u64 & 71776119061217280u64 == 0
            && 9295429630892703744u64 & 2594073385365405696u64 == 0 && 9295429630892703744u64
            & 4755801206503243776u64 == 0 && 9295429630892703744u64 & 71776119061217280u64 == 0
            && 2594073385365405696u64 & 4755801206503243776u64 == 0 && 2594073385365405696u64
            & 71776119061217280u64 == 0 && 4755801206503243776u64 & 71776119061217280u64 == 0,
{
}

/// The castling rook squares never coincide with the king's destination.
proof fn lemma_castle_rook_apart(to: int)
    requires
        0 <= to < 64,
    ensures
        sq_bb(to) & castle_rook(to).1 == 0,
{
    lemma_board_constants();
    crate::bits::lemma_bit_basics(sq_bb(to), 0, 0);
}

/// Taking back a move restores the board it was played on: for a board whose
/// bitboards agree, in the normal state, and a move that fits it,
/// `unmake_move` after `make_move` gives back the board as it was.
pub proof fn lemma_unmake_undoes_make(b: Board, m: Move)
    requires
        b.wf(),
        b.state == GameState::Normal,
        move_fits(b, m),
        can_make(b, m),
    ensures
        can_unmake(after_move(b, m), moved(b, m)),
        unmade(after_move(b, m), moved(b, m), undo_of(b)) == b,
{
    let s = b.side;
    let o = opposite(s);
    let a = after_move(b, m);
    let mm = moved(b, m);
    let r = unmade(a, mm, undo_of(b));
    let f = sq_bb(m.from as int);
    let t = sq_bb(m.to as int);
    let i = piece_index(m.piece);
    let p = b.pieces(s);
    let occ = b.occupancy(s);
    lemma_single_bit(p[i], m.from as u64);
    lemma_single_bit(occ, m.from as u64);
    assert(occ == union6(p));
    lemma_union_parts(p[0], p[1], p[2], p[3], p[4], p[5], t);
    lemma_union_parts(p[0], p[1], p[2], p[3], p[4], p[5], f);
    assert(occ & f == f);
    // The mover's pieces come back.
    let mp = moved_pieces(p, m);
    let rp = r.pieces(s);
    assert(a.pieces(s) == mp);
    assert(r.pieces(s) =~= p) by {
        if m.is_castle {
            let (fr, tr) = castle_rook(m.to as int);
            assert(i == 0);
            lemma_step_back(p[0], f, t);
            lemma_union_parts(p[0], p[1], p[2], p[3], p[4], p[5], tr);
            lemma_single_bit(p[2], 0);
            if fr != 0 {
                assert(p[2] & fr == fr) by {
                    lemma_board_constants();
                    if m.to == 2 {
                        lemma_single_bit(p[2], 0);
                    } else if m.to == 6 {
                        lemma_single_bit(p[2], 7);
                    } else if m.to == 58 {
                        lemma_single_bit(p[2], 56);
                    } else {
                        lemma_single_bit(p[2], 63);
                    }
                }
                lemma_step_back(p[2], fr, tr);
            } else {
                assert(tr == 0);
                crate::bits::lemma_bit_basics(p[2], 0, 0);
            }
        } else {
            match m.promotion {
                Some(q) => {
                    let qi = piece_index(q);
                    lemma_step_back(p[i], f, t);
                    lemma_add_back(p[qi], t);
                },
                None => {
                    lemma_step_back(p[i], f, t);
                },
            }
        }
    }
    // The mover's occupancy comes back.
    assert(r.occupancy(s) == occ) by {
        if m.is_castle {
            let (fr, tr) = castle_rook(m.to as int);
            lemma_castle_rook_apart(m.to as int);
            if fr != 0 {
                assert(p[2] & fr == fr) by {
                    lemma_board_constants();
                    if m.to == 2 {
                        lemma_single_bit(p[2], 0);
                    } else if m.to == 6 {
                        lemma_single_bit(p[2], 7);
                    } else if m.to == 58 {
                        lemma_single_bit(p[2], 56);
                    } else {
                        lemma_single_bit(p[2], 63);
                    }
                }
                lemma_union_parts(p[0], p[1], p[2], p[3], p[4], p[5], fr);
                assert(p[0] & p[2] == 0);
                lemma_disjoint_parts(p[0], p[2], f, fr);
                lemma_castle_occupancy_back(occ, f, t, fr, tr);
            } else {
                assert(tr == 0);
                lemma_step_back(occ, f, t);
                crate::bits::lemma_bit_basics((occ & !f) | t, 0, 0);
                crate::bits::lemma_bit_basics((((occ & !f) | t) & !t) | f, 0, 0);
            }
        } else {
            lemma_step_back(occ, f, t);
        }
    }
    // The taken piece comes back.
    let op = b.pieces(o);
    let ct = capture_square(s, m);
    let k = taken_index(b, m);
    lemma_first_hit_range(op, ct, 0);
    assert(0 <= k <= 6);
    if k < 6 {
        lemma_piece_index_roundtrip(k);
    }
    assert(capture_square(s, mm) == ct);
    assert(b.occupancy(o) == union6(op));
    assert(r.pieces(o) =~= op && r.occupancy(o) == b.occupancy(o)) by {
        lemma_single_bit(b.occupancy(o), m.to as u64);
        assert(ct == sq_bb(m.to as int) || ct == sq_bb(m.to as int) >> 8u64 || ct == sq_bb(
            m.to as int,
        ) << 8u64);
        if ct & b.occupancy(o) != 0 {
            assert(b.occupancy(o) & ct == ct);
            assert(ct & union6(op) != 0);
            lemma_first_hit_found(op, ct);
            assert(k < 6);
            lemma_single_bit(op[k], m.to as u64);
            crate::bits::lemma_bit_basics(op[k], ct, 0);
            assert(op[k] & ct == ct);
            lemma_add_back(op[k], ct);
            lemma_add_back(b.occupancy(o), ct);
        } else {
            assert(k == 6);
        }
    }
    assert(r.white =~= b.white);
    assert(r.black =~= b.black);
}

/// The initial position is consistent: each side's occupancy is the union of
/// its pieces, and no square holds two pieces.
pub proof fn lemma_start_wf(b: Board)
    requires
        b.white@ == start_white(),
        b.black@ == start_black(),
        b.white_bb == 65535,
        b.black_bb == 18446462598732840960,
    ensures
        b.wf(),
{
    let w = b.white;
    let k = b.black;
    assert(w[0] == 16 && w[1] == 8 && w[2] == 129 && w[3] == 36 && w[4] == 66 && w[5] == 65280);
    assert(k[0] == 1152921504606846976 && k[1] == 576460752303423488 && k[2]
        == 9295429630892703744 && k[3] == 2594073385365405696 && k[4] == 4755801206503243776
        && k[5] == 71776119061217280);
    lemma_board_constants();
    assert forall|i: int, j: int| 0 <= i < j < 6 implies #[trigger] (w[i] & w[j]) == 0 by {}
    assert forall|i: int, j: int| 0 <= i < j < 6 implies #[trigger] (k[i] & k[j]) == 0 by {}
}

/// Square of the piece `m` takes when `s` plays it; -1 when the en passant
/// step leaves the board.
pub open spec fn capture_sq(s: Side, m: Move) -> int {
    if m.is_en_passant {
        match s {
            Side::White => if m.to >= 8 {
                m.to - 8
            } else {
                -1
            },
            Side::Black => if m.to + 8 < 64 {
                m.to + 8
            } else {
                -1
            },
        }
    } else {
        m.to as int
    }
}

/// Rook squares (from, to) of a castling king move to `to`; -1 for other moves.
pub open spec fn castle_rook_sq(to: int) -> (int, int) {
    if to == 2 {
        (0, 3)
    } else if to == 6 {
        (7, 5)
    } else if to == 58 {
        (56, 59)
    } else if to == 62 {
        (63, 61)
    } else {
        (-1, -1)
    }
}

pub proof fn lemma_capture_square(s: Side, m: Move)
    requires
        m.to < 64,
    ensures
        -1 <= capture_sq(s, m) < 64,
        capture_square(s, m) == if capture_sq(s, m) >= 0 {
            sq_bb(capture_sq(s, m))
        } else {
            0u64
        },
{
    crate::magic_table::lemma_shift_single(m.to as u64, 8);
}

pub proof fn lemma_castle_rook_sq(to: int)
    ensures
        castle_rook(to) == if castle_rook_sq(to).0 >= 0 {
            (sq_bb(castle_rook_sq(to).0), sq_bb(castle_rook_sq(to).1))
        } else {
            (0u64, 0u64)
        },
        castle_rook_sq(to).0 >= 0 ==> 0 <= castle_rook_sq(to).0 < 64 && 0 <= castle_rook_sq(to).1 < 64
            && castle_rook_sq(to).1 != to && castle_rook_sq(to).0 != to,
        castle_rook_sq(to).0 < 0 ==> castle_rook_sq(to).1 < 0,
{
    lemma_board_constants();
}

/// Kind index the moving piece has on arrival.
pub open spec fn arrival_kind(m: Move) -> int {
    match m.promotion {
        Some(q) => piece_index(q),
        None => piece_index(m.piece),
    }
}

pub proof fn lemma_union6_sq(a: [Bitboard; 6], j: int)
    ensures
        sq_in(union6(a), j) == (sq_in(a[0], j) || sq_in(a[1], j) || sq_in(a[2], j) || sq_in(
            a[3],
            j,
        ) || sq_in(a[4], j) || sq_in(a[5], j)),
{
    broadcast use group_bits;

}

pub proof fn lemma_disjoint6_sq(a: [Bitboard; 6], k1: int, k2: int, j: int)
    requires
        disjoint6(a),
        0 <= k1 < 6,
        0 <= k2 < 6,
        k1 != k2,
    ensures
        !(sq_in(a[k1], j) && sq_in(a[k2], j)),
{
    broadcast use group_bits;

    if k1 < k2 {
        assert(a[k1] & a[k2] == 0);
        assert(sq_in(a[k1] & a[k2], j) == (sq_in(a[k1], j) && sq_in(a[k2], j)));
    } else {
        assert(a[k2] & a[k1] == 0);
        assert(sq_in(a[k2] & a[k1], j) == (sq_in(a[k1], j) && sq_in(a[k2], j)));
    }
}

/// What the mover's piece bitboards hold on square `j` after `m`.
pub proof fn lemma_mover_square(b: Board, m: Move, k: int, j: int)
    requires
        b.wf(),
        move_fits(b, m),
        0 <= k < 6,
        0 <= j < 64,
    ensures
        sq_in(moved_pieces(b.pieces(b.side), m)[k], j) == if j == m.to {
            k == arrival_kind(m)
        } else if j == m.from {
            false
        } else if m.is_castle && castle_rook_sq(m.to as int).0 >= 0 && j == castle_rook_sq(
            m.to as int,
        ).1 {
            k == 2
        } else if m.is_castle && castle_rook_sq(m.to as int).0 >= 0 && j == castle_rook_sq(
            m.to as int,
        ).0 {
            false
        } else {
            sq_in(b.pieces(b.side)[k], j)
        },
{
    broadcast use group_bits;

    let p = b.pieces(b.side);
    let occ = b.occupancy(b.side);
    let i = piece_index(m.piece);
    assert(occ == union6(p));
    lemma_union6_sq(p, j);
    lemma_union6_sq(p, m.to as int);
    lemma_union6_sq(p, m.from as int);
    assert(sq_in(occ & sq_bb(m.to as int), m.to as int) == (sq_in(occ, m.to as int) && sq_in(
        sq_bb(m.to as int),
        m.to as int,
    )));
    crate::bits::lemma_sq_in_zero(m.to as int);
    assert(!sq_in(occ, m.to as int));
    assert(sq_in(p[i] & sq_bb(m.from as int), m.from as int) == (sq_in(p[i], m.from as int)
        && sq_in(sq_bb(m.from as int), m.from as int)));
    if !sq_in(p[i], m.from as int) {
        assert(!sq_in(p[i] & sq_bb(m.from as int), m.from as int));
        assert forall|x: int| 0 <= x < 64 implies sq_in(p[i] & sq_bb(m.from as int), x) == sq_in(
            0u64,
            x,
        ) by {}
        crate::bits::lemma_bb_ext(p[i] & sq_bb(m.from as int), 0);
    }
    assert(sq_in(p[i], m.from as int));
    lemma_castle_rook_sq(m.to as int);
    let (fa, ta) = castle_rook_sq(m.to as int);
    if m.is_castle && fa >= 0 {
        lemma_union6_sq(p, ta);
        lemma_union6_sq(p, fa);
        assert(sq_in(occ & sq_bb(ta), ta) == (sq_in(occ, ta) && sq_in(sq_bb(ta), ta)));
        assert(!sq_in(occ, ta));
        assert(sq_in(p[2] & sq_bb(fa), fa) == (sq_in(p[2], fa) && sq_in(sq_bb(fa), fa)));
        if !sq_in(p[2], fa) {
            assert forall|x: int| 0 <= x < 64 implies sq_in(p[2] & sq_bb(fa), x) == sq_in(0u64, x) by {}
            crate::bits::lemma_bb_ext(p[2] & sq_bb(fa), 0);
        }
        assert(sq_in(p[2], fa));
        if fa == m.from as int {
            lemma_disjoint6_sq(p, 0, 2, fa);
        }
    }
    if j != m.to && j != m.from && sq_in(p[k], j) {
        // untouched squares keep their pieces
    }
    if k != i && j == m.from as int {
        lemma_disjoint6_sq(p, k, i, j);
    }
    if m.is_castle && fa >= 0 && j == fa && k != 2 {
        lemma_disjoint6_sq(p, k, 2, j);
    }
}

/// A move that fits the board, lands on no opposing piece when it takes en
/// passant, and whose castling rook lands on an empty square keeps the board
/// consistent.
pub open spec fn keeps_consistent(b: Board, m: Move) -> bool {
    let o = b.occupancy(opposite(b.side));
    &&& move_fits(b, m)
    &&& (m.is_en_passant ==> sq_bb(m.to as int) & o == 0)
    &&& (m.is_castle ==> castle_rook(m.to as int).1 & o == 0)
}

/// What the mover's occupancy holds on square `j` after `m`.
pub proof fn lemma_mover_occ_square(b: Board, m: Move, j: int)
    requires
        move_in_range(m),
        0 <= j < 64,
    ensures
        sq_in(moved_occupancy(b.occupancy(b.side), m), j) == (j == m.to || (m.is_castle
            && castle_rook_sq(m.to as int).0 >= 0 && j == castle_rook_sq(m.to as int).1) || (sq_in(
            b.occupancy(b.side),
            j,
        ) && j != m.from && !(m.is_castle && castle_rook_sq(m.to as int).0 >= 0 && j
            == castle_rook_sq(m.to as int).0))),
{
    broadcast use group_bits;

    lemma_castle_rook_sq(m.to as int);
}

/// What the opposing side's bitboards hold on square `j` after `m`.
pub proof fn lemma_opp_square(b: Board, m: Move, k: int, j: int)
    requires
        b.wf(),
        move_in_range(m),
        0 <= k < 6,
        0 <= j < 64,
    ensures
        ({
            let o = opposite(b.side);
            let hit = capture_square(b.side, m) & b.occupancy(o) != 0;
            let a = after_move(b, m);
            &&& sq_in(a.pieces(o)[k], j) == (sq_in(b.pieces(o)[k], j) && !(hit && j == capture_sq(
                b.side,
                m,
            )))
            &&& sq_in(a.occupancy(o), j) == (sq_in(b.occupancy(o), j) && !(hit && j == capture_sq(
                b.side,
                m,
            )))
        }),
{
    broadcast use group_bits;

    let o = opposite(b.side);
    let op = b.pieces(o);
    let ct = capture_square(b.side, m);
    lemma_capture_square(b.side, m);
    let kk = taken_index(b, m);
    lemma_first_hit_nonneg(op, ct);
    assert(b.occupancy(o) == union6(op));
    if ct & b.occupancy(o) != 0 {
        assert(ct & union6(op) != 0);
        lemma_first_hit_found(op, ct);
        let c = capture_sq(b.side, m);
        crate::bits::lemma_bit_basics(b.occupancy(o), 0, 0);
        assert(c >= 0);
        assert(sq_in(op[kk] & ct, c) == (sq_in(op[kk], c) && sq_in(ct, c)));
        if !sq_in(op[kk], c) {
            assert forall|x: int| 0 <= x < 64 implies sq_in(op[kk] & ct, x) == sq_in(0u64, x) by {}
            crate::bits::lemma_bb_ext(op[kk] & ct, 0);
        }
        if k != kk && j == c {
            lemma_disjoint6_sq(op, k, kk, j);
        }
    }
}

/// A move that keeps the board consistent leaves it consistent: every
/// occupancy is still the union of its side's pieces, and no square holds two
/// pieces.
pub proof fn lemma_make_keeps_wf(b: Board, m: Move)
    requires
        b.wf(),
        keeps_consistent(b, m),
    ensures
        after_move(b, m).wf(),
{
    broadcast use group_bits;

    let s = b.side;
    let o = opposite(s);
    let a = after_move(b, m);
    let p = b.pieces(s);
    let op = b.pieces(o);
    let np = a.pieces(s);
    let nop = a.pieces(o);
    assert(np == moved_pieces(p, m));
    lemma_castle_rook_sq(m.to as int);
    lemma_capture_square(s, m);
    let (fa, ta) = castle_rook_sq(m.to as int);
    let c = capture_sq(s, m);
    let hit = capture_square(s, m) & b.occupancy(o) != 0;
    assert(b.occupancy(s) == union6(p));
    assert(b.occupancy(o) == union6(op));
    // mover occupancy is the union of its pieces
    assert forall|j: int| 0 <= j < 64 implies sq_in(a.occupancy(s), j) == sq_in(union6(np), j) by {
        lemma_union6_sq(np, j);
        lemma_union6_sq(p, j);
        lemma_mover_occ_square(b, m, j);
        lemma_mover_square(b, m, 0, j);
        lemma_mover_square(b, m, 1, j);
        lemma_mover_square(b, m, 2, j);
        lemma_mover_square(b, m, 3, j);
        lemma_mover_square(b, m, 4, j);
        lemma_mover_square(b, m, 5, j);
        if j == m.to {
            assert(0 <= arrival_kind(m) < 6);
        }
    }
    crate::bits::lemma_bb_ext(a.occupancy(s), union6(np));
    // mover pieces are disjoint
    assert(disjoint6(np)) by {
        assert forall|k1: int, k2: int| 0 <= k1 < k2 < 6 implies #[trigger] (np[k1] & np[k2]) == 0 by {
            assert forall|j: int| 0 <= j < 64 implies sq_in(np[k1] & np[k2], j) == sq_in(0u64, j) by {
                lemma_mover_square(b, m, k1, j);
                lemma_mover_square(b, m, k2, j);
                if j != m.to && j != m.from && !(m.is_castle && fa >= 0 && (j == ta || j == fa)) {
                    lemma_disjoint6_sq(p, k1, k2, j);
                }
            }
            crate::bits::lemma_bb_ext(np[k1] & np[k2], 0);
        }
    }
    // opposing occupancy is the union of its pieces
    assert forall|j: int| 0 <= j < 64 implies sq_in(a.occupancy(o), j) == sq_in(union6(nop), j) by {
        lemma_union6_sq(nop, j);
        lemma_union6_sq(op, j);
        lemma_opp_square(b, m, 0, j);
        lemma_opp_square(b, m, 1, j);
        lemma_opp_square(b, m, 2, j);
        lemma_opp_square(b, m, 3, j);
        lemma_opp_square(b, m, 4, j);
        lemma_opp_square(b, m, 5, j);
    }
    crate::bits::lemma_bb_ext(a.occupancy(o), union6(nop));
    assert(disjoint6(nop)) by {
        assert forall|k1: int, k2: int| 0 <= k1 < k2 < 6 implies #[trigger] (nop[k1] & nop[k2]) == 0 by {
            assert forall|j: int| 0 <= j < 64 implies sq_in(nop[k1] & nop[k2], j) == sq_in(0u64, j) by {
                lemma_opp_square(b, m, k1, j);
                lemma_opp_square(b, m, k2, j);
                lemma_disjoint6_sq(op, k1, k2, j);
            }
            crate::bits::lemma_bb_ext(nop[k1] & nop[k2], 0);
        }
    }
    // the two sides share no square
    assert forall|j: int| 0 <= j < 64 implies sq_in(a.occupancy(s) & a.occupancy(o), j) == sq_in(0u64, j) by {
        lemma_mover_occ_square(b, m, j);
        lemma_opp_square(b, m, 0, j);
        assert(sq_in(b.occupancy(s) & b.occupancy(o), j) == sq_in(0u64, j)) by {
            assert(b.white_bb & b.black_bb == 0);
            assert(b.black_bb & b.white_bb == 0) by {
                crate::bits::lemma_bit_basics(b.white_bb, b.black_bb, 0);
            }
        }
        if j == m.to {
            if m.is_en_passant {
                assert(sq_in(sq_bb(m.to as int) & b.occupancy(o), j) == sq_in(0u64, j));
            }
        }
        if m.is_castle && fa >= 0 && j == ta {
            assert(sq_in(castle_rook(m.to as int).1 & b.occupancy(o), j) == sq_in(0u64, j));
        }
    }
    crate::bits::lemma_bb_ext(a.occupancy(s) & a.occupancy(o), 0);
    if s == Side::White {
        assert(a.white_bb & a.black_bb == 0);
    } else {
        crate::bits::lemma_bit_basics(a.black_bb, a.white_bb, 0);
    }
}


proof fn lemma_clear_keeps_subset(c: u8, x: u8, c0: u8)
    by (bit_vector)
    ensures
        c0 & !c0 == 0u8,
        c & !c0 == 0u8 ==> (c & !x) & !c0 == 0u8,
{
}

/// Castling rights only go away: every right a move leaves was there before it.
pub proof fn lemma_rights_only_shrink(b: Board, m: Move)
    ensures
        after_move(b, m).castling.0 & !b.castling.0 == 0,
{
    let s = b.side;
    let c0 = b.castling.0;
    lemma_clear_keeps_subset(c0, side_rights(s), c0);
    lemma_clear_keeps_subset(c0, rook_right(m.from as int), c0);
    let c1 = if m.piece == Piece::King {
        c0 & !side_rights(s)
    } else if m.piece == Piece::Rook {
        c0 & !rook_right(m.from as int)
    } else {
        c0
    };
    lemma_clear_keeps_subset(c1, rook_right(m.to as int), c0);
    let hit = capture_square(s, m) & b.occupancy(opposite(s)) != 0;
    let c2 = if hit {
        c1 & !rook_right(m.to as int)
    } else {
        c1
    };
    lemma_clear_keeps_subset(c2, side_rights(s), c0);
    assert(moved_rights(b, m) & !c0 == 0);
}

} // verus!
