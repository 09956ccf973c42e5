//! Which boards every generated move fits: when each castling right has its
//! king and rook at home and the en passant square is empty, every
//! pseudo-legal move fits the board, keeps it consistent, and leaves a board
//! of the same kind.
use vstd::prelude::*;
use crate::bits::{sq_in, sq_bb, group_bits, lowest, pop_lowest, lemma_pop_lowest, lemma_nonzero_has};
use crate::board::{
    Board, GameState, Move, Piece, Side, after_move, can_make, capture_square, castle_path,
    is_double_push, move_fits, move_list_cap, moved_pieces, moved_rights, opposite, piece_index,
    plain_move, rook_right, side_rights, start_black, start_white, moved, undo_of, unmade,
};
use crate::board_laws::{
    arrival_kind, capture_sq, castle_rook_sq, keeps_consistent, lemma_capture_square,
    lemma_castle_rook_sq, lemma_disjoint6_sq, lemma_make_keeps_wf, lemma_mover_occ_square,
    lemma_mover_square, lemma_opp_square, lemma_start_wf, lemma_union6_sq,
    lemma_unmake_undoes_make,
};
use crate::movegen::{
    castle_move, castle_open, castle_underflows, has_right, king_moves, moves_to, occupied,
    pawn_move, pawn_moves, pawn_moves_to, pawn_targets, piece_moves, piece_targets, promotes,
    pseudo_moves,
};
use crate::legality::{check_ok, movegen_ok};
use crate::game_laws::{lemma_fits_squares, lemma_pseudo_moves_shaped, shaped};
use crate::attacks::{lemma_pawn_attacks, pawn_attacks};

verus! {

/// The bit of the castling right of `s` on the king side (`king_side`) or the queen side.
pub open spec fn right_bit(s: Side, king_side: bool) -> u8 {
    match s {
        Side::White => if king_side {
            1u8
        } else {
            2u8
        },
        Side::Black => if king_side {
            4u8
        } else {
            8u8
        },
    }
}

/// The square the king of `s` starts on.
pub open spec fn king_home(s: Side) -> int {
    match s {
        Side::White => 4,
        Side::Black => 60,
    }
}

/// The corner the rook of `s` castles with on the king side (`king_side`) or the queen side.
pub open spec fn rook_corner(s: Side, king_side: bool) -> int {
    match s {
        Side::White => if king_side {
            7
        } else {
            0
        },
        Side::Black => if king_side {
            63
        } else {
            56
        },
    }
}

/// If `b` grants `s` the castling right of that wing, the king of `s` stands
/// alone on its home square and a rook of `s` in the wing's corner.
pub open spec fn right_fits(b: Board, s: Side, king_side: bool) -> bool {
    b.castling.0 & right_bit(s, king_side) != 0 ==> b.pieces(s)[0] == sq_bb(king_home(s)) && sq_in(
        b.pieces(s)[2],
        rook_corner(s, king_side),
    )
}

/// A board as play leaves it: its bitboards agree, every castling right has
/// its king and rook at home, and the en passant square is empty.
pub open spec fn settled(b: Board) -> bool {
    &&& b.wf()
    &&& right_fits(b, Side::White, true)
    &&& right_fits(b, Side::White, false)
    &&& right_fits(b, Side::Black, true)
    &&& right_fits(b, Side::Black, false)
    &&& b.en_passant & occupied(b) == 0
}

/// `m` fits `b` and keeps it consistent, takes nothing by its record, and a
/// double pawn step passes over an empty square.
pub open spec fn sound_move(b: Board, m: Move) -> bool {
    &&& keeps_consistent(b, m)
    &&& m.capture is None
    &&& (is_double_push(m) ==> !sq_in(occupied(b), (m.from + m.to) / 2))
}

/// Every move of `s` is sound on `b`.
pub open spec fn all_sound(b: Board, s: Seq<Move>) -> bool {
    forall|i: int| 0 <= i < s.len() ==> sound_move(b, #[trigger] s[i])
}

proof fn lemma_sound_concat(b: Board, x: Seq<Move>, y: Seq<Move>)
    requires
        all_sound(b, x),
        all_sound(b, y),
    ensures
        all_sound(b, x + y),
{
    assert forall|i: int| 0 <= i < (x + y).len() implies sound_move(b, #[trigger] (x + y)[i]) by {
        if i < x.len() {
            assert((x + y)[i] == x[i]);
        } else {
            assert((x + y)[i] == y[i - x.len()]);
        }
    }
}

/// What a consistent board says of one square: the two sides never share it,
/// and a piece on it counts in its side's occupancy.
proof fn lemma_square_of(b: Board, j: int)
    requires
        b.wf(),
        0 <= j < 64,
    ensures
        sq_in(occupied(b), j) == (sq_in(b.white_bb, j) || sq_in(b.black_bb, j)),
        !(sq_in(b.white_bb, j) && sq_in(b.black_bb, j)),
        forall|k: int| 0 <= k < 6 && #[trigger] sq_in(b.white[k], j) ==> sq_in(b.white_bb, j),
        forall|k: int| 0 <= k < 6 && #[trigger] sq_in(b.black[k], j) ==> sq_in(b.black_bb, j),
{
    broadcast use group_bits;

    lemma_union6_sq(b.white, j);
    lemma_union6_sq(b.black, j);
    assert(sq_in(b.white_bb & b.black_bb, j) == (sq_in(b.white_bb, j) && sq_in(b.black_bb, j)));
}

/// A plain move of a piece other than a pawn, from a square it stands on to a
/// square its side does not hold, is sound.
proof fn lemma_plain_sound(b: Board, from: int, to: int, piece: Piece)
    requires
        b.wf(),
        0 <= from < 64,
        0 <= to < 64,
        piece != Piece::Pawn,
        piece != Piece::Empty,
        sq_in(b.pieces(b.side)[piece_index(piece)], from),
        !sq_in(b.occupancy(b.side), to),
    ensures
        sound_move(b, plain_move(from as u8, to as u8, piece, None)),
{
    broadcast use group_bits;

    let m = plain_move(from as u8, to as u8, piece, None);
    assert(m.from as int == from && m.to as int == to);
    let p = b.pieces(b.side);
    let i = piece_index(piece);
    assert(sq_in(p[i] & sq_bb(from), from));
    crate::bits::lemma_and_zero(p[i], sq_bb(from));
    crate::bits::lemma_and_zero(b.occupancy(b.side), sq_bb(to));
    assert(move_fits(b, m));
}

proof fn lemma_moves_to_sound(b: Board, from: int, targets: u64, piece: Piece)
    requires
        b.wf(),
        0 <= from < 64,
        piece != Piece::Pawn,
        piece != Piece::Empty,
        sq_in(b.pieces(b.side)[piece_index(piece)], from),
        forall|t: int| #[trigger] sq_in(targets, t) ==> !sq_in(b.occupancy(b.side), t),
    ensures
        all_sound(b, moves_to(from, targets, piece)),
    decreases targets,
{
    if targets != 0 {
        lemma_pop_lowest(targets);
        lemma_nonzero_has(targets);
        lemma_plain_sound(b, from, lowest(targets), piece);
        lemma_moves_to_sound(b, from, pop_lowest(targets), piece);
        lemma_sound_concat(
            b,
            seq![plain_move(from as u8, lowest(targets) as u8, piece, None)],
            moves_to(from, pop_lowest(targets), piece),
        );
    }
}

proof fn lemma_piece_moves_sound(b: Board, froms: u64, piece: Piece)
    requires
        b.wf(),
        piece != Piece::Pawn,
        piece != Piece::Empty,
        forall|t: int| #[trigger] sq_in(froms, t) ==> sq_in(b.pieces(b.side)[piece_index(piece)], t),
    ensures
        all_sound(b, piece_moves(b, froms, piece)),
    decreases froms,
{
    broadcast use group_bits;

    if froms != 0 {
        lemma_pop_lowest(froms);
        lemma_nonzero_has(froms);
        let from = lowest(froms);
        lemma_piece_moves_sound(b, pop_lowest(froms), piece);
        lemma_moves_to_sound(b, from, piece_targets(b, piece, from), piece);
        lemma_sound_concat(
            b,
            moves_to(from, piece_targets(b, piece, from), piece),
            piece_moves(b, pop_lowest(froms), piece),
        );
    }
}

/// Every square a pawn of the side to move on `sq` can move to is one its
/// side does not hold, and a double step passes over an empty square.
proof fn lemma_pawn_targets_fit(b: Board, sq: int)
    requires
        settled(b),
        0 <= sq < 64,
    ensures
        forall|t: int| #[trigger] sq_in(pawn_targets(b, sq), t) ==> !sq_in(b.occupancy(b.side), t)
            && ((t == sq + 16 || t + 16 == sq) ==> !sq_in(occupied(b), (t + sq) / 2)),
{
    broadcast use group_bits;

    let up = b.side == Side::White;
    let occ = occupied(b);
    let bb = sq_bb(sq);
    lemma_pawn_attacks(up, sq);
    crate::magic_table::lemma_shift_single(sq as u64, 8);
    crate::magic_table::lemma_shift_single(sq as u64, 16);
    assert forall|t: int| #[trigger] sq_in(pawn_targets(b, sq), t) implies !sq_in(b.occupancy(b.side), t)
        && ((t == sq + 16 || t + 16 == sq) ==> !sq_in(occ, (t + sq) / 2)) by {
        lemma_square_of(b, t);
        if sq_in(pawn_attacks(up, sq), t) {
            assert(crate::attacks::pawn_capture(up, sq, t));
            crate::bits::lemma_and_zero(b.en_passant, occ);
        } else if up {
            if sq + 8 < 64 {
                assert(bb << 8u64 == sq_bb(sq + 8));
            }
            if sq + 16 < 64 {
                assert(bb << 16u64 == sq_bb(sq + 16));
            }
            if t == sq + 16 {
                lemma_square_of(b, sq + 8);
                crate::bits::lemma_and_zero(bb << 8u64, occ);
                assert(sq_in(bb << 8u64, sq + 8));
            }
        } else {
            if sq >= 8 {
                assert(bb >> 8u64 == sq_bb(sq - 8));
            }
            if sq >= 16 {
                assert(bb >> 16u64 == sq_bb(sq - 16));
            }
            if t + 16 == sq {
                lemma_square_of(b, sq - 8);
                crate::bits::lemma_and_zero(bb >> 8u64, occ);
                assert(sq_in(bb >> 8u64, sq - 8));
            }
        }
    }
}

/// A pawn move from a square a pawn of the side to move stands on, to a square
/// its side does not hold, is sound when a double step passes over an empty
/// square.
proof fn lemma_pawn_move_sound(b: Board, from: int, to: int, q: Option<Piece>)
    requires
        settled(b),
        0 <= from < 64,
        0 <= to < 64,
        sq_in(b.pieces(b.side)[5], from),
        !sq_in(b.occupancy(b.side), to),
        (to == from + 16 || to + 16 == from) ==> !sq_in(occupied(b), (to + from) / 2),
        q matches Some(p) ==> piece_index(p) < 6,
    ensures
        sound_move(b, pawn_move(b, from, to, q)),
{
    broadcast use group_bits;

    let m = pawn_move(b, from, to, q);
    assert(m.from as int == from && m.to as int == to);
    let p = b.pieces(b.side);
    assert(sq_in(p[5] & sq_bb(from), from));
    crate::bits::lemma_and_zero(p[5], sq_bb(from));
    crate::bits::lemma_and_zero(b.occupancy(b.side), sq_bb(to));
    assert(move_fits(b, m));
    if m.is_en_passant {
        crate::bits::lemma_and_zero(sq_bb(to), b.en_passant);
        assert(sq_in(b.en_passant, to));
        crate::bits::lemma_and_zero(b.en_passant, occupied(b));
        lemma_square_of(b, to);
        assert(!sq_in(occupied(b), to));
        crate::bits::lemma_and_zero(sq_bb(to), b.occupancy(opposite(b.side)));
    }
    assert(keeps_consistent(b, m));
}

proof fn lemma_pawn_moves_to_sound(b: Board, from: int, targets: u64)
    requires
        settled(b),
        0 <= from < 64,
        sq_in(b.pieces(b.side)[5], from),
        forall|t: int| #[trigger] sq_in(targets, t) ==> !sq_in(b.occupancy(b.side), t)
            && ((t == from + 16 || t + 16 == from) ==> !sq_in(occupied(b), (t + from) / 2)),
    ensures
        all_sound(b, pawn_moves_to(b, from, targets)),
    decreases targets,
{
    if targets != 0 {
        lemma_pop_lowest(targets);
        lemma_nonzero_has(targets);
        let to = lowest(targets);
        lemma_pawn_moves_to_sound(b, from, pop_lowest(targets));
        lemma_pawn_move_sound(b, from, to, Some(Piece::Queen));
        lemma_pawn_move_sound(b, from, to, Some(Piece::Rook));
        lemma_pawn_move_sound(b, from, to, Some(Piece::Bishop));
        lemma_pawn_move_sound(b, from, to, Some(Piece::Knight));
        lemma_pawn_move_sound(b, from, to, None);
        let head = if promotes(b, to) {
            seq![
                pawn_move(b, from, to, Some(Piece::Queen)),
                pawn_move(b, from, to, Some(Piece::Rook)),
                pawn_move(b, from, to, Some(Piece::Bishop)),
                pawn_move(b, from, to, Some(Piece::Knight)),
            ]
        } else {
            seq![pawn_move(b, from, to, None)]
        };
        assert(all_sound(b, head));
        lemma_sound_concat(b, head, pawn_moves_to(b, from, pop_lowest(targets)));
    }
}

proof fn lemma_pawn_moves_sound(b: Board, froms: u64)
    requires
        settled(b),
        forall|t: int| #[trigger] sq_in(froms, t) ==> sq_in(b.pieces(b.side)[5], t),
    ensures
        all_sound(b, pawn_moves(b, froms)),
    decreases froms,
{
    broadcast use group_bits;

    if froms != 0 {
        lemma_pop_lowest(froms);
        lemma_nonzero_has(froms);
        let from = lowest(froms);
        lemma_pawn_moves_sound(b, pop_lowest(froms));
        lemma_pawn_targets_fit(b, from);
        lemma_pawn_moves_to_sound(b, from, pawn_targets(b, from));
        lemma_sound_concat(b, pawn_moves_to(b, from, pawn_targets(b, from)), pawn_moves(b, pop_lowest(froms)));
    }
}

/// The squares each castling path holds.
proof fn lemma_path_squares()
    by (bit_vector)
    ensures
        (0x60u64 >> 5u64) & 1u64 == 1u64,
        (0x60u64 >> 6u64) & 1u64 == 1u64,
        (0xeu64 >> 2u64) & 1u64 == 1u64,
        (0xeu64 >> 3u64) & 1u64 == 1u64,
        (0x6000000000000000u64 >> 61u64) & 1u64 == 1u64,
        (0x6000000000000000u64 >> 62u64) & 1u64 == 1u64,
        (0xe00000000000000u64 >> 58u64) & 1u64 == 1u64,
        (0xe00000000000000u64 >> 59u64) & 1u64 == 1u64,
{
}

/// The only square of a single-square bitboard is its lowest.
proof fn lemma_lowest_single(h: int)
    requires
        0 <= h < 64,
    ensures
        lowest(sq_bb(h)) == h,
        sq_bb(h) != 0,
{
    broadcast use group_bits;

    assert(sq_in(sq_bb(h), h));
    if sq_bb(h) == 0 {
        assert(!sq_in(0u64, h));
    }
    lemma_nonzero_has(sq_bb(h));
}

/// A castling move the generator lists on a settled board is sound, and the
/// king castles from its home square.
proof fn lemma_castle_sound(b: Board, king_side: bool)
    requires
        settled(b),
        castle_open(b, king_side),
        b.pieces(b.side)[0] != 0,
    ensures
        lowest(b.pieces(b.side)[0]) == king_home(b.side),
        sound_move(
            b,
            castle_move(
                lowest(b.pieces(b.side)[0]),
                if king_side {
                    lowest(b.pieces(b.side)[0]) + 2
                } else {
                    lowest(b.pieces(b.side)[0]) - 2
                },
            ),
        ),
{
    broadcast use group_bits;

    let s = b.side;
    let p = b.pieces(s);
    let occ = occupied(b);
    assert(has_right(b, king_side));
    assert(b.castling.0 & right_bit(s, king_side) != 0);
    assert(right_fits(b, s, king_side));
    let h = king_home(s);
    lemma_lowest_single(h);
    let from = h;
    let to = if king_side {
        h + 2
    } else {
        h - 2
    };
    let m = castle_move(from, to);
    assert(m.from as int == from && m.to as int == to);
    let path = if king_side {
        castle_path(s).0
    } else {
        castle_path(s).1
    };
    assert(path & occ == 0);
    crate::bits::lemma_and_zero(path, occ);
    lemma_path_squares();
    lemma_castle_rook_sq(to);
    let (fa, ta) = castle_rook_sq(to);
    assert(fa == rook_corner(s, king_side));
    assert(sq_in(path, to) && sq_in(path, ta));
    lemma_square_of(b, to);
    lemma_square_of(b, ta);
    lemma_square_of(b, from);
    assert(sq_in(p[0], from));
    crate::bits::lemma_and_zero(p[0], sq_bb(from));
    crate::bits::lemma_and_zero(b.occupancy(s), sq_bb(to));
    crate::bits::lemma_and_zero(p[2], sq_bb(fa));
    crate::bits::lemma_and_zero(b.occupancy(s), sq_bb(ta));
    crate::bits::lemma_and_zero(sq_bb(ta), b.occupancy(opposite(s)));
    assert(move_fits(b, m));
    assert(keeps_consistent(b, m));
}

/// Every move the king of the side to move has on a settled board is sound.
proof fn lemma_king_moves_sound(b: Board)
    requires
        settled(b),
    ensures
        all_sound(b, king_moves(b)),
{
    broadcast use group_bits;

    let k = b.pieces(b.side)[0];
    if k != 0 {
        lemma_nonzero_has(k);
        let from = lowest(k);
        lemma_moves_to_sound(b, from, piece_targets(b, Piece::King, from), Piece::King);
        let c1: Seq<Move> = if castle_open(b, true) {
            lemma_castle_sound(b, true);
            seq![castle_move(from, from + 2)]
        } else {
            Seq::empty()
        };
        let c2: Seq<Move> = if castle_open(b, false) {
            lemma_castle_sound(b, false);
            seq![castle_move(from, from - 2)]
        } else {
            Seq::empty()
        };
        assert(all_sound(b, c1));
        assert(all_sound(b, c2));
        let steps = moves_to(from, piece_targets(b, Piece::King, from), Piece::King);
        lemma_sound_concat(b, steps, c1);
        lemma_sound_concat(b, steps + c1, c2);
        assert(king_moves(b) == steps + c1 + c2);
    }
}

/// On a settled board every pseudo-legal move fits the board, keeps it
/// consistent, records no capture, and a double pawn step passes over an
/// empty square.
pub proof fn lemma_pseudo_moves_sound(b: Board)
    requires
        settled(b),
    ensures
        all_sound(b, pseudo_moves(b)),
        forall|i: int| 0 <= i < pseudo_moves(b).len() ==> move_fits(b, #[trigger] pseudo_moves(b)[i]),
{
    let p = b.pieces(b.side);
    lemma_pawn_moves_sound(b, p[5]);
    lemma_piece_moves_sound(b, p[4], Piece::Knight);
    lemma_piece_moves_sound(b, p[3], Piece::Bishop);
    lemma_piece_moves_sound(b, p[2], Piece::Rook);
    lemma_piece_moves_sound(b, p[1], Piece::Queen);
    lemma_king_moves_sound(b);
    let a = pawn_moves(b, p[5]);
    let n = piece_moves(b, p[4], Piece::Knight);
    let bi = piece_moves(b, p[3], Piece::Bishop);
    let r = piece_moves(b, p[2], Piece::Rook);
    let q = piece_moves(b, p[1], Piece::Queen);
    lemma_sound_concat(b, a, n);
    lemma_sound_concat(b, a + n, bi);
    lemma_sound_concat(b, a + n + bi, r);
    lemma_sound_concat(b, a + n + bi + r, q);
    lemma_sound_concat(b, a + n + bi + r + q, king_moves(b));
    assert forall|i: int| 0 <= i < pseudo_moves(b).len() implies move_fits(b, #[trigger] pseudo_moves(b)[i]) by {
        assert(sound_move(b, pseudo_moves(b)[i]));
    }
}

proof fn lemma_clear_bit(c: u8, y: u8, z: u8)
    by (bit_vector)
    requires
        z == 1u8 || z == 2u8 || z == 4u8 || z == 8u8,
    ensures
        (c & !y) & z != 0u8 ==> c & z != 0u8 && y & z == 0u8,
        z & z != 0u8,
        3u8 & 1u8 != 0u8 && 3u8 & 2u8 != 0u8 && 12u8 & 4u8 != 0u8 && 12u8 & 8u8 != 0u8,
{
}

/// A right that survives `m` was there before it, and the move neither moved
/// that side's king nor castled, moved a rook from a corner of that right,
/// nor took a piece on such a corner.
proof fn lemma_rights_trace(b: Board, m: Move, z: u8)
    requires
        z == 1u8 || z == 2u8 || z == 4u8 || z == 8u8,
        moved_rights(b, m) & z != 0,
    ensures
        b.castling.0 & z != 0,
        m.piece == Piece::King ==> side_rights(b.side) & z == 0,
        m.is_castle ==> side_rights(b.side) & z == 0,
        m.piece == Piece::Rook ==> rook_right(m.from as int) & z == 0,
        capture_square(b.side, m) & b.occupancy(opposite(b.side)) != 0 ==> rook_right(m.to as int) & z == 0,
{
    let s = b.side;
    let c0 = b.castling.0;
    let c1 = if m.piece == Piece::King {
        c0 & !side_rights(s)
    } else if m.piece == Piece::Rook {
        c0 & !rook_right(m.from as int)
    } else {
        c0
    };
    let hit = capture_square(s, m) & b.occupancy(opposite(s)) != 0;
    let c2 = if hit {
        c1 & !rook_right(m.to as int)
    } else {
        c1
    };
    lemma_clear_bit(c2, side_rights(s), z);
    lemma_clear_bit(c1, rook_right(m.to as int), z);
    lemma_clear_bit(c0, side_rights(s), z);
    lemma_clear_bit(c0, rook_right(m.from as int), z);
}

/// The right of the mover's own wing that survives its move still fits.
proof fn lemma_mover_right_kept(b: Board, m: Move, king_side: bool)
    requires
        settled(b),
        sound_move(b, m),
        shaped(b, m),
    ensures
        right_fits(after_move(b, m), b.side, king_side),
{
    broadcast use group_bits;

    let s = b.side;
    let z = right_bit(s, king_side);
    let a = after_move(b, m);
    if a.castling.0 & z != 0 {
        lemma_rights_trace(b, m, z);
        lemma_clear_bit(0, 0, z);
        assert(right_fits(b, s, king_side));
        let p = b.pieces(s);
        let c = rook_corner(s, king_side);
        assert(m.piece != Piece::King);
        assert(!m.is_castle);
        assert(rook_right(c) == z);
        lemma_fits_squares(b, m);
        lemma_square_of(b, c);
        assert(sq_in(b.occupancy(s), c)) by {
            if s == Side::White {
                assert(sq_in(b.white[2], c));
            } else {
                assert(sq_in(b.black[2], c));
            }
        }
        let i = piece_index(m.piece);
        assert(0 <= arrival_kind(m) < 6 && arrival_kind(m) != 0);
        let np = moved_pieces(p, m);
        assert(a.pieces(s) == np);
        assert forall|j: int| 0 <= j < 64 implies sq_in(np[0], j) == sq_in(p[0], j) by {
            lemma_mover_square(b, m, 0, j);
            lemma_square_of(b, j);
            if j == m.from as int {
                if sq_in(p[0], j) {
                    lemma_disjoint6_sq(p, 0, i, j);
                }
            }
            if j == m.to as int && sq_in(p[0], j) {
                if s == Side::White {
                    assert(sq_in(b.white[0], j));
                } else {
                    assert(sq_in(b.black[0], j));
                }
            }
        }
        crate::bits::lemma_bb_ext(np[0], p[0]);
        lemma_mover_square(b, m, 2, c);
        if m.from as int == c && m.piece != Piece::Rook {
            lemma_disjoint6_sq(p, 2, i, c);
        }
    }
}

/// A right of the other side that survives the move still fits, when the
/// move does not take that side's king.
proof fn lemma_opp_right_kept(b: Board, m: Move, king_side: bool)
    requires
        settled(b),
        sound_move(b, m),
        capture_square(b.side, m) & b.pieces(opposite(b.side))[0] == 0,
    ensures
        right_fits(after_move(b, m), opposite(b.side), king_side),
{
    broadcast use group_bits;

    let s = b.side;
    let o = opposite(s);
    let z = right_bit(o, king_side);
    let a = after_move(b, m);
    if a.castling.0 & z != 0 {
        lemma_rights_trace(b, m, z);
        lemma_clear_bit(0, 0, z);
        assert(right_fits(b, o, king_side));
        let op = b.pieces(o);
        let c = rook_corner(o, king_side);
        assert(rook_right(c) == z);
        lemma_capture_square(s, m);
        let hit = capture_square(s, m) & b.occupancy(o) != 0;
        let cs = capture_sq(s, m);
        assert forall|j: int| 0 <= j < 64 implies sq_in(a.pieces(o)[0], j) == sq_in(op[0], j) by {
            lemma_opp_square(b, m, 0, j);
            if hit && j == cs && sq_in(op[0], j) {
                crate::bits::lemma_and_zero(capture_square(s, m), op[0]);
            }
        }
        crate::bits::lemma_bb_ext(a.pieces(o)[0], op[0]);
        lemma_opp_square(b, m, 2, c);
        if hit && c == cs {
            assert(!m.is_en_passant);
        }
    }
}

/// After a double step the en passant square is empty; after any other move
/// there is none.
proof fn lemma_passant_kept(b: Board, m: Move)
    requires
        settled(b),
        sound_move(b, m),
    ensures
        after_move(b, m).en_passant & occupied(after_move(b, m)) == 0,
{
    broadcast use group_bits;

    let a = after_move(b, m);
    lemma_make_keeps_wf(b, m);
    if is_double_push(m) {
        let mid = (m.to as int + m.from as int) / 2;
        assert(0 <= mid < 64);
        lemma_square_of(a, mid);
        lemma_square_of(b, mid);
        lemma_mover_occ_square(b, m, mid);
        lemma_opp_square(b, m, 0, mid);
        assert(!sq_in(a.occupancy(b.side), mid));
        assert(!sq_in(a.occupancy(opposite(b.side)), mid));
        assert(!sq_in(occupied(a), mid));
        crate::bits::lemma_and_zero(sq_bb(mid), occupied(a));
        assert forall|j: int| 0 <= j < 64 implies !(sq_in(sq_bb(mid), j) && sq_in(occupied(a), j)) by {
            if sq_in(sq_bb(mid), j) {
                assert(j == mid);
            }
        }
    } else {
        crate::bits::lemma_bit_basics(occupied(a), 0, 0);
    }
}

/// A pseudo-legal move on a settled board that does not take the other
/// side's king leaves a settled board: the bitboards still agree, every
/// castling right left has its king and rook at home, and the en passant
/// square is empty.
pub proof fn lemma_move_keeps_settled(b: Board, i: int)
    requires
        settled(b),
        0 <= i < pseudo_moves(b).len(),
        capture_square(b.side, pseudo_moves(b)[i]) & b.pieces(opposite(b.side))[0] == 0,
    ensures
        settled(after_move(b, pseudo_moves(b)[i])),
{
    let m = pseudo_moves(b)[i];
    let s = b.side;
    lemma_pseudo_moves_sound(b);
    lemma_pseudo_moves_shaped(b);
    assert(sound_move(b, m));
    assert(shaped(b, m));
    lemma_make_keeps_wf(b, m);
    lemma_mover_right_kept(b, m, true);
    lemma_mover_right_kept(b, m, false);
    lemma_opp_right_kept(b, m, true);
    lemma_opp_right_kept(b, m, false);
    lemma_passant_kept(b, m);
    if s == Side::White {
        assert(opposite(s) == Side::Black);
    } else {
        assert(opposite(s) == Side::White);
    }
}

/// On a settled board the mover keeps its king through any pseudo-legal move.
proof fn lemma_king_stays(b: Board, m: Move)
    requires
        settled(b),
        sound_move(b, m),
        shaped(b, m),
        b.pieces(b.side)[0] != 0,
    ensures
        after_move(b, m).pieces(b.side)[0] != 0,
{
    broadcast use group_bits;

    let s = b.side;
    let p = b.pieces(s);
    let a = after_move(b, m);
    let np = moved_pieces(p, m);
    assert(a.pieces(s) == np);
    lemma_fits_squares(b, m);
    if m.piece == Piece::King {
        lemma_mover_square(b, m, 0, m.to as int);
        assert(sq_in(np[0], m.to as int));
    } else {
        lemma_nonzero_has(p[0]);
        let j = lowest(p[0]);
        lemma_mover_square(b, m, 0, j);
        lemma_square_of(b, j);
        if j == m.from as int {
            lemma_disjoint6_sq(p, 0, piece_index(m.piece), j);
        }
        if j == m.to as int {
            if s == Side::White {
                assert(sq_in(b.white[0], j));
            } else {
                assert(sq_in(b.black[0], j));
            }
        }
        assert(sq_in(np[0], j));
    }
}

/// Move generation and testing cannot fail on a settled board in the normal
/// state whose side to move has a king, whose move counters can still grow,
/// and with no more pseudo-legal moves than a move list holds.
pub proof fn lemma_settled_movegen_ok(b: Board)
    requires
        settled(b),
        b.state == GameState::Normal,
        b.pieces(b.side)[0] != 0,
        b.half_move < usize::MAX,
        b.full_move < usize::MAX,
        pseudo_moves(b).len() <= move_list_cap(),
    ensures
        movegen_ok(b),
{
    lemma_pseudo_moves_sound(b);
    lemma_pseudo_moves_shaped(b);
    if castle_open(b, false) {
        lemma_castle_sound(b, false);
    }
    assert(!castle_underflows(b));
    assert forall|i: int| 0 <= i < pseudo_moves(b).len() implies check_ok(b, #[trigger] pseudo_moves(b)[i]) by {
        let m = pseudo_moves(b)[i];
        assert(sound_move(b, m));
        assert(shaped(b, m));
        lemma_king_stays(b, m);
        assert(can_make(b, m));
    }
}

proof fn lemma_start_squares()
    by (bit_vector)
    ensures
        1u64 << 4u64 == 16u64,
        1u64 << 60u64 == 1152921504606846976u64,
        (129u64 >> 0u64) & 1u64 == 1u64,
        (129u64 >> 7u64) & 1u64 == 1u64,
        (9295429630892703744u64 >> 56u64) & 1u64 == 1u64,
        (9295429630892703744u64 >> 63u64) & 1u64 == 1u64,
{
}

/// The initial position is settled.
pub proof fn lemma_start_settled(b: Board)
    requires
        b.white@ == start_white(),
        b.black@ == start_black(),
        b.white_bb == 65535,
        b.black_bb == 18446462598732840960,
        b.en_passant == 0,
    ensures
        settled(b),
{
    lemma_start_wf(b);
    lemma_start_squares();
    assert(b.white[0] == 16 && b.white[2] == 129);
    assert(b.black[0] == 1152921504606846976 && b.black[2] == 9295429630892703744);
    crate::bits::lemma_bit_basics(occupied(b), 0, 0);
}

/// On a settled board in the normal state, playing any pseudo-legal move and
/// taking it back gives back the board as it was.
pub proof fn lemma_pseudo_move_undone(b: Board, i: int)
    requires
        settled(b),
        b.state == GameState::Normal,
        0 <= i < pseudo_moves(b).len(),
        can_make(b, pseudo_moves(b)[i]),
    ensures
        unmade(after_move(b, pseudo_moves(b)[i]), moved(b, pseudo_moves(b)[i]), undo_of(b)) == b,
{
    lemma_pseudo_moves_sound(b);
    lemma_unmake_undoes_make(b, pseudo_moves(b)[i]);
}

} // verus!
