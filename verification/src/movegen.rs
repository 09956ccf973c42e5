//! Pseudo-legal move generation: every move of the side to move that obeys
//! how its pieces move, before the question of leaving its king attacked.
//! Slider attacks come from walking the rays (`rook_slider_attack`,
//! `generate_bishop_sliding`), not from the magic tables; `lemma_magic_lookup`
//! shows a table lookup gives the same set.
use vstd::prelude::*;
use crate::bits::{sq_bb, lowest, pop_lowest, lemma_pop_lowest, lemma_nonzero_has};
use crate::attacks::{knight_attacks, king_attacks, pawn_attacks, knight_moves_at, king_moves_at, pawn_attacks_at};
use crate::magic_table::{rook_attack, bishop_attack, rook_slider_attack, generate_bishop_sliding};
use crate::board::{Bitboard, Board, Castling, Move, MoveList, Piece, Side, plain_move, castle_path, move_list_cap};

verus! {

/// All occupied squares.
pub open spec fn occupied(b: Board) -> Bitboard {
    b.white_bb | b.black_bb
}

/// Quiet moves of `piece` from `from` to each square of `targets`, lowest square first.
pub open spec fn moves_to(from: int, targets: Bitboard, piece: Piece) -> Seq<Move>
    decreases targets,
{
    if targets == 0 {
        Seq::empty()
    } else {
        proof {
            lemma_pop_lowest(targets);
        }
        seq![plain_move(from as u8, lowest(targets) as u8, piece, None)] + moves_to(
            from,
            pop_lowest(targets),
            piece,
        )
    }
}

/// Squares a `piece` of the side to move on `from` can move to.
pub open spec fn piece_targets(b: Board, piece: Piece, from: int) -> Bitboard {
    let own = b.occupancy(b.side);
    let occ = occupied(b);
    match piece {
        Piece::Knight => knight_attacks(from) & !own,
        Piece::Bishop => bishop_attack(occ, from) & !own,
        Piece::Rook => rook_attack(occ, from) & !own,
        Piece::Queen => (bishop_attack(occ, from) & !own) | (rook_attack(occ, from) & !own),
        Piece::King => king_attacks(from) & !own,
        _ => 0,
    }
}

/// Moves of the `piece`s on the squares of `froms`, lowest square first.
pub open spec fn piece_moves(b: Board, froms: Bitboard, piece: Piece) -> Seq<Move>
    decreases froms,
{
    if froms == 0 {
        Seq::empty()
    } else {
        proof {
            lemma_pop_lowest(froms);
        }
        moves_to(lowest(froms), piece_targets(b, piece, lowest(froms)), piece) + piece_moves(
            b,
            pop_lowest(froms),
            piece,
        )
    }
}

/// Squares a pawn of the side to move on `sq` can move to: one step ahead if
/// empty, two from its starting rank if both are empty, and diagonal steps
/// onto an opposing piece or the en passant square.
pub open spec fn pawn_targets(b: Board, sq: int) -> Bitboard {
    let bb = sq_bb(sq);
    let occ = occupied(b);
    let forward = match b.side {
        Side::White => (bb << 8u64) | (if sq / 8 == 1 && (bb << 8u64) & occ == 0 {
            bb << 16u64
        } else {
            0u64
        }),
        Side::Black => (bb >> 8u64) | (if sq / 8 == 6 && (bb >> 8u64) & occ == 0 {
            bb >> 16u64
        } else {
            0u64
        }),
    };
    (forward & !occ) | (pawn_attacks(b.side == Side::White, sq) & (b.occupancy(
        crate::board::opposite(b.side),
    ) | b.en_passant))
}

/// A pawn move of the side to move, marked en passant when it lands on the en passant square.
pub open spec fn pawn_move(b: Board, from: int, to: int, promotion: Option<Piece>) -> Move {
    Move {
        is_en_passant: sq_bb(to) & b.en_passant != 0,
        ..plain_move(from as u8, to as u8, Piece::Pawn, promotion)
    }
}

/// A pawn of the side to move reaching `to` promotes.
pub open spec fn promotes(b: Board, to: int) -> bool {
    (b.side == Side::White && to >= 56) || (b.side == Side::Black && to <= 7)
}

/// Moves of a pawn on `from` to each square of `targets`: four promotions
/// (queen, rook, bishop, knight) on the last rank, one move elsewhere.
pub open spec fn pawn_moves_to(b: Board, from: int, targets: Bitboard) -> Seq<Move>
    decreases targets,
{
    if targets == 0 {
        Seq::empty()
    } else {
        proof {
            lemma_pop_lowest(targets);
        }
        let to = lowest(targets);
        (if promotes(b, to) {
            seq![
                pawn_move(b, from, to, Some(Piece::Queen)),
                pawn_move(b, from, to, Some(Piece::Rook)),
                pawn_move(b, from, to, Some(Piece::Bishop)),
                pawn_move(b, from, to, Some(Piece::Knight)),
            ]
        } else {
            seq![pawn_move(b, from, to, None)]
        }) + pawn_moves_to(b, from, pop_lowest(targets))
    }
}

/// Moves of the pawns on the squares of `froms`, lowest square first.
pub open spec fn pawn_moves(b: Board, froms: Bitboard) -> Seq<Move>
    decreases froms,
{
    if froms == 0 {
        Seq::empty()
    } else {
        proof {
            lemma_pop_lowest(froms);
        }
        pawn_moves_to(b, lowest(froms), pawn_targets(b, lowest(froms))) + pawn_moves(
            b,
            pop_lowest(froms),
        )
    }
}

/// Castling right of the side to move: king side (`king_side`) or queen side.
pub open spec fn has_right(b: Board, king_side: bool) -> bool {
    let c = b.castling.0;
    match b.side {
        Side::White => if king_side {
            c & 1u8 != 0
        } else {
            c & 2u8 != 0
        },
        Side::Black => if king_side {
            c & 4u8 != 0
        } else {
            c & 8u8 != 0
        },
    }
}

/// The castling king move from `from` to `to`.
pub open spec fn castle_move(from: int, to: int) -> Move {
    Move { is_castle: true, ..plain_move(from as u8, to as u8, Piece::King, None) }
}

/// The side to move may castle king side (`king_side`) or queen side: it has
/// the right and the squares in between are empty.
pub open spec fn castle_open(b: Board, king_side: bool) -> bool {
    has_right(b, king_side) && (if king_side {
        castle_path(b.side).0
    } else {
        castle_path(b.side).1
    }) & occupied(b) == 0
}

/// Moves of the king of the side to move (the lowest one, if there are
/// several): its steps, then castling king side, then queen side.
pub open spec fn king_moves(b: Board) -> Seq<Move> {
    let k = b.pieces(b.side)[0];
    if k == 0 {
        Seq::empty()
    } else {
        let from = lowest(k);
        moves_to(from, piece_targets(b, Piece::King, from), Piece::King) + (if castle_open(
            b,
            true,
        ) {
            seq![castle_move(from, from + 2)]
        } else {
            Seq::empty()
        }) + (if castle_open(b, false) {
            seq![castle_move(from, from - 2)]
        } else {
            Seq::empty()
        })
    }
}

/// Every pseudo-legal move of the side to move, in the order the generator
/// lists them: pawns, knights, bishops, rooks, queens, king.
pub open spec fn pseudo_moves(b: Board) -> Seq<Move> {
    let p = b.pieces(b.side);
    pawn_moves(b, p[5]) + piece_moves(b, p[4], Piece::Knight) + piece_moves(b, p[3], Piece::Bishop)
        + piece_moves(b, p[2], Piece::Rook) + piece_moves(b, p[1], Piece::Queen) + king_moves(b)
}

/// No move of `s` records a capture.
pub open spec fn quiet(s: Seq<Move>) -> bool {
    forall|i: int| 0 <= i < s.len() ==> (#[trigger] s[i]).capture is None
}

proof fn lemma_quiet_concat(a: Seq<Move>, b: Seq<Move>)
    requires
        quiet(a),
        quiet(b),
    ensures
        quiet(a + b),
{
    assert forall|i: int| 0 <= i < (a + b).len() implies (#[trigger] (a + b)[i]).capture is None by {
        if i < a.len() {
            assert((a + b)[i] == a[i]);
        } else {
            assert((a + b)[i] == b[i - a.len()]);
        }
    }
}

proof fn lemma_moves_to_quiet(from: int, targets: Bitboard, piece: Piece)
    ensures
        quiet(moves_to(from, targets, piece)),
    decreases targets,
{
    if targets != 0 {
        lemma_pop_lowest(targets);
        lemma_moves_to_quiet(from, pop_lowest(targets), piece);
        lemma_quiet_concat(
            seq![plain_move(from as u8, lowest(targets) as u8, piece, None)],
            moves_to(from, pop_lowest(targets), piece),
        );
    }
}

proof fn lemma_piece_moves_quiet(b: Board, froms: Bitboard, piece: Piece)
    ensures
        quiet(piece_moves(b, froms, piece)),
    decreases froms,
{
    if froms != 0 {
        lemma_pop_lowest(froms);
        lemma_piece_moves_quiet(b, pop_lowest(froms), piece);
        lemma_moves_to_quiet(lowest(froms), piece_targets(b, piece, lowest(froms)), piece);
        lemma_quiet_concat(
            moves_to(lowest(froms), piece_targets(b, piece, lowest(froms)), piece),
            piece_moves(b, pop_lowest(froms), piece),
        );
    }
}

proof fn lemma_pawn_moves_to_quiet(b: Board, from: int, targets: Bitboard)
    ensures
        quiet(pawn_moves_to(b, from, targets)),
    decreases targets,
{
    if targets != 0 {
        lemma_pop_lowest(targets);
        let to = lowest(targets);
        lemma_pawn_moves_to_quiet(b, from, pop_lowest(targets));
        let head = if promotes(b, to) {
            seq![
                pawn_move(b, from, to, Some(Piece::Queen)),
                pawn_move(b, from, to, Some(Piece::Rook)),
                pawn_move(b, from, to, Some(Piece::Bishop)),
                pawn_move(b, from, to, Some(Piece::Knight)),
            ]
        } else {
            seq![pawn_move(b, from, to, None)]
        };
        lemma_quiet_concat(head, pawn_moves_to(b, from, pop_lowest(targets)));
    }
}

proof fn lemma_pawn_moves_quiet(b: Board, froms: Bitboard)
    ensures
        quiet(pawn_moves(b, froms)),
    decreases froms,
{
    if froms != 0 {
        lemma_pop_lowest(froms);
        lemma_pawn_moves_quiet(b, pop_lowest(froms));
        lemma_pawn_moves_to_quiet(b, lowest(froms), pawn_targets(b, lowest(froms)));
        lemma_quiet_concat(
            pawn_moves_to(b, lowest(froms), pawn_targets(b, lowest(froms))),
            pawn_moves(b, pop_lowest(froms)),
        );
    }
}

/// The generator records no capture: `make_move` is what records one.
pub proof fn lemma_pseudo_moves_quiet(b: Board)
    ensures
        quiet(pseudo_moves(b)),
{
    let p = b.pieces(b.side);
    lemma_pawn_moves_quiet(b, p[5]);
    lemma_piece_moves_quiet(b, p[4], Piece::Knight);
    lemma_piece_moves_quiet(b, p[3], Piece::Bishop);
    lemma_piece_moves_quiet(b, p[2], Piece::Rook);
    lemma_piece_moves_quiet(b, p[1], Piece::Queen);
    let k = p[0];
    if k != 0 {
        let from = lowest(k);
        lemma_moves_to_quiet(from, piece_targets(b, Piece::King, from), Piece::King);
        let c1: Seq<Move> = if castle_open(b, true) {
            seq![castle_move(from, from + 2)]
        } else {
            Seq::empty()
        };
        let c2: Seq<Move> = if castle_open(b, false) {
            seq![castle_move(from, from - 2)]
        } else {
            Seq::empty()
        };
        lemma_quiet_concat(moves_to(from, piece_targets(b, Piece::King, from), Piece::King), c1);
        lemma_quiet_concat(moves_to(from, piece_targets(b, Piece::King, from), Piece::King) + c1, c2);
    }
    assert(quiet(king_moves(b)));
    let a = pawn_moves(b, p[5]);
    let n = piece_moves(b, p[4], Piece::Knight);
    let bi = piece_moves(b, p[3], Piece::Bishop);
    let r = piece_moves(b, p[2], Piece::Rook);
    let q = piece_moves(b, p[1], Piece::Queen);
    lemma_quiet_concat(a, n);
    lemma_quiet_concat(a + n, bi);
    lemma_quiet_concat(a + n + bi, r);
    lemma_quiet_concat(a + n + bi + r, q);
    lemma_quiet_concat(a + n + bi + r + q, king_moves(b));
}

/// Queen side castling from `from` would step below square 0.
pub open spec fn castle_underflows(b: Board) -> bool {
    let k = b.pieces(b.side)[0];
    k != 0 && castle_open(b, false) && lowest(k) < 2
}

/// Appends the moves of `piece` from `from` to each square of `targets`.
fn push_moves_to(list: &mut MoveList, from: usize, targets: Bitboard, piece: Piece)
    requires
        from < 64,
        old(list)@.len() + moves_to(from as int, targets, piece).len() <= move_list_cap(),
    ensures
        final(list)@ == old(list)@ + moves_to(from as int, targets, piece),
{
    let mut attacks = targets;
    while attacks != 0
        invariant
            from < 64,
            old(list)@ + moves_to(from as int, targets, piece) == list@ + moves_to(
                from as int,
                attacks,
                piece,
            ),
            list@.len() + moves_to(from as int, attacks, piece).len() <= move_list_cap(),
        decreases attacks,
    {
        proof {
            lemma_pop_lowest(attacks);
            lemma_nonzero_has(attacks);
        }
        let to = attacks.trailing_zeros();
        let ghost before = list@;
        list.push(Move::new(from as u8, to as u8, piece, None));
        proof {
            assert(before + moves_to(from as int, attacks, piece) =~= list@ + moves_to(
                from as int,
                pop_lowest(attacks),
                piece,
            ));
        }
        attacks = attacks & (attacks - 1);
    }
}

impl Board {
    /// Squares a `piece` of the side to move on `from` can move to.
    fn targets_at(&self, piece: Piece, from: usize) -> (r: Bitboard)
        requires
            from < 64,
            piece == Piece::Knight || piece == Piece::Bishop || piece == Piece::Rook || piece
                == Piece::Queen || piece == Piece::King,
        ensures
            r == piece_targets(*self, piece, from as int),
    {
        let own = self.side_bb();
        let occ = self.white_bb | self.black_bb;
        match piece {
            Piece::Knight => knight_moves_at(from) & !own,
            Piece::Bishop => generate_bishop_sliding(occ, from) & !own,
            Piece::Rook => rook_slider_attack(occ, from) & !own,
            Piece::Queen => (generate_bishop_sliding(occ, from) & !own) | (rook_slider_attack(
                occ,
                from,
            ) & !own),
            _ => king_moves_at(from) & !own,
        }
    }

    /// Appends the moves of the `piece`s standing on the squares of `froms`.
    fn push_piece_moves(&self, list: &mut MoveList, froms: Bitboard, piece: Piece)
        requires
            piece == Piece::Knight || piece == Piece::Bishop || piece == Piece::Rook || piece
                == Piece::Queen,
            old(list)@.len() + piece_moves(*self, froms, piece).len() <= move_list_cap(),
        ensures
            final(list)@ == old(list)@ + piece_moves(*self, froms, piece),
    {
        let mut pieces = froms;
        while pieces != 0
            invariant
                piece == Piece::Knight || piece == Piece::Bishop || piece == Piece::Rook || piece
                    == Piece::Queen,
                old(list)@ + piece_moves(*self, froms, piece) == list@ + piece_moves(
                    *self,
                    pieces,
                    piece,
                ),
                list@.len() + piece_moves(*self, pieces, piece).len() <= move_list_cap(),
            decreases pieces,
        {
            proof {
                lemma_pop_lowest(pieces);
                lemma_nonzero_has(pieces);
            }
            let from = pieces.trailing_zeros() as usize;
            let ghost before = list@;
            let targets = self.targets_at(piece, from);
            push_moves_to(list, from, targets, piece);
            proof {
                assert(before + piece_moves(*self, pieces, piece) =~= list@ + piece_moves(
                    *self,
                    pop_lowest(pieces),
                    piece,
                ));
            }
            pieces = pieces & (pieces - 1);
        }
    }

    /// Appends the knight moves of the side to move.
    pub fn generate_moves_knight(&self, list: &mut MoveList)
        requires
            old(list)@.len() + piece_moves(*self, self.pieces(self.side)[4], Piece::Knight).len()
                <= move_list_cap(),
        ensures
            final(list)@ == old(list)@ + piece_moves(
                *self,
                self.pieces(self.side)[4],
                Piece::Knight,
            ),
    {
        let knights = self.side_pieces()[4];
        self.push_piece_moves(list, knights, Piece::Knight);
    }

    /// Appends the bishop moves of the side to move.
    pub fn get_bishop_moves(&self, list: &mut MoveList)
        requires
            old(list)@.len() + piece_moves(*self, self.pieces(self.side)[3], Piece::Bishop).len()
                <= move_list_cap(),
        ensures
            final(list)@ == old(list)@ + piece_moves(
                *self,
                self.pieces(self.side)[3],
                Piece::Bishop,
            ),
    {
        let bishops = self.side_pieces()[3];
        self.push_piece_moves(list, bishops, Piece::Bishop);
    }

    /// Appends the rook moves of the side to move.
    pub fn get_rook_moves(&self, list: &mut MoveList)
        requires
            old(list)@.len() + piece_moves(*self, self.pieces(self.side)[2], Piece::Rook).len()
                <= move_list_cap(),
        ensures
            final(list)@ == old(list)@ + piece_moves(*self, self.pieces(self.side)[2], Piece::Rook),
    {
        let rooks = self.side_pieces()[2];
        self.push_piece_moves(list, rooks, Piece::Rook);
    }

    /// Appends the queen moves of the side to move.
    pub fn get_queen_moves(&self, list: &mut MoveList)
        requires
            old(list)@.len() + piece_moves(*self, self.pieces(self.side)[1], Piece::Queen).len()
                <= move_list_cap(),
        ensures
            final(list)@ == old(list)@ + piece_moves(
                *self,
                self.pieces(self.side)[1],
                Piece::Queen,
            ),
    {
        let queens = self.side_pieces()[1];
        self.push_piece_moves(list, queens, Piece::Queen);
    }

    /// Squares a pawn of the side to move on `sq` can move to.
    pub fn pawn_move_at_sq(&self, sq: usize) -> (r: Bitboard)
        requires
            sq < 64,
        ensures
            r == pawn_targets(*self, sq as int),
    {
        let bb: Bitboard = 1u64 << (sq as u64);
        let occ = self.white_bb | self.black_bb;
        let forward: Bitboard = match self.side {
            Side::White => (bb << 8u64) | (if sq / 8 == 1 && ((bb << 8u64) & occ) == 0 {
                bb << 16u64
            } else {
                0
            }),
            Side::Black => (bb >> 8u64) | (if sq / 8 == 6 && ((bb >> 8u64) & occ) == 0 {
                bb >> 16u64
            } else {
                0
            }),
        };
        (forward & !occ) | (pawn_attacks_at(self.side == Side::White, sq) & (self.opp_bb()
            | self.en_passant))
    }

    /// Appends the pawn moves of the side to move: for each pawn and each of its
    /// target squares, four promotions on the last rank or one move elsewhere.
    pub fn generate_moves_pawn(&self, list: &mut MoveList)
        requires
            old(list)@.len() + pawn_moves(*self, self.pieces(self.side)[5]).len()
                <= move_list_cap(),
        ensures
            final(list)@ == old(list)@ + pawn_moves(*self, self.pieces(self.side)[5]),
    {
        let froms = self.side_pieces()[5];
        let mut pawns = froms;
        while pawns != 0
            invariant
                froms == self.pieces(self.side)[5],
                old(list)@ + pawn_moves(*self, froms) == list@ + pawn_moves(*self, pawns),
                list@.len() + pawn_moves(*self, pawns).len() <= move_list_cap(),
            decreases pawns,
        {
            proof {
                lemma_pop_lowest(pawns);
                lemma_nonzero_has(pawns);
            }
            let from = pawns.trailing_zeros() as usize;
            let ghost outer = list@;
            let targets = self.pawn_move_at_sq(from);
            let mut attacks = targets;
            while attacks != 0
                invariant
                    from < 64,
                    outer + pawn_moves_to(*self, from as int, targets) == list@ + pawn_moves_to(
                        *self,
                        from as int,
                        attacks,
                    ),
                    list@.len() + pawn_moves_to(*self, from as int, attacks).len() + pawn_moves(
                        *self,
                        pop_lowest(pawns),
                    ).len() <= move_list_cap(),
                decreases attacks,
            {
                proof {
                    lemma_pop_lowest(attacks);
                    lemma_nonzero_has(attacks);
                }
                let to = attacks.trailing_zeros();
                let promotion = (self.side == Side::White && to >= 56) || (self.side == Side::Black
                    && to <= 7);
                let en_passant = (1u64 << (to as u64)) & self.en_passant != 0;
                let ghost before = list@;
                if promotion {
                    list.push(
                        Move::new(from as u8, to as u8, Piece::Pawn, Some(Piece::Queen)).en_passant(
                            en_passant,
                        ),
                    );
                    list.push(
                        Move::new(from as u8, to as u8, Piece::Pawn, Some(Piece::Rook)).en_passant(
                            en_passant,
                        ),
                    );
                    list.push(
                        Move::new(from as u8, to as u8, Piece::Pawn, Some(Piece::Bishop)).en_passant(
                            en_passant,
                        ),
                    );
                    list.push(
                        Move::new(from as u8, to as u8, Piece::Pawn, Some(Piece::Knight)).en_passant(
                            en_passant,
                        ),
                    );
                } else {
                    list.push(Move::new(from as u8, to as u8, Piece::Pawn, None).en_passant(en_passant));
                }
                proof {
                    assert(before + pawn_moves_to(*self, from as int, attacks) =~= list@
                        + pawn_moves_to(*self, from as int, pop_lowest(attacks)));
                }
                attacks = attacks & (attacks - 1);
            }
            proof {
                assert(outer + pawn_moves(*self, pawns) =~= list@ + pawn_moves(
                    *self,
                    pop_lowest(pawns),
                ));
            }
            pawns = pawns & (pawns - 1);
        }
    }

    /// Appends the king moves of the side to move, castling last.
    pub fn generate_moves_king(&self, list: &mut MoveList)
        requires
            old(list)@.len() + king_moves(*self).len() <= move_list_cap(),
            !castle_underflows(*self),
        ensures
            final(list)@ == old(list)@ + king_moves(*self),
    {
        let king = self.side_pieces()[0];
        if king != 0 {
            proof {
                lemma_nonzero_has(king);
            }
            let from = king.trailing_zeros() as usize;
            let targets = self.targets_at(Piece::King, from);
            let ghost start = list@;
            push_moves_to(list, from, targets, Piece::King);
            let castling = self.castling.get_side(self.side);
            let masks = Castling::get_side_mask(self.side);
            let occ = self.white_bb | self.black_bb;
            let ghost mid = list@;
            if castling[0] && masks[0] & occ == 0 {
                list.push(Move::new(from as u8, from as u8 + 2, Piece::King, None).castle());
            }
            let ghost mid2 = list@;
            if castling[1] && masks[1] & occ == 0 {
                list.push(Move::new(from as u8, from as u8 - 2, Piece::King, None).castle());
            }
            proof {
                assert(list@ =~= start + king_moves(*self));
            }
        }
    }

    /// Every pseudo-legal move of the side to move.
    pub fn generate_pseudo_moves(&self) -> (list: MoveList)
        requires
            pseudo_moves(*self).len() <= move_list_cap(),
            !castle_underflows(*self),
        ensures
            list@ == pseudo_moves(*self),
    {
        let mut list = MoveList::new();
        let ghost p = self.pieces(self.side);
        let ghost a = pawn_moves(*self, p[5]);
        let ghost b = piece_moves(*self, p[4], Piece::Knight);
        let ghost c = piece_moves(*self, p[3], Piece::Bishop);
        let ghost d = piece_moves(*self, p[2], Piece::Rook);
        let ghost e = piece_moves(*self, p[1], Piece::Queen);
        let ghost f = king_moves(*self);
        self.generate_moves_pawn(&mut list);
        assert(list@ =~= a);
        self.generate_moves_knight(&mut list);
        assert(list@ =~= a + b);
        self.get_bishop_moves(&mut list);
        assert(list@ =~= a + b + c);
        self.get_rook_moves(&mut list);
        assert(list@ =~= a + b + c + d);
        self.get_queen_moves(&mut list);
        assert(list@ =~= a + b + c + d + e);
        self.generate_moves_king(&mut list);
        list
    }
}

} // verus!
