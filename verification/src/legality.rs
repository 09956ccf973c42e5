//! Attack detection, legality of a move (it must not leave the mover's king
//! attacked, and a castling king must not start on, cross or land on an
//! attacked square), the legal move list, the end of the game, and perft.
use vstd::prelude::*;
use core::ops::Not;
use crate::bits::{lowest, pop_lowest, lemma_pop_lowest, lemma_nonzero_has};
use crate::attacks::{knight_attacks, king_attacks, pawn_attacks, knight_moves_at, king_moves_at, pawn_attacks_at};
use crate::magic_table::{rook_attack, bishop_attack, rook_slider_attack, generate_bishop_sliding, col_mask, col_mask_spec};
use crate::board::{
    Bitboard, Board, Castling, GameState, Move, MoveList, Side, UndoInfo, after_move, can_make,
    can_unmake, castle_path, move_fits, move_list_cap, moved, opposite, undo_of, unmade,
};
use crate::movegen::{occupied, pseudo_moves, castle_underflows};
use crate::board_laws::lemma_unmake_undoes_make;

verus! {

/// Square `sq` is attacked by a piece of the side not to move.
pub open spec fn attacked(b: Board, sq: int) -> bool {
    let enemy = b.pieces(opposite(b.side));
    let occ = occupied(b);
    ||| king_attacks(sq) & enemy[0] != 0
    ||| knight_attacks(sq) & enemy[4] != 0
    ||| pawn_attacks(b.side == Side::White, sq) & enemy[5] != 0
    ||| rook_attack(occ, sq) & (enemy[2] | enemy[1]) != 0
    ||| bishop_attack(occ, sq) & (enemy[3] | enemy[1]) != 0
}

/// Square of the (lowest) king of side `s`; 64 when it has none.
pub open spec fn king_square(b: Board, s: Side) -> int {
    lowest(b.pieces(s)[0])
}

/// No square of `mask` is attacked.
pub open spec fn none_attacked(b: Board, mask: Bitboard) -> bool
    decreases mask,
{
    if mask == 0 {
        true
    } else {
        proof {
            lemma_pop_lowest(mask);
        }
        !attacked(b, lowest(mask)) && none_attacked(b, pop_lowest(mask))
    }
}

/// Squares the castling king `m` crosses or lands on.
pub open spec fn castle_squares(b: Board, m: Move) -> Bitboard {
    if m.to % 8 == 6 {
        castle_path(b.side).0
    } else {
        castle_path(b.side).1 & !col_mask_spec(1)
    }
}

/// The king does not castle out of, through or into attack.
pub open spec fn castle_safe(b: Board, m: Move) -> bool {
    !attacked(b, king_square(b, b.side)) && none_attacked(b, castle_squares(b, m))
}

/// After `m` the mover's king is attacked.
pub open spec fn leaves_check(b: Board, m: Move) -> bool {
    let a = after_move(b, m);
    attacked(Board { side: b.side, ..a }, king_square(a, b.side))
}

/// `m` is legal on `b`.
pub open spec fn legal(b: Board, m: Move) -> bool {
    (m.is_castle ==> castle_safe(b, m)) && !leaves_check(b, m)
}

/// What `is_legal` needs of `m` on `b`: it indexes in range, fits the board,
/// and leaves the mover with a king to test.
pub open spec fn check_ok(b: Board, m: Move) -> bool {
    &&& move_fits(b, m)
    &&& can_make(b, m)
    &&& b.pieces(b.side)[0] != 0
    &&& after_move(b, m).pieces(b.side)[0] != 0
}

/// The legal moves among the first `i` of `s`, as `is_legal` leaves them.
pub open spec fn legal_prefix(b: Board, s: Seq<Move>, i: int) -> Seq<Move>
    decreases i,
{
    if i <= 0 {
        Seq::empty()
    } else {
        legal_prefix(b, s, i - 1) + if legal(b, s[i - 1]) {
            seq![moved(b, s[i - 1])]
        } else {
            Seq::empty()
        }
    }
}

/// The legal moves of the side to move, in generation order.
pub open spec fn legal_moves(b: Board) -> Seq<Move> {
    legal_prefix(b, pseudo_moves(b), pseudo_moves(b).len() as int)
}

/// Moves can be generated and tested on `b` without a panic, and testing
/// them leaves `b` as it was.
pub open spec fn movegen_ok(b: Board) -> bool {
    &&& b.wf()
    &&& b.state == GameState::Normal
    &&& pseudo_moves(b).len() <= move_list_cap()
    &&& !castle_underflows(b)
    &&& forall|i: int| 0 <= i < pseudo_moves(b).len() ==> check_ok(b, #[trigger] pseudo_moves(b)[i])
}

/// The state a side without legal moves ends the game in.
pub open spec fn end_state(b: Board) -> GameState {
    if attacked(b, king_square(b, b.side)) {
        match b.side {
            Side::White => GameState::WhiteCheckmate,
            Side::Black => GameState::BlackCheckmate,
        }
    } else {
        GameState::Stalemate
    }
}

proof fn lemma_can_unmake(b: Board, m: Move)
    requires
        can_make(b, m),
    ensures
        can_unmake(after_move(b, m), moved(b, m)),
{
    let k = crate::board::taken_index(b, m);
    if 0 <= k < 6 {
        assert(crate::board::piece_index(crate::board::piece_at_index(k)) == k);
    }
    if k < 0 {
        crate::board_laws::lemma_first_hit_nonneg(
            b.pieces(opposite(b.side)),
            crate::board::capture_square(b.side, m),
        );
    }
}

impl Board {
    /// Square `sq` is attacked by a piece of the side not to move.
    pub fn is_attacked(&self, sq: usize) -> (r: bool)
        requires
            sq < 64,
        ensures
            r == attacked(*self, sq as int),
    {
        let enemy = self.opp_pieces();
        let occ = self.white_bb | self.black_bb;
        if king_moves_at(sq) & enemy[0] != 0 {
            return true;
        }
        if knight_moves_at(sq) & enemy[4] != 0 {
            return true;
        }
        if pawn_attacks_at(self.side == Side::White, sq) & enemy[5] != 0 {
            return true;
        }
        if rook_slider_attack(occ, sq) & (enemy[2] | enemy[1]) != 0 {
            return true;
        }
        if generate_bishop_sliding(occ, sq) & (enemy[3] | enemy[1]) != 0 {
            return true;
        }
        false
    }

    /// The king of the side to move is not attacked, and no square that the
    /// castling king `m` crosses or lands on is.
    pub fn castle_clear(&self, m: &Move) -> (r: bool)
        requires
            self.pieces(self.side)[0] != 0,
        ensures
            r == castle_safe(*self, *m),
    {
        proof {
            lemma_nonzero_has(self.pieces(self.side)[0]);
        }
        let sq = self.side_pieces()[0].trailing_zeros();
        if self.is_attacked(sq as usize) {
            return false;
        }
        let masks = Castling::get_side_mask(self.side);
        let mut mask = if m.to % 8 == 6 {
            masks[0]
        } else {
            masks[1] & !col_mask(1)
        };
        let ghost start = mask;
        while mask != 0
            invariant
                start == castle_squares(*self, *m),
                !attacked(*self, king_square(*self, self.side)),
                none_attacked(*self, start) == none_attacked(*self, mask),
            decreases mask,
        {
            proof {
                lemma_pop_lowest(mask);
                lemma_nonzero_has(mask);
            }
            let sq = mask.trailing_zeros();
            if self.is_attacked(sq as usize) {
                return false;
            }
            mask = mask & (mask - 1);
        }
        true
    }

    /// Plays `m` and tells whether it leaves the mover's king attacked.
    pub(crate) fn play_tested(&mut self, m: &mut Move) -> (r: (UndoInfo, bool))
        requires
            can_make(*old(self), *old(m)),
            after_move(*old(self), *old(m)).pieces(old(self).side)[0] != 0,
        ensures
            *final(self) == after_move(*old(self), *old(m)),
            *final(m) == moved(*old(self), *old(m)),
            r.0 == undo_of(*old(self)),
            r.1 == leaves_check(*old(self), *old(m)),
    {
        let undo = self.make_move(m);
        self.side = self.side.not();
        proof {
            lemma_nonzero_has(self.pieces(self.side)[0]);
        }
        let sq = self.side_pieces()[0].trailing_zeros();
        let illegal = self.is_attacked(sq as usize);
        self.side = self.side.not();
        (undo, illegal)
    }

    /// Plays `m`, tests whether it leaves the mover's king attacked, and takes it
    /// back; a castling move is first refused when the king starts on, crosses or
    /// lands on an attacked square.
    pub fn is_legal(&mut self, m: &mut Move) -> (r: bool)
        requires
            can_make(*old(self), *old(m)),
            old(self).pieces(old(self).side)[0] != 0,
            after_move(*old(self), *old(m)).pieces(old(self).side)[0] != 0,
        ensures
            r == legal(*old(self), *old(m)),
            old(m).is_castle && !castle_safe(*old(self), *old(m)) ==> *final(self) == *old(self)
                && *final(m) == *old(m),
            !(old(m).is_castle && !castle_safe(*old(self), *old(m))) ==> *final(self) == unmade(
                after_move(*old(self), *old(m)),
                moved(*old(self), *old(m)),
                undo_of(*old(self)),
            ) && *final(m) == moved(*old(self), *old(m)),
    {
        let ghost b0 = *self;
        if m.is_castle && !self.castle_clear(m) {
            return false;
        }
        let (undo, illegal) = self.play_tested(m);
        proof {
            lemma_can_unmake(b0, *old(m));
        }
        self.unmake_move(m, &undo);
        !illegal
    }
}

impl Board {
    /// The legal moves of the side to move, each recorded with what it takes.
    fn get_legal_moves(&mut self) -> (r: MoveList)
        requires
            movegen_ok(*old(self)),
        ensures
            r@ == legal_moves(*old(self)),
            *final(self) == *old(self),
    {
        let ghost b0 = *self;
        let mut list = self.generate_pseudo_moves();
        let ghost ps = list@;
        let mut legal_list = MoveList::new();
        let n = list.end();
        let mut i: usize = 0;
        while i < n
            invariant
                *self == b0,
                movegen_ok(b0),
                ps == pseudo_moves(b0),
                n == ps.len(),
                i <= n,
                list@.len() == n,
                forall|j: int| i <= j < n ==> list@[j] == ps[j],
                legal_list@ == legal_prefix(b0, ps, i as int),
                legal_list@.len() <= i,
            decreases n - i,
        {
            assert(check_ok(b0, ps[i as int]));
            match list.get(i) {
                Some(m) => {
                    proof {
                        lemma_unmake_undoes_make(b0, *m);
                    }
                    if self.is_legal(m) {
                        legal_list.push(*m);
                    }
                },
                None => {},
            }
            i += 1;
        }
        legal_list
    }

    /// The legal moves of the side to move, or `None` when the game is over;
    /// a side left without legal moves ends the game in checkmate or stalemate.
    pub fn get_all_moves(&mut self) -> (r: Option<MoveList>)
        requires
            old(self).state != GameState::Normal || (movegen_ok(*old(self)) && old(self).pieces(
                old(self).side,
            )[0] != 0),
        ensures
            old(self).state != GameState::Normal ==> r is None && *final(self) == *old(self),
            old(self).state == GameState::Normal && legal_moves(*old(self)).len() == 0 ==> r is None
                && *final(self) == (Board { state: end_state(*old(self)), ..*old(self) }),
            old(self).state == GameState::Normal && legal_moves(*old(self)).len() > 0 ==> r is Some
                && r->0@ == legal_moves(*old(self)) && *final(self) == *old(self),
    {
        match self.state {
            GameState::Normal => {},
            _ => return None,
        }
        let moves = self.get_legal_moves();
        if moves.end() == 0 {
            proof {
                lemma_nonzero_has(self.pieces(self.side)[0]);
            }
            let sq = self.side_pieces()[0].trailing_zeros();
            if self.is_attacked(sq as usize) {
                self.state = match self.side {
                    Side::White => GameState::WhiteCheckmate,
                    Side::Black => GameState::BlackCheckmate,
                };
            } else {
                self.state = GameState::Stalemate;
            }
            return None;
        }
        Some(moves)
    }
}

/// Number of legal move sequences of length `depth` from `b`, a game that has
/// ended counting none.
pub open spec fn perft_count(b: Board, depth: nat) -> nat
    decreases depth, 0int,
{
    if depth == 0 {
        1
    } else if b.state != GameState::Normal {
        0
    } else {
        let l = legal_moves(b);
        if l.len() == 0 {
            0
        } else if depth == 1 {
            l.len()
        } else {
            perft_sum(b, l, l.len() as int, (depth - 1) as nat)
        }
    }
}

/// Sum of `perft_count` of depth `depth` over the positions after the first `i` moves of `l`.
pub open spec fn perft_sum(b: Board, l: Seq<Move>, i: int, depth: nat) -> nat
    decreases depth, i + 1,
{
    if i <= 0 {
        0
    } else {
        perft_sum(b, l, i - 1, depth) + perft_count(after_move(b, l[i - 1]), depth)
    }
}

/// `perft(depth)` on `b` reaches no panic: every position it generates moves
/// for admits it.
pub open spec fn perft_ok(b: Board, depth: nat) -> bool
    decreases depth, 0int,
{
    depth == 0 || b.state != GameState::Normal || (movegen_ok(b) && b.pieces(b.side)[0] != 0 && (
    depth > 1 ==> perft_all_ok(b, legal_moves(b), legal_moves(b).len() as int, (depth - 1) as nat)))
}

/// `perft_ok` of depth `depth` holds after each of the first `i` moves of `l`.
pub open spec fn perft_all_ok(b: Board, l: Seq<Move>, i: int, depth: nat) -> bool
    decreases depth, i + 1,
{
    i <= 0 || (perft_all_ok(b, l, i - 1, depth) && perft_ok(after_move(b, l[i - 1]), depth))
}

/// The board as `perft(depth)` leaves it: unchanged, but for the end of the
/// game recorded when the side to move has no legal move.
pub open spec fn perft_board(b: Board, depth: nat) -> Board {
    if depth > 0 && b.state == GameState::Normal && legal_moves(b).len() == 0 {
        Board { state: end_state(b), ..b }
    } else {
        b
    }
}

pub proof fn lemma_moved_props(b: Board, p: Move)
    ensures
        after_move(b, moved(b, p)) == after_move(b, p),
        moved(b, moved(b, p)) == moved(b, p),
        check_ok(b, p) ==> check_ok(b, moved(b, p)),
{
    let k = crate::board::taken_index(b, p);
    crate::board_laws::lemma_first_hit_nonneg(
        b.pieces(opposite(b.side)),
        crate::board::capture_square(b.side, p),
    );
    if 0 <= k < 6 {
        assert(crate::board::piece_index(crate::board::piece_at_index(k)) == k);
    }
    assert(crate::board::taken_index(b, moved(b, p)) == k);
    assert(after_move(b, moved(b, p)) == after_move(b, p));
}

pub proof fn lemma_legal_elems(b: Board, s: Seq<Move>, i: int)
    requires
        0 <= i <= s.len(),
        forall|j: int| 0 <= j < i ==> check_ok(b, #[trigger] s[j]),
    ensures
        legal_prefix(b, s, i).len() <= i,
        forall|k: int|
            0 <= k < legal_prefix(b, s, i).len() ==> check_ok(b, #[trigger] legal_prefix(b, s, i)[k])
                && moved(b, legal_prefix(b, s, i)[k]) == legal_prefix(b, s, i)[k],
    decreases i,
{
    if i > 0 {
        lemma_legal_elems(b, s, i - 1);
        lemma_moved_props(b, s[i - 1]);
        let prev = legal_prefix(b, s, i - 1);
        let cur = legal_prefix(b, s, i);
        assert forall|k: int| 0 <= k < cur.len() implies check_ok(b, #[trigger] cur[k]) && moved(
            b,
            cur[k],
        ) == cur[k] by {
            if k < prev.len() {
                assert(cur[k] == prev[k]);
            } else {
                assert(cur[k] == moved(b, s[i - 1]));
            }
        }
    }
}

proof fn lemma_perft_sum_mono(b: Board, l: Seq<Move>, i: int, j: int, depth: nat)
    requires
        i <= j,
    ensures
        perft_sum(b, l, i, depth) <= perft_sum(b, l, j, depth),
    decreases j - i,
{
    if i < j {
        lemma_perft_sum_mono(b, l, i, j - 1, depth);
    }
}

proof fn lemma_all_ok_at(b: Board, l: Seq<Move>, i: int, depth: nat, k: int)
    requires
        perft_all_ok(b, l, i, depth),
        0 <= k < i,
    ensures
        perft_ok(after_move(b, l[k]), depth),
    decreases i,
{
    if k < i - 1 {
        lemma_all_ok_at(b, l, i - 1, depth, k);
    }
}

impl Board {
    /// Counts the legal move sequences of length `depth`, playing each and
    /// taking it back.
    pub fn perft(&mut self, depth: usize) -> (r: u64)
        requires
            perft_ok(*old(self), depth as nat),
            perft_count(*old(self), depth as nat) <= u64::MAX,
        ensures
            r == perft_count(*old(self), depth as nat),
            *final(self) == perft_board(*old(self), depth as nat),
        decreases depth,
    {
        let ghost b0 = *self;
        if depth == 0 {
            return 1;
        }
        let moves = self.get_all_moves();
        if moves.is_none() {
            return 0;
        }
        let mut moves = moves.unwrap();
        if depth == 1 {
            return moves.end() as u64;
        }
        let ghost l = moves@;
        let ghost d = (depth - 1) as nat;
        proof {
            lemma_legal_elems(b0, pseudo_moves(b0), pseudo_moves(b0).len() as int);
        }
        let mut nodes: u64 = 0;
        let n = moves.end();
        let mut i: usize = 0;
        while i < n
            invariant
                *self == b0,
                b0.wf(),
                b0.state == GameState::Normal,
                l == legal_moves(b0),
                moves@ == l,
                n == l.len(),
                i <= n,
                depth >= 2,
                d == depth - 1,
                nodes == perft_sum(b0, l, i as int, d),
                perft_sum(b0, l, n as int, d) <= u64::MAX,
                perft_all_ok(b0, l, n as int, d),
                forall|k: int| 0 <= k < n ==> check_ok(b0, #[trigger] l[k]) && moved(b0, l[k]) == l[k],
            decreases n - i,
        {
            proof {
                lemma_all_ok_at(b0, l, n as int, d, i as int);
                lemma_perft_sum_mono(b0, l, i as int + 1, n as int, d);
                assert(check_ok(b0, l[i as int]));
                lemma_unmake_undoes_make(b0, l[i as int]);
                lemma_can_unmake(b0, l[i as int]);
            }
            match moves.get(i) {
                Some(m) => {
                    let undo = self.make_move(m);
                    let ghost child = *self;
                    let curr = self.perft(depth - 1);
                    nodes = nodes + curr;
                    proof {
                        assert(unmade(*self, *m, undo) == unmade(child, *m, undo));
                    }
                    self.unmake_move(m, &undo);
                },
                None => {},
            }
            i += 1;
        }
        nodes
    }
}


impl Board {
    /// A divided perft: `None` when the game is over or the side to move has
    /// no legal move; else the number of legal move sequences of length
    /// `depth`, and each legal move with the number of sequences of length
    /// `depth - 1` after it.
    pub fn perft_divide(&mut self, depth: usize) -> (r: Option<(u64, Vec<(Move, u64)>)>)
        requires
            old(self).state != GameState::Normal || (movegen_ok(*old(self)) && old(self).pieces(
                old(self).side,
            )[0] != 0 && (legal_moves(*old(self)).len() > 0 ==> depth >= 1 && perft_ok(
                *old(self),
                depth as nat,
            ) && perft_count(*old(self), depth as nat) <= u64::MAX)),
        ensures
            r is None <==> old(self).state != GameState::Normal || legal_moves(*old(self)).len()
                == 0,
            r matches Some(p) ==> {
                &&& p.0 == perft_count(*old(self), depth as nat)
                &&& p.1@.len() == legal_moves(*old(self)).len()
                &&& forall|i: int|
                    0 <= i < p.1@.len() ==> #[trigger] p.1@[i] == (
                        legal_moves(*old(self))[i],
                        perft_count(after_move(*old(self), legal_moves(*old(self))[i]), (depth
                            - 1) as nat) as u64,
                    )
            },
            *final(self) == if old(self).state == GameState::Normal && legal_moves(*old(self)).len()
                == 0 {
                Board { state: end_state(*old(self)), ..*old(self) }
            } else {
                *old(self)
            },
    {
        let ghost b0 = *self;
        let moves = self.get_all_moves();
        if moves.is_none() {
            return None;
        }
        let mut moves = moves.unwrap();
        let total = self.perft(depth);
        let ghost l = moves@;
        let ghost d = (depth - 1) as nat;
        proof {
            lemma_legal_elems(b0, pseudo_moves(b0), pseudo_moves(b0).len() as int);
        }
        let n = moves.end();
        let mut out: Vec<(Move, u64)> = Vec::new();
        let mut i: usize = 0;
        while i < n
            invariant
                *self == b0,
                b0.wf(),
                b0.state == GameState::Normal,
                l == legal_moves(b0),
                moves@ == l,
                n == l.len(),
                n > 0,
                i <= n,
                depth >= 1,
                d == depth - 1,
                perft_ok(b0, depth as nat),
                perft_count(b0, depth as nat) <= u64::MAX,
                out@.len() == i,
                forall|j: int|
                    0 <= j < i ==> #[trigger] out@[j] == (l[j], perft_count(after_move(b0, l[j]), d) as u64),
                forall|k: int| 0 <= k < n ==> check_ok(b0, #[trigger] l[k]) && moved(b0, l[k]) == l[k],
            decreases n - i,
        {
            proof {
                assert(check_ok(b0, l[i as int]));
                lemma_unmake_undoes_make(b0, l[i as int]);
                lemma_can_unmake(b0, l[i as int]);
                if depth >= 2 {
                    lemma_all_ok_at(b0, l, n as int, d, i as int);
                    lemma_perft_sum_mono(b0, l, i as int + 1, n as int, d);
                    lemma_perft_sum_mono(b0, l, 0, i as int, d);
                }
            }
            match moves.get(i) {
                Some(m) => {
                    let undo = self.make_move(m);
                    let ghost child = *self;
                    let curr = self.perft(depth - 1);
                    proof {
                        assert(unmade(*self, *m, undo) == unmade(child, *m, undo));
                    }
                    self.unmake_move(m, &undo);
                    out.push((*m, curr));
                },
                None => {},
            }
            i += 1;
        }
        Some((total, out))
    }
}


proof fn lemma_perft_sum_leaves(b: Board, l: Seq<Move>, i: int)
    requires
        i >= 0,
    ensures
        perft_sum(b, l, i, 0) == i,
    decreases i,
{
    if i > 0 {
        lemma_perft_sum_leaves(b, l, i - 1);
        assert(perft_count(after_move(b, l[i - 1]), 0) == 1);
        assert(perft_sum(b, l, i, 0) == perft_sum(b, l, i - 1, 0) + perft_count(
            after_move(b, l[i - 1]),
            0,
        ));
    }
}

/// Perft splits over the first move: in a game still going on, with a legal
/// move, the number of legal sequences of length `depth >= 1` is the sum over
/// the legal moves of the number of sequences of length `depth - 1` after each.
pub proof fn lemma_perft_divides(b: Board, depth: nat)
    requires
        b.state == GameState::Normal,
        legal_moves(b).len() > 0,
        depth >= 1,
    ensures
        perft_count(b, depth) == perft_sum(
            b,
            legal_moves(b),
            legal_moves(b).len() as int,
            (depth - 1) as nat,
        ),
{
    if depth == 1 {
        lemma_perft_sum_leaves(b, legal_moves(b), legal_moves(b).len() as int);
    }
}

} // verus!
