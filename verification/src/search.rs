//! What the engine's fail-soft alpha-beta search computes, move by move in
//! the order it tries them, and what that value is worth: it bounds the
//! minimax value of the position.
use vstd::prelude::*;
use crate::bits::{pop_lowest, lemma_pop_lowest};
use crate::board::{
    Bitboard, Board, GameState, Move, Side, after_move, can_make, can_unmake, move_fits,
    move_list_cap, moved, undo_of, unmade,
};
use crate::board_laws::lemma_unmake_undoes_make;
use crate::movegen::{pseudo_moves, castle_underflows};
use crate::legality::{
    attacked, castle_safe, castle_squares, check_ok, end_state, king_square, leaves_check, legal,
    legal_moves, legal_prefix, lemma_moved_props, none_attacked,
};

verus! {

/// White's score of a game white has lost; the low end of every search window.
pub const NEG_INF: isize = -1_000_000_000;

/// White's score of a game white has won; the high end of every search window.
pub const POS_INF: isize = 1_000_000_000;

/// The larger of `a` and `b`.
pub open spec fn larger(a: int, b: int) -> int {
    if a >= b {
        a
    } else {
        b
    }
}

/// 1 for white, -1 for black: turns white's score into the mover's.
pub open spec fn side_sign(s: Side) -> int {
    if s == Side::White {
        1
    } else {
        -1
    }
}

/// White's score of `b` when the network values it `net`: the network's value
/// while the game goes on, the full score of a mate, 0 for a draw.
pub open spec fn score_spec(b: Board, net: int) -> int {
    match b.state {
        GameState::Normal => net,
        GameState::WhiteCheckmate => NEG_INF as int,
        GameState::BlackCheckmate => POS_INF as int,
        _ => 0,
    }
}

/// Score of `b` for the side to move, the network valuing positions by `net`.
pub open spec fn leaf(b: Board, net: spec_fn(Board) -> int) -> int {
    score_spec(b, net(b)) * side_sign(b.side)
}

/// `b` with the game ended as it ends for a side without a legal move.
pub open spec fn ended(b: Board) -> Board {
    Board { state: end_state(b), ..b }
}

/// `b` in the normal state, as taking back a move leaves it.
pub open spec fn in_play(b: Board) -> Board {
    Board { state: GameState::Normal, ..b }
}

/// The search plays `m` on `b` to test it: every move but a castling move
/// whose king is, passes or lands in check.
pub open spec fn tried(b: Board, m: Move) -> bool {
    !(m.is_castle && !castle_safe(b, m))
}

/// One of the first `i` pseudo-legal moves of `b` is played (and taken back)
/// when the search reaches the next.
pub open spec fn any_tried(b: Board, i: int) -> bool
    decreases i,
{
    if i <= 0 {
        false
    } else {
        any_tried(b, i - 1) || tried(b, pseudo_moves(b)[i - 1])
    }
}

/// The board the search plays the `i`-th pseudo-legal move of `b` on: `b`
/// itself, or `b` back in the normal state once a move was taken back.
#[verifier::opaque]
pub open spec fn play_board(b: Board, i: int) -> Board {
    if any_tried(b, i) {
        in_play(b)
    } else {
        b
    }
}

/// The position the search reaches with the `i`-th pseudo-legal move of `b`.
#[verifier::opaque]
pub open spec fn child(b: Board, i: int) -> Board {
    after_move(play_board(b, i), pseudo_moves(b)[i])
}

/// The `i`-th pseudo-legal move of `b` is legal.
#[verifier::opaque]
pub open spec fn legal_at(b: Board, i: int) -> bool {
    legal(b, pseudo_moves(b)[i])
}

/// The side to move on `b` has a legal move.
pub open spec fn has_legal(b: Board) -> bool {
    exists|i: int| 0 <= i < pseudo_moves(b).len() && #[trigger] legal_at(b, i)
}

/// Moves can be generated on `b` and each played, tested and taken back
/// without a panic.
#[verifier::opaque]
pub open spec fn node_ok(b: Board) -> bool {
    &&& b.wf()
    &&& pseudo_moves(b).len() <= move_list_cap()
    &&& !castle_underflows(b)
    &&& b.pieces(b.side)[0] != 0
    &&& forall|i: int| 0 <= i < pseudo_moves(b).len() ==> check_ok(b, #[trigger] pseudo_moves(b)[i])
}

/// A search of `depth` plies from `b` reaches no panic: every position it
/// generates moves on admits it.
#[verifier::opaque]
pub open spec fn search_ok(b: Board, depth: nat) -> bool
    decreases depth,
{
    depth == 0 || (node_ok(b) && forall|i: int|
        0 <= i < pseudo_moves(b).len() && #[trigger] legal_at(b, i) ==> search_ok(
            child(b, i),
            (depth - 1) as nat,
        ))
}

/// Value for the side to move that a fail-soft alpha-beta search of `depth`
/// plies from `b` finds with window (`alpha`, `beta`): the score at the
/// horizon or at the end of the game, else the best of the legal moves tried
/// in generation order, each worth the negated value of its reply search.
#[verifier::opaque]
pub open spec fn ab(b: Board, depth: nat, alpha: int, beta: int, net: spec_fn(Board) -> int) -> int
    decreases depth, 1int, 0int,
{
    if depth == 0 {
        leaf(b, net)
    } else if !has_legal(b) {
        leaf(ended(b), net)
    } else {
        ab_loop(b, depth, beta, net, 0, alpha, NEG_INF as int)
    }
}

/// The alpha-beta search of `b` from its `i`-th pseudo-legal move on, with
/// lower bound `alpha` and best value `value` found so far; it stops at the
/// first move that raises the bound to `beta`.
#[verifier::opaque]
pub open spec fn ab_loop(
    b: Board,
    depth: nat,
    beta: int,
    net: spec_fn(Board) -> int,
    i: int,
    alpha: int,
    value: int,
) -> int
    decreases depth, 0int, pseudo_moves(b).len() - i,
{
    if depth == 0 || i < 0 || i >= pseudo_moves(b).len() {
        value
    } else if !legal_at(b, i) {
        ab_loop(b, depth, beta, net, i + 1, alpha, value)
    } else {
        let v = larger(value, -ab(child(b, i), (depth - 1) as nat, -beta, -alpha, net));
        if larger(alpha, v) >= beta {
            v
        } else {
            ab_loop(b, depth, beta, net, i + 1, larger(alpha, v), v)
        }
    }
}

/// Minimax value of `b` for the side to move, `depth` plies deep: the score at
/// the horizon or at the end of the game, else the best over the legal moves
/// (never below `NEG_INF`) of the negated value of the position they reach.
pub open spec fn minimax(b: Board, depth: nat, net: spec_fn(Board) -> int) -> int
    decreases depth, 1int, 0int,
{
    if depth == 0 {
        leaf(b, net)
    } else if !has_legal(b) {
        leaf(ended(b), net)
    } else {
        best_of(b, depth, net, pseudo_moves(b).len() as int)
    }
}

/// Best negated minimax value over the legal ones among the first `i`
/// pseudo-legal moves of `b`; `NEG_INF` when there is none.
pub open spec fn best_of(b: Board, depth: nat, net: spec_fn(Board) -> int, i: int) -> int
    decreases depth, 0int, i,
{
    if depth == 0 || i <= 0 {
        NEG_INF as int
    } else if !legal_at(b, i - 1) {
        best_of(b, depth, net, i - 1)
    } else {
        larger(best_of(b, depth, net, i - 1), -minimax(child(b, i - 1), (depth - 1) as nat, net))
    }
}

/// The board as a search of `depth` plies leaves it: unchanged at the horizon,
/// its game ended when the side to move has no legal move, else back in the
/// normal state.
#[verifier::opaque]
pub open spec fn searched(b: Board, depth: nat) -> Board {
    if depth == 0 {
        b
    } else if !has_legal(b) {
        ended(b)
    } else {
        in_play(b)
    }
}

proof fn lemma_best_of_mono(b: Board, depth: nat, net: spec_fn(Board) -> int, i: int, j: int)
    requires
        i <= j,
    ensures
        best_of(b, depth, net, i) <= best_of(b, depth, net, j),
    decreases j - i,
{
    if i < j {
        lemma_best_of_mono(b, depth, net, i, j - 1);
    }
}

/// Alpha-beta bounds the minimax value: a value found inside the window
/// (`alpha`, `beta`) is the minimax value, one at or below `alpha` is at least
/// it, one at or above `beta` at most it.
pub proof fn lemma_ab_bounds_minimax(
    b: Board,
    depth: nat,
    alpha: int,
    beta: int,
    net: spec_fn(Board) -> int,
)
    requires
        alpha < beta,
    ensures
        alpha < ab(b, depth, alpha, beta, net) < beta ==> ab(b, depth, alpha, beta, net) == minimax(
            b,
            depth,
            net,
        ),
        ab(b, depth, alpha, beta, net) <= alpha ==> minimax(b, depth, net) <= ab(
            b,
            depth,
            alpha,
            beta,
            net,
        ),
        ab(b, depth, alpha, beta, net) >= beta ==> minimax(b, depth, net) >= ab(
            b,
            depth,
            alpha,
            beta,
            net,
        ),
    decreases depth, 1int, 0int,
{
    reveal(ab);
    reveal(ab_loop);
    if depth > 0 && has_legal(b) {
        lemma_ab_loop(b, depth, beta, net, 0, alpha, NEG_INF as int, alpha);
    }
}

proof fn lemma_ab_loop(
    b: Board,
    depth: nat,
    beta: int,
    net: spec_fn(Board) -> int,
    i: int,
    alpha: int,
    value: int,
    alpha0: int,
)
    requires
        depth > 0,
        0 <= i <= pseudo_moves(b).len(),
        alpha0 < beta,
        alpha < beta,
        alpha <= larger(alpha0, value),
        best_of(b, depth, net, i) <= value,
        value > alpha0 ==> best_of(b, depth, net, i) >= value,
    ensures
        ({
            let r = ab_loop(b, depth, beta, net, i, alpha, value);
            let t = best_of(b, depth, net, pseudo_moves(b).len() as int);
            &&& r <= alpha0 ==> t <= r
            &&& alpha0 < r < beta ==> t == r
            &&& r >= beta ==> t >= r
        }),
    decreases depth, 0int, pseudo_moves(b).len() - i,
{
    reveal(ab);
    reveal(ab_loop);
    let n = pseudo_moves(b).len() as int;
    if i < n {
        if !legal_at(b, i) {
            lemma_ab_loop(b, depth, beta, net, i + 1, alpha, value, alpha0);
        } else {
            let c = ab(child(b, i), (depth - 1) as nat, -beta, -alpha, net);
            lemma_ab_bounds_minimax(child(b, i), (depth - 1) as nat, -beta, -alpha, net);
            let v = larger(value, -c);
            if larger(alpha, v) >= beta {
                lemma_best_of_mono(b, depth, net, i + 1, n);
                lemma_best_of_mono(b, depth, net, i, n);
            } else {
                lemma_ab_loop(b, depth, beta, net, i + 1, larger(alpha, v), v, alpha0);
            }
        }
    }
}

/// The legal moves among the first `i` pseudo-legal moves are none exactly
/// when none of them is legal.
proof fn lemma_legal_prefix_empty(b: Board, i: int)
    requires
        0 <= i <= pseudo_moves(b).len(),
    ensures
        (legal_prefix(b, pseudo_moves(b), i).len() == 0) <==> !(exists|j: int|
            0 <= j < i && #[trigger] legal_at(b, j)),
    decreases i,
{
    reveal(legal_at);
    if i > 0 {
        lemma_legal_prefix_empty(b, i - 1);
        if legal_at(b, i - 1) {
            assert(legal_prefix(b, pseudo_moves(b), i).len() > 0);
        } else {
            assert forall|j: int| 0 <= j < i && #[trigger] legal_at(b, j) implies j < i - 1 by {}
        }
    }
}

/// The side to move has a legal move exactly when its legal move list is not empty.
pub proof fn lemma_has_legal(b: Board)
    ensures
        has_legal(b) <==> legal_moves(b).len() > 0,
{
    lemma_legal_prefix_empty(b, pseudo_moves(b).len() as int);
}


/// Every move of the legal list is one of the pseudo-legal moves, legal, with
/// what it takes recorded.
pub proof fn lemma_legal_source(b: Board, i: int, k: int)
    requires
        0 <= i <= pseudo_moves(b).len(),
        0 <= k < legal_prefix(b, pseudo_moves(b), i).len(),
    ensures
        exists|j: int|
            0 <= j < i && #[trigger] legal_at(b, j) && legal_prefix(b, pseudo_moves(b), i)[k]
                == moved(b, pseudo_moves(b)[j]),
    decreases i,
{
    reveal(legal_at);
    let s = pseudo_moves(b);
    let prev = legal_prefix(b, s, i - 1);
    if k < prev.len() {
        lemma_legal_source(b, i - 1, k);
        assert(legal_prefix(b, s, i)[k] == prev[k]);
        let j = choose|j: int| 0 <= j < i - 1 && #[trigger] legal_at(b, j) && prev[k] == moved(b, s[j]);
        assert(legal_at(b, j));
    } else {
        assert(legal_at(b, i - 1));
        assert(legal_prefix(b, s, i)[k] == moved(b, s[i - 1]));
    }
}

/// Whether a square is attacked does not depend on the state of the game.
pub proof fn lemma_attacked_in_play(b: Board, sq: int)
    ensures
        attacked(in_play(b), sq) == attacked(b, sq),
{
}

proof fn lemma_none_attacked_in_play(b: Board, mask: Bitboard)
    ensures
        none_attacked(in_play(b), mask) == none_attacked(b, mask),
    decreases mask,
{
    if mask != 0 {
        lemma_pop_lowest(mask);
        lemma_none_attacked_in_play(b, pop_lowest(mask));
    }
}

/// Legality, castling safety and the game's end do not depend on the state of
/// the game; a move played on `b` or on `b` in play takes the same squares.
pub proof fn lemma_in_play_same(b: Board, m: Move)
    ensures
        castle_safe(in_play(b), m) == castle_safe(b, m),
        leaves_check(in_play(b), m) == leaves_check(b, m),
        legal(in_play(b), m) == legal(b, m),
        end_state(in_play(b)) == end_state(b),
        moved(in_play(b), m) == moved(b, m),
        in_play(after_move(in_play(b), m)) == in_play(after_move(b, m)),
        after_move(b, m).side == after_move(in_play(b), m).side,
        b.wf() ==> in_play(b).wf(),
        move_fits(b, m) == move_fits(in_play(b), m),
        can_make(b, m) == can_make(in_play(b), m),
{
    lemma_none_attacked_in_play(b, castle_squares(b, m));
    assert(castle_squares(in_play(b), m) == castle_squares(b, m));
    lemma_attacked_in_play(b, king_square(b, b.side));
    let a = after_move(b, m);
    let a2 = after_move(in_play(b), m);
    lemma_attacked_in_play(Board { side: b.side, ..a }, king_square(a, b.side));
    lemma_attacked_in_play(Board { side: b.side, ..a2 }, king_square(a, b.side));
    assert(attacked(Board { side: b.side, ..a }, king_square(a, b.side)) == attacked(
        Board { side: b.side, ..a2 },
        king_square(a2, b.side),
    ));
}

/// Taking back a move restores the board it was played on, whatever state
/// the game was in; and the position reached may be in any state.
pub proof fn lemma_unmake_in_play(b: Board, m: Move, c: Board)
    requires
        b.wf(),
        move_fits(b, m),
        can_make(b, m),
        in_play(c) == in_play(after_move(b, m)),
    ensures
        can_unmake(c, moved(b, m)),
        unmade(c, moved(b, m), undo_of(b)) == in_play(b),
{
    lemma_in_play_same(b, m);
    lemma_unmake_undoes_make(in_play(b), m);
    assert(unmade(c, moved(b, m), undo_of(b)) == unmade(
        after_move(in_play(b), m),
        moved(in_play(b), m),
        undo_of(in_play(b)),
    ));
}


/// One step of `ab`: the horizon, the end of the game, or the loop over the moves.
pub proof fn lemma_ab_unfold(b: Board, depth: nat, alpha: int, beta: int, net: spec_fn(Board) -> int)
    ensures
        ab(b, depth, alpha, beta, net) == if depth == 0 {
            leaf(b, net)
        } else if !has_legal(b) {
            leaf(ended(b), net)
        } else {
            ab_loop(b, depth, beta, net, 0, alpha, NEG_INF as int)
        },
{
    reveal(ab);
    reveal(ab_loop);
}

/// One step of `ab_loop`, at move `i` of `b`, whose reply search (when the
/// move is legal) is worth `c`.
pub proof fn lemma_ab_loop_step(
    b: Board,
    depth: nat,
    beta: int,
    net: spec_fn(Board) -> int,
    i: int,
    alpha: int,
    value: int,
    c: int,
)
    requires
        depth > 0,
        0 <= i < pseudo_moves(b).len(),
        legal_at(b, i) ==> c == -ab(child(b, i), (depth - 1) as nat, -beta, -alpha, net),
    ensures
        !legal_at(b, i) ==> ab_loop(b, depth, beta, net, i, alpha, value) == ab_loop(
            b,
            depth,
            beta,
            net,
            i + 1,
            alpha,
            value,
        ),
        legal_at(b, i) && larger(alpha, larger(value, c)) >= beta ==> ab_loop(
            b,
            depth,
            beta,
            net,
            i,
            alpha,
            value,
        ) == larger(value, c),
        legal_at(b, i) && larger(alpha, larger(value, c)) < beta ==> ab_loop(
            b,
            depth,
            beta,
            net,
            i,
            alpha,
            value,
        ) == ab_loop(b, depth, beta, net, i + 1, larger(alpha, larger(value, c)), larger(value, c)),
{
    reveal(ab);
    reveal(ab_loop);
}

/// `ab_loop` past the last move is the best value found.
pub proof fn lemma_ab_loop_end(
    b: Board,
    depth: nat,
    beta: int,
    net: spec_fn(Board) -> int,
    i: int,
    alpha: int,
    value: int,
)
    requires
        i >= pseudo_moves(b).len(),
    ensures
        ab_loop(b, depth, beta, net, i, alpha, value) == value,
{
    reveal(ab);
    reveal(ab_loop);
}

/// What `search_ok` gives: at depth 0 nothing; else the moves of `b` can be
/// generated and tried, and each legal one leads to a position that admits the
/// search one ply shallower.
pub proof fn lemma_search_ok(b: Board, depth: nat, i: int)
    requires
        search_ok(b, depth),
        depth > 0,
    ensures
        node_ok(b),
        0 <= i < pseudo_moves(b).len() && legal_at(b, i) ==> search_ok(child(b, i), (depth - 1) as nat),
{
    reveal(search_ok);
}

/// Taking back the `i`-th pseudo-legal move of `b` from the position it
/// reached (in whatever state) leaves `b` back in the normal state.
pub proof fn lemma_take_back(b: Board, i: int, c: Board)
    requires
        node_ok(b),
        0 <= i < pseudo_moves(b).len(),
        in_play(c) == in_play(child(b, i)),
    ensures
        can_unmake(c, moved(play_board(b, i), pseudo_moves(b)[i])),
        unmade(c, moved(play_board(b, i), pseudo_moves(b)[i]), undo_of(play_board(b, i))) == in_play(b),
{
    lemma_try_facts(b, i);
    lemma_play_board(b, i);
    lemma_unmake_in_play(play_board(b, i), pseudo_moves(b)[i], c);
}


/// What trying the `i`-th pseudo-legal move of `b` involves, on the board the
/// search plays it on.
pub proof fn lemma_try_facts(b: Board, i: int)
    requires
        node_ok(b),
        0 <= i < pseudo_moves(b).len(),
    ensures
        ({
            let pb = play_board(b, i);
            let m = pseudo_moves(b)[i];
            &&& pb.wf()
            &&& move_fits(pb, m)
            &&& can_make(pb, m)
            &&& pb.pieces(pb.side)[0] != 0
            &&& after_move(pb, m).pieces(pb.side)[0] != 0
            &&& castle_safe(pb, m) == castle_safe(b, m)
            &&& leaves_check(pb, m) == leaves_check(b, m)
            &&& after_move(pb, m) == child(b, i)
            &&& legal_at(b, i) == (tried(b, m) && !leaves_check(b, m))
            &&& play_board(b, i + 1) == if tried(b, m) {
                in_play(b)
            } else {
                pb
            }
        }),
{
    reveal(legal_at);
    reveal(play_board);
    reveal(child);
    reveal(node_ok);
    let m = pseudo_moves(b)[i];
    assert(check_ok(b, m));
    lemma_in_play_same(b, m);
}


/// The board a move is played on is `b`, or `b` back in the normal state.
pub proof fn lemma_play_board(b: Board, i: int)
    ensures
        play_board(b, i) == b || play_board(b, i) == in_play(b),
        in_play(play_board(b, i)) == in_play(b),
        b.state == GameState::Normal ==> play_board(b, i) == b,
        play_board(b, 0) == b,
{
    reveal(play_board);
}

/// What `node_ok` gives.
pub proof fn lemma_node_ok(b: Board)
    requires
        node_ok(b),
    ensures
        b.wf(),
        pseudo_moves(b).len() <= move_list_cap(),
        !castle_underflows(b),
        b.pieces(b.side)[0] != 0,
        forall|i: int| 0 <= i < pseudo_moves(b).len() ==> check_ok(b, #[trigger] pseudo_moves(b)[i]),
{
    reveal(node_ok);
}

/// The castling test of the `i`-th pseudo-legal move gives the same answer on
/// the board it is played on; a move not tried is not legal and leaves the
/// board as it was, a move tried leaves it back in the normal state.
pub proof fn lemma_try_castle(b: Board, i: int)
    requires
        node_ok(b),
        0 <= i < pseudo_moves(b).len(),
    ensures
        castle_safe(play_board(b, i), pseudo_moves(b)[i]) == castle_safe(b, pseudo_moves(b)[i]),
        play_board(b, i).pieces(play_board(b, i).side)[0] != 0,
        !tried(b, pseudo_moves(b)[i]) ==> !legal_at(b, i) && play_board(b, i + 1) == play_board(b, i),
        tried(b, pseudo_moves(b)[i]) ==> play_board(b, i + 1) == in_play(b),
        legal_at(b, i) ==> tried(b, pseudo_moves(b)[i]),
{
    reveal(legal_at);
    reveal(play_board);
    reveal(node_ok);
    lemma_in_play_same(b, pseudo_moves(b)[i]);
}


/// The board after a search that found a legal move is back in the normal
/// state; after one that found none, its game is ended.
pub proof fn lemma_searched(b: Board, depth: nat)
    ensures
        depth == 0 ==> searched(b, depth) == b,
        depth > 0 && has_legal(b) ==> searched(b, depth) == in_play(b),
        depth > 0 && !has_legal(b) ==> searched(b, depth) == ended(b),
        in_play(searched(b, depth)) == in_play(b),
{
    reveal(searched);
}


/// From a position in the normal state, the search reaches each legal move's
/// position by playing it on the position itself; a search that admits the
/// position admits, one ply shallower, each position a legal move reaches.
pub proof fn lemma_root_children(b: Board, depth: nat)
    requires
        b.state == GameState::Normal,
        search_ok(b, depth),
        depth > 0,
    ensures
        forall|j: int|
            0 <= j < legal_moves(b).len() ==> search_ok(
                after_move(b, #[trigger] legal_moves(b)[j]),
                (depth - 1) as nat,
            ),
{
    reveal(child);
    assert forall|j: int| 0 <= j < legal_moves(b).len() implies search_ok(
        after_move(b, #[trigger] legal_moves(b)[j]),
        (depth - 1) as nat,
    ) by {
        let ps = pseudo_moves(b);
        lemma_legal_source(b, ps.len() as int, j);
        let i = choose|i: int|
            0 <= i < ps.len() && #[trigger] legal_at(b, i) && legal_prefix(b, ps, ps.len() as int)[j]
                == moved(b, ps[i]);
        lemma_search_ok(b, depth, i);
        lemma_play_board(b, i);
        lemma_moved_props(b, ps[i]);
    }
}


/// The network's values stay within the mate scores.
pub open spec fn net_bounded(net: spec_fn(Board) -> int) -> bool {
    forall|b: Board| NEG_INF <= #[trigger] net(b) <= POS_INF
}

proof fn lemma_leaf_bounded(b: Board, net: spec_fn(Board) -> int)
    requires
        net_bounded(net),
    ensures
        NEG_INF <= leaf(b, net) <= POS_INF,
{
    assert(NEG_INF <= net(b) <= POS_INF);
}

/// With a network whose values stay within the mate scores, every value the
/// search finds does too.
pub proof fn lemma_ab_bounded(b: Board, depth: nat, alpha: int, beta: int, net: spec_fn(Board) -> int)
    requires
        net_bounded(net),
    ensures
        NEG_INF <= ab(b, depth, alpha, beta, net) <= POS_INF,
    decreases depth, 1int, 0int,
{
    lemma_ab_unfold(b, depth, alpha, beta, net);
    if depth == 0 {
        lemma_leaf_bounded(b, net);
    } else if !has_legal(b) {
        lemma_leaf_bounded(ended(b), net);
    } else {
        lemma_ab_loop_bounded(b, depth, beta, net, 0, alpha, NEG_INF as int);
    }
}

proof fn lemma_ab_loop_bounded(
    b: Board,
    depth: nat,
    beta: int,
    net: spec_fn(Board) -> int,
    i: int,
    alpha: int,
    value: int,
)
    requires
        net_bounded(net),
        depth > 0,
        0 <= i,
        NEG_INF <= value <= POS_INF,
    ensures
        NEG_INF <= ab_loop(b, depth, beta, net, i, alpha, value) <= POS_INF,
    decreases depth, 0int, pseudo_moves(b).len() - i,
{
    if i >= pseudo_moves(b).len() {
        lemma_ab_loop_end(b, depth, beta, net, i, alpha, value);
    } else {
        let c = -ab(child(b, i), (depth - 1) as nat, -beta, -alpha, net);
        lemma_ab_bounded(child(b, i), (depth - 1) as nat, -beta, -alpha, net);
        lemma_ab_loop_step(b, depth, beta, net, i, alpha, value, c);
        let v = larger(value, c);
        if legal_at(b, i) {
            if larger(alpha, v) < beta {
                lemma_ab_loop_bounded(b, depth, beta, net, i + 1, larger(alpha, v), v);
            }
        } else {
            lemma_ab_loop_bounded(b, depth, beta, net, i + 1, alpha, value);
        }
    }
}


/// With a network whose values stay within the mate scores, so does every
/// minimax value.
pub proof fn lemma_minimax_bounded(b: Board, depth: nat, net: spec_fn(Board) -> int)
    requires
        net_bounded(net),
    ensures
        NEG_INF <= minimax(b, depth, net) <= POS_INF,
    decreases depth, 1int, 0int,
{
    if depth == 0 {
        lemma_leaf_bounded(b, net);
    } else if !has_legal(b) {
        lemma_leaf_bounded(ended(b), net);
    } else {
        lemma_best_of_bounded(b, depth, net, pseudo_moves(b).len() as int);
    }
}

proof fn lemma_best_of_bounded(b: Board, depth: nat, net: spec_fn(Board) -> int, i: int)
    requires
        net_bounded(net),
        depth > 0,
    ensures
        NEG_INF <= best_of(b, depth, net, i) <= POS_INF,
    decreases depth, 0int, i,
{
    if i > 0 {
        lemma_best_of_bounded(b, depth, net, i - 1);
        if legal_at(b, i - 1) {
            lemma_minimax_bounded(child(b, i - 1), (depth - 1) as nat, net);
        }
    }
}

} // verus!
