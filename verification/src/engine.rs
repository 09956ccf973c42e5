//! The self-play engine: material values, capture ordering, game outcomes,
//! the board encoding the value network reads, and the alpha-beta search
//! whose leaf values the network supplies.
use vstd::prelude::*;
use crate::bits::{sq_in, lemma_pop_lowest, lemma_nonzero_has};
use crate::board::{
    Board, GameState, Move, MoveList, Piece, Side, UndoInfo, after_move, moved, undo_of,
};
use crate::legality::{check_ok, end_state, legal_moves, lemma_legal_elems, movegen_ok};
use crate::movegen::{pseudo_moves, quiet, lemma_pseudo_moves_quiet};
use crate::ordering::{order_by_key, sort_desc, lemma_sort_desc, lemma_sort_desc_equal_keys};
use crate::magic_table::{Rand, xorshift};
use crate::game_laws::{clock_ok, lemma_legal_move_shortens_game, moves_left_bound};
use crate::search::{
    NEG_INF, POS_INF, ab, ab_loop, child, ended, has_legal, in_play, larger, leaf, legal_at,
    lemma_ab_loop_end, lemma_ab_loop_step, lemma_ab_unfold, lemma_in_play_same, lemma_node_ok,
    lemma_play_board, lemma_root_children, lemma_search_ok, lemma_searched, lemma_take_back,
    lemma_try_castle, lemma_try_facts, lemma_unmake_in_play, node_ok, play_board, score_spec,
    search_ok, searched, side_sign, tried, net_bounded, lemma_ab_bounded, minimax,
    lemma_ab_bounds_minimax, lemma_minimax_bounded,
};

verus! {

/// One position of a game as the network sees it, with the side to move.
pub struct GameSample {
    pub board: [u8; 64],
    pub stm: Side,
}

impl GameSample {
    pub fn new(board: [u8; 64], stm: Side) -> (g: GameSample)
        ensures
            g.board == board,
            g.stm == stm,
    {
        GameSample { board, stm }
    }
}

/// The positions of one game and its result for white: 1, 0 or -1.
pub struct Game {
    pub games: Vec<GameSample>,
    pub result: i8,
}

impl Game {
    pub fn new(games: Vec<GameSample>, result: i8) -> (g: Game)
        ensures
            g.games@ == games@,
            g.result == result,
    {
        Game { games, result }
    }
}

/// `s` records `b` as the network reads it, with the side to move.
pub open spec fn sample_of(s: GameSample, b: Board) -> bool {
    &&& s.stm == b.side
    &&& forall|sq: int| 0 <= sq < 64 ==> #[trigger] s.board[sq] == code_upto(b, 12, sq)
}

/// `after` is `before` with one more sample, which records `b`.
pub open spec fn recorded(before: Seq<GameSample>, after: Seq<GameSample>, b: Board) -> bool {
    &&& after.len() == before.len() + 1
    &&& after.take(before.len() as int) == before
    &&& sample_of(after.last(), b)
}

/// Material value of a piece kind, in pawns.
pub open spec fn value_of(p: Piece) -> int {
    match p {
        Piece::King => 0,
        Piece::Queen => 9,
        Piece::Rook => 5,
        Piece::Bishop => 3,
        Piece::Knight => 3,
        Piece::Pawn => 1,
        Piece::Empty => 0,
    }
}

/// Material value of a piece kind, in pawns.
pub fn piece_value(p: Piece) -> (v: isize)
    ensures
        v == value_of(p),
{
    match p {
        Piece::King => 0,
        Piece::Queen => 9,
        Piece::Rook => 5,
        Piece::Bishop | Piece::Knight => 3,
        Piece::Pawn => 1,
        Piece::Empty => 0,
    }
}

/// Most valuable victim, least valuable attacker: ten times the value of the
/// piece taken less the value of the piece taking; 0 for a quiet move.
pub fn mvv_lva(m: &Move) -> (v: isize)
    ensures
        v == match m.capture {
            Some(c) => 10 * value_of(c) - value_of(m.piece),
            None => 0,
        },
{
    match m.capture {
        Some(v) => 10 * piece_value(v) - piece_value(m.piece),
        None => 0,
    }
}

/// Result of a finished game for white: 1 when black is mated, -1 when white
/// is, 0 for a draw.
pub open spec fn score_of(state: GameState) -> int {
    match state {
        GameState::WhiteCheckmate => -1,
        GameState::BlackCheckmate => 1,
        _ => 0,
    }
}

/// Result of a finished game for white.
pub fn outcome_to_score(state: GameState) -> (r: i8)
    requires
        state != GameState::Normal,
    ensures
        r == score_of(state),
{
    match state {
        GameState::FiftyMove | GameState::Insufficient | GameState::Threefold
        | GameState::Stalemate => 0,
        GameState::WhiteCheckmate => -1,
        _ => 1,
    }
}

/// Sign that turns white's score into the score of `side`.
pub fn multiply(side: Side) -> (r: isize)
    ensures
        r == if side == Side::White {
            1int
        } else {
            -1int
        },
{
    match side {
        Side::White => 1,
        Side::Black => -1,
    }
}

/// Bitboard number `j` in encoding order: the six white piece kinds, then the
/// six black ones.
pub open spec fn encoded_bb(b: Board, j: int) -> u64 {
    if j < 6 {
        b.white[j]
    } else {
        b.black[j - 6]
    }
}

/// Code of square `sq` after the first `k` bitboards are written: `j + 1` for
/// the last bitboard `j` among them that holds the square, 0 when none does.
pub open spec fn code_upto(b: Board, k: int, sq: int) -> u8
    decreases k,
{
    if k <= 0 {
        0
    } else if sq_in(encoded_bb(b, k - 1), sq) {
        k as u8
    } else {
        code_upto(b, k - 1, sq)
    }
}

/// The board as the network reads it: per square 0 when empty, else 1 + 6 ×
/// side + kind index.
pub fn board_to_game(board: &Board) -> (out: [u8; 64])
    ensures
        forall|sq: int| 0 <= sq < 64 ==> #[trigger] out[sq] == code_upto(*board, 12, sq),
{
    let mut out: [u8; 64] = [0; 64];
    let mut j: usize = 0;
    while j < 12
        invariant
            j <= 12,
            forall|sq: int| 0 <= sq < 64 ==> #[trigger] out[sq] == code_upto(*board, j as int, sq),
        decreases 12 - j,
    {
        let side = if j < 6 {
            Side::White
        } else {
            Side::Black
        };
        let i = if j < 6 {
            j
        } else {
            j - 6
        };
        let full = board.get_side(side)[i];
        assert(full == encoded_bb(*board, j as int));
        let mut bb = full;
        let side_code: u8 = if j < 6 {
            0
        } else {
            1
        };
        while bb != 0
            invariant
                j < 12,
                full == encoded_bb(*board, j as int),
                side_code * 6 + i == j,
                i < 6,
                side_code <= 1,
                forall|t: int| #[trigger] sq_in(bb, t) ==> sq_in(full, t),
                forall|sq: int|
                    0 <= sq < 64 ==> #[trigger] out[sq] == if sq_in(full, sq) && !sq_in(bb, sq) {
                        (j + 1) as u8
                    } else {
                        code_upto(*board, j as int, sq)
                    },
            decreases bb,
        {
            proof {
                lemma_nonzero_has(bb);
                lemma_pop_lowest(bb);
            }
            let sq = bb.trailing_zeros() as usize;
            out[sq] = 1 + (side_code * 6) + i as u8;
            bb = bb & (bb - 1);
        }
        proof {
            assert forall|sq: int| 0 <= sq < 64 implies #[trigger] out[sq] == code_upto(
                *board,
                j as int + 1,
                sq,
            ) by {
                lemma_zero_empty(sq);
            }
        }
        j += 1;
    }
    out
}


/// Key the search orders moves by: the capture's most-valuable-victim,
/// least-valuable-attacker value.
pub open spec fn capture_gain(m: Move) -> int {
    match m.capture {
        Some(c) => 10 * value_of(c) - value_of(m.piece),
        None => 0,
    }
}

/// The ordering keys of a move list.
pub open spec fn capture_keys(s: Seq<Move>) -> Seq<isize> {
    Seq::new(s.len(), |i: int| capture_gain(s[i]) as isize)
}

/// The indices of `list` in the order the search tries them: by decreasing
/// capture value, equal values in list order.
fn capture_order(list: &mut MoveList) -> (order: Vec<usize>)
    ensures
        final(list)@ == old(list)@,
        order@ == sort_desc(capture_keys(old(list)@), old(list)@.len()),
{
    let n = list.end();
    let mut keys: Vec<isize> = Vec::new();
    let mut i: usize = 0;
    while i < n
        invariant
            n == list@.len(),
            list@ == old(list)@,
            i <= n,
            keys@ == capture_keys(old(list)@).take(i as int),
        decreases n - i,
    {
        match list.get(i) {
            Some(m) => {
                let v = mvv_lva(m);
                keys.push(v);
            },
            None => {},
        }
        assert(keys@ =~= capture_keys(old(list)@).take(i + 1));
        i += 1;
    }
    assert(keys@ =~= capture_keys(old(list)@));
    order_by_key(&keys)
}

/// Plays the `k`-th pseudo-legal move `m` of `b0`, one the search tries, on
/// the board it is played on; tells whether it leaves the mover's king
/// attacked, that is, is not legal.
fn play_child(board: &mut Board, m: &mut Move, Ghost(b0): Ghost<Board>, Ghost(k): Ghost<int>) -> (r: (
    UndoInfo,
    bool,
))
    requires
        node_ok(b0),
        0 <= k < pseudo_moves(b0).len(),
        *old(m) == pseudo_moves(b0)[k],
        *old(board) == play_board(b0, k),
        tried(b0, pseudo_moves(b0)[k]),
    ensures
        *final(board) == child(b0, k),
        r.1 == !legal_at(b0, k),
        *final(m) == moved(play_board(b0, k), pseudo_moves(b0)[k]),
        r.0 == undo_of(play_board(b0, k)),
{
    proof {
        lemma_try_facts(b0, k);
    }
    board.play_tested(m)
}

/// Takes back the `k`-th pseudo-legal move of `b0` from the position it
/// reached, leaving `b0` back in the normal state.
fn take_back(board: &mut Board, m: &Move, undo: &UndoInfo, Ghost(b0): Ghost<Board>, Ghost(k): Ghost<int>)
    requires
        node_ok(b0),
        0 <= k < pseudo_moves(b0).len(),
        in_play(*old(board)) == in_play(child(b0, k)),
        *m == moved(play_board(b0, k), pseudo_moves(b0)[k]),
        *undo == undo_of(play_board(b0, k)),
    ensures
        *final(board) == in_play(b0),
{
    proof {
        lemma_take_back(b0, k, *board);
    }
    board.unmake_move(m, undo);
}

/// The engine. For a position still in play, `model` gives the value
/// network's judgement of it for white, scaled to an integer; the search
/// scores every other position itself.
pub struct Engine<M> {
    pub model: M,
}

/// The search of `b` at its root: the legal moves in capture order, each
/// searched with the window raised to the best value found so far; the move
/// kept is the last one that reached it.
pub open spec fn root_pick(
    b: Board,
    depth: nat,
    net: spec_fn(Board) -> int,
    l: Seq<Move>,
    ord: Seq<usize>,
    k: int,
    alpha: int,
    best: Option<Move>,
) -> Option<Move>
    decreases ord.len() - k,
{
    if depth == 0 || k < 0 || k >= ord.len() {
        best
    } else {
        let m = l[ord[k] as int];
        let c = -ab(after_move(b, m), (depth - 1) as nat, -(POS_INF as int), -alpha, net);
        root_pick(
            b,
            depth,
            net,
            l,
            ord,
            k + 1,
            larger(alpha, c),
            if c >= alpha {
                Some(m)
            } else {
                best
            },
        )
    }
}

/// The move a search of `depth` plies picks on `b`: none at depth 0 or when
/// the game is over.
pub open spec fn search_spec(b: Board, depth: nat, net: spec_fn(Board) -> int) -> Option<Move> {
    if depth == 0 || b.state != GameState::Normal || legal_moves(b).len() == 0 {
        None
    } else {
        root_pick(
            b,
            depth,
            net,
            legal_moves(b),
            sort_desc(capture_keys(legal_moves(b)), legal_moves(b).len()),
            0,
            NEG_INF as int,
            None,
        )
    }
}

impl<M: Fn(&Board) -> isize> Engine<M> {
    /// The network's value of `b`, as `model` gives it.
    pub open spec fn net(&self, b: Board) -> int {
        (choose|r: isize| self.model.ensures((&b,), r)) as int
    }

    /// The network's values of all positions.
    pub open spec fn net_fn(&self) -> spec_fn(Board) -> int {
        |b: Board| self.net(b)
    }

    /// `model` accepts every position, gives each the same value every time,
    /// and never `isize::MIN`.
    pub open spec fn model_ok(&self) -> bool {
        &&& forall|b: &Board| #[trigger] self.model.requires((b,))
        &&& forall|b: &Board, r1: isize, r2: isize|
            #![trigger self.model.ensures((b,), r1), self.model.ensures((b,), r2)]
            self.model.ensures((b,), r1) && self.model.ensures((b,), r2) ==> r1 == r2
        &&& forall|b: &Board, r: isize| #[trigger] self.model.ensures((b,), r) ==> r > isize::MIN
    }

    /// White's score of `board`: 0 for a draw, the full score of a mate, the
    /// network's value while the game goes on.
    pub fn score(&self, board: &Board) -> (r: isize)
        requires
            board.state == GameState::Normal ==> self.model_ok(),
        ensures
            r == score_spec(*board, self.net(*board)),
            r > isize::MIN,
    {
        match board.state {
            GameState::Normal => {},
            GameState::FiftyMove | GameState::Insufficient | GameState::Threefold
            | GameState::Stalemate => return 0,
            GameState::WhiteCheckmate => return NEG_INF,
            GameState::BlackCheckmate => return POS_INF,
        }
        let r = (self.model)(board);
        proof {
            assert(self.model.ensures((board,), r));
        }
        r
    }

    /// Score of `board` for the side to move.
    fn leaf_score(&self, board: &Board) -> (r: isize)
        requires
            board.state == GameState::Normal ==> self.model_ok(),
        ensures
            r == leaf(*board, self.net_fn()),
            r > isize::MIN,
    {
        let s = self.score(board);
        let k = multiply(board.side);
        assert(s * k == s * side_sign(board.side)) by (nonlinear_arith)
            requires
                k == side_sign(board.side),
        ;
        assert(k == 1 || k == -1);
        assert(s * k == s || s * k == -s) by (nonlinear_arith)
            requires
                k == 1 || k == -1,
        ;
        s * k
    }

    /// Plays the `k`-th pseudo-legal move `m` of `b0` on `board` if it may be
    /// tested: `None` when it is not legal, else its value, the negated value
    /// of the reply search with window (`-beta`, `-alpha`). The move is taken
    /// back either way.
    fn try_move(
        &self,
        board: &mut Board,
        m: &mut Move,
        depth: usize,
        alpha: isize,
        beta: isize,
        Ghost(b0): Ghost<Board>,
        Ghost(k): Ghost<int>,
    ) -> (r: Option<isize>)
        requires
            depth > 0,
            search_ok(b0, depth as nat),
            node_ok(b0),
            0 <= k < pseudo_moves(b0).len(),
            *old(m) == pseudo_moves(b0)[k],
            *old(board) == play_board(b0, k),
            legal_at(b0, k) ==> self.model_ok() && alpha > isize::MIN && beta > isize::MIN,
        ensures
            r is None <==> !legal_at(b0, k),
            r matches Some(v) ==> v == -ab(
                child(b0, k),
                (depth - 1) as nat,
                -beta,
                -alpha,
                self.net_fn(),
            ) && v > isize::MIN,
            *final(board) == play_board(b0, k + 1),
        decreases depth, 0int,
    {
        proof {
            lemma_try_castle(b0, k);
        }
        if m.is_castle && !board.castle_clear(m) {
            return None;
        }
        let (undo, illegal) = play_child(board, m, Ghost(b0), Ghost(k));
        if illegal {
            take_back(board, m, &undo, Ghost(b0), Ghost(k));
            return None;
        }
        proof {
            lemma_search_ok(b0, depth as nat, k);
        }
        let child_value = self.negamax(board, depth - 1, -beta, -alpha);
        proof {
            lemma_searched(child(b0, k), (depth - 1) as nat);
        }
        take_back(board, m, &undo, Ghost(b0), Ghost(k));
        Some(-child_value)
    }

    /// Fail-soft alpha-beta search of `depth` plies from `board` with window
    /// (`alpha`, `beta`), for the side to move; a side found without a legal
    /// move has its game ended on `board`.
    pub fn negamax(&self, board: &mut Board, depth: usize, alpha: isize, beta: isize) -> (r: isize)
        requires
            search_ok(*old(board), depth as nat),
            depth == 0 && old(board).state == GameState::Normal ==> self.model_ok(),
            depth > 0 && has_legal(*old(board)) ==> self.model_ok() && alpha > isize::MIN && beta
                > isize::MIN,
        ensures
            r == ab(*old(board), depth as nat, alpha as int, beta as int, self.net_fn()),
            r > isize::MIN,
            *final(board) == searched(*old(board), depth as nat),
            depth > 0 && !has_legal(*old(board)) ==> *final(board) == ended(*old(board)) && r == (
            if end_state(*old(board)) == GameState::Stalemate {
                0
            } else {
                NEG_INF
            }),
        decreases depth, 1int,
    {
        let ghost b0 = *board;
        let ghost net = self.net_fn();
        proof {
            lemma_ab_unfold(b0, depth as nat, alpha as int, beta as int, net);
            lemma_searched(b0, depth as nat);
        }
        if depth == 0 {
            return self.leaf_score(board);
        }
        proof {
            lemma_search_ok(b0, depth as nat, 0);
            lemma_node_ok(b0);
            lemma_play_board(b0, 0);
        }
        let mut pseudo = board.generate_pseudo_moves();
        let ghost ps = pseudo@;
        let n = pseudo.end();
        let order = capture_order(&mut pseudo);
        proof {
            lemma_pseudo_moves_quiet(b0);
            let keys = capture_keys(ps);
            assert forall|j: int| 0 <= j < keys.len() implies #[trigger] keys[j] == keys[0] by {
                assert(quiet(ps));
                assert(ps[j].capture is None);
                assert(ps[0].capture is None);
            }
            lemma_sort_desc_equal_keys(keys, n as nat);
        }
        let mut found_legal = false;
        let mut value: isize = NEG_INF;
        let mut lower = alpha;
        let ghost alpha_in = alpha as int;
        let mut k: usize = 0;
        while k < n
            invariant
                has_legal(b0) ==> self.model_ok() && lower > isize::MIN && beta > isize::MIN,
                net == self.net_fn(),
                b0 == *old(board),
                alpha_in == alpha as int,
                depth > 0,
                search_ok(b0, depth as nat),
                node_ok(b0),
                ps == pseudo_moves(b0),
                n == ps.len(),
                pseudo@.len() == n,
                forall|j: int| k <= j < n ==> pseudo@[j] == ps[j],
                order@.len() == n,
                forall|j: int| 0 <= j < n ==> #[trigger] order@[j] == j,
                k <= n,
                *board == play_board(b0, k as int),
                found_legal == (exists|j: int| 0 <= j < k && #[trigger] legal_at(b0, j)),
                found_legal ==> *board == in_play(b0),
                value >= NEG_INF,
                ab_loop(b0, depth as nat, beta as int, net, k as int, lower as int, value as int)
                    == ab_loop(b0, depth as nat, beta as int, net, 0, alpha_in, NEG_INF as int),
                has_legal(b0) ==> ab(b0, depth as nat, alpha_in, beta as int, net) == ab_loop(
                    b0,
                    depth as nat,
                    beta as int,
                    net,
                    0,
                    alpha_in,
                    NEG_INF as int,
                ),
            decreases n - k,
        {
            let i = order[k];
            match pseudo.get(i) {
                Some(m) => {
                    let tried_value = self.try_move(
                        board,
                        m,
                        depth,
                        lower,
                        beta,
                        Ghost(b0),
                        Ghost(k as int),
                    );
                    let ghost c: int = match tried_value {
                        Some(v) => v as int,
                        None => 0,
                    };
                    proof {
                        lemma_ab_loop_step(
                            b0,
                            depth as nat,
                            beta as int,
                            net,
                            k as int,
                            lower as int,
                            value as int,
                            c,
                        );
                        assert forall|j: int| 0 <= j < k + 1 && #[trigger] legal_at(b0, j) implies (j
                            < k || tried_value is Some) by {}
                        lemma_try_castle(b0, k as int);
                    }
                    match tried_value {
                        None => {},
                        Some(v) => {
                            found_legal = true;
                            if v > value {
                                value = v;
                            }
                            if value > lower {
                                lower = value;
                            }
                            if lower >= beta {
                                proof {
                                    assert(legal_at(b0, k as int));
                                    lemma_searched(b0, depth as nat);
                                }
                                return value;
                            }
                        },
                    }
                },
                None => {},
            }
            k += 1;
        }
        proof {
            lemma_ab_loop_end(b0, depth as nat, beta as int, net, n as int, lower as int, value as int);
        }
        if !found_legal {
            proof {
                assert(!has_legal(b0));
                lemma_play_board(b0, n as int);
                lemma_nonzero_has(board.pieces(board.side)[0]);
                lemma_in_play_same(b0, ps[0]);
            }
            let sq = board.side_pieces()[0].trailing_zeros();
            if board.is_attacked(sq as usize) {
                board.state = match board.side {
                    Side::White => GameState::WhiteCheckmate,
                    Side::Black => GameState::BlackCheckmate,
                };
            } else {
                board.state = GameState::Stalemate;
            }
            proof {
                assert(*board == ended(b0));
                lemma_searched(b0, depth as nat);
            }
            return self.leaf_score(board);
        }
        value
    }

    /// The move a search of `depth` plies picks for the side to move on
    /// `board`: each legal move, in capture order, is searched with the window
    /// raised to the best value found so far, and the last move to reach it is
    /// kept. `None` at depth 0 or when the game is over; a side left without a
    /// legal move has its game ended on `board`.
    pub fn search(&self, board: &mut Board, depth: usize) -> (r: Option<Move>)
        requires
            depth > 0 && old(board).state == GameState::Normal && legal_moves(*old(board)).len() > 0
                ==> self.model_ok(),
            depth == 0 || old(board).state != GameState::Normal || search_ok(*old(board), depth as nat),
        ensures
            r == search_spec(*old(board), depth as nat, self.net_fn()),
            r matches Some(m) ==> legal_moves(*old(board)).contains(m),
            *final(board) == if depth > 0 && old(board).state == GameState::Normal && legal_moves(
                *old(board),
            ).len() == 0 {
                ended(*old(board))
            } else {
                *old(board)
            },
    {
        let ghost b0 = *board;
        let ghost net = self.net_fn();
        if depth == 0 {
            return None;
        }
        proof {
            if b0.state == GameState::Normal {
                lemma_search_ok(b0, depth as nat, 0);
                lemma_node_ok(b0);
                lemma_root_children(b0, depth as nat);
            }
        }
        let moves = board.get_all_moves();
        if moves.is_none() {
            return None;
        }
        let mut moves = moves.unwrap();
        let ghost l = moves@;
        let order = capture_order(&mut moves);
        let n = moves.end();
        proof {
            lemma_sort_desc(capture_keys(l), n as nat);
            lemma_legal_elems(b0, pseudo_moves(b0), pseudo_moves(b0).len() as int);
        }
        let mut best_move: Option<Move> = None;
        let mut value: isize = NEG_INF;
        let mut alpha: isize = NEG_INF;
        let beta: isize = POS_INF;
        let mut k: usize = 0;
        while k < n
            invariant
                self.model_ok(),
                net == self.net_fn(),
                b0 == *old(board),
                *board == b0,
                b0.wf(),
                b0.state == GameState::Normal,
                depth > 0,
                l == legal_moves(b0),
                moves@ == l,
                n == l.len(),
                order@ == sort_desc(capture_keys(l), n as nat),
                order@.len() == n,
                forall|j: int| 0 <= j < n ==> #[trigger] order@[j] < n,
                k <= n,
                beta == POS_INF,
                value == alpha,
                alpha >= NEG_INF,
                forall|j: int|
                    0 <= j < n ==> check_ok(b0, #[trigger] l[j]) && moved(b0, l[j]) == l[j]
                        && search_ok(after_move(b0, l[j]), (depth - 1) as nat),
                best_move matches Some(m) ==> l.contains(m),
                root_pick(b0, depth as nat, net, l, order@, k as int, alpha as int, best_move)
                    == search_spec(b0, depth as nat, net),
            decreases n - k,
        {
            let i = order[k];
            proof {
                assert(check_ok(b0, l[i as int]));
            }
            match moves.get(i) {
                Some(m) => {
                    let undo = board.make_move(m);
                    let curr_val = -self.negamax(board, depth - 1, -beta, -alpha);
                    proof {
                        lemma_searched(after_move(b0, l[i as int]), (depth - 1) as nat);
                        lemma_unmake_in_play(b0, l[i as int], *board);
                    }
                    board.unmake_move(m, &undo);
                    if curr_val >= value {
                        value = curr_val;
                        best_move = Some(*m);
                    }
                    if curr_val > alpha {
                        alpha = curr_val;
                    }
                },
                None => {},
            }
            k += 1;
        }
        best_move
    }
}

impl Board {
    /// One move of a game's random opening: plays the legal move that `rand`
    /// draws (its next number modulo the number of legal moves) and records
    /// the position reached. `false`, with nothing played or drawn, when the
    /// game is over; a side left without a legal move has its game ended.
    pub fn play_random(&mut self, rand: &mut Rand, games: &mut Vec<GameSample>) -> (r: bool)
        requires
            old(self).state != GameState::Normal || (movegen_ok(*old(self)) && old(self).pieces(
                old(self).side,
            )[0] != 0),
        ensures
            r == (old(self).state == GameState::Normal && legal_moves(*old(self)).len() > 0),
            !r ==> final(games)@ == old(games)@ && final(rand)@ == old(rand)@ && *final(self) == if old(
                self,
            ).state == GameState::Normal {
                ended(*old(self))
            } else {
                *old(self)
            },
            r ==> {
                let l = legal_moves(*old(self));
                &&& final(rand)@ == xorshift(old(rand)@)
                &&& *final(self) == after_move(*old(self), l[(final(rand)@ % (l.len() as u64)) as int])
                &&& recorded(old(games)@, final(games)@, *final(self))
            },
    {
        let ghost b0 = *self;
        let moves = self.get_all_moves();
        if moves.is_none() {
            return false;
        }
        let mut moves = moves.unwrap();
        proof {
            lemma_legal_elems(b0, pseudo_moves(b0), pseudo_moves(b0).len() as int);
        }
        let rand_idx = rand.rand() % moves.end() as u64;
        match moves.get(rand_idx as usize) {
            Some(m) => {
                proof {
                    assert(check_ok(b0, *m));
                }
                self.make_move(m);
            },
            None => {},
        }
        let sample = GameSample::new(board_to_game(self), self.side);
        games.push(sample);
        proof {
            assert(games@.take(old(games)@.len() as int) =~= old(games)@);
        }
        true
    }
}

/// `b` is the board a game starts from, as `Board::new` makes it.
pub open spec fn initial(b: Board) -> bool {
    &&& b.side == Side::White
    &&& b.castling == crate::board::Castling(0b1111)
    &&& b.en_passant == 0
    &&& b.white@ == crate::board::start_white()
    &&& b.black@ == crate::board::start_black()
    &&& b.white_bb == 65535
    &&& b.black_bb == 18446462598732840960
    &&& b.half_move == 0
    &&& b.full_move == 0
    &&& b.state == GameState::Normal
}

/// Moves enough for any game from `b` with `r` random moves: the random moves
/// and the bound on the moves left, with one to spare.
pub open spec fn game_fuel(b: Board, r: nat) -> nat {
    (r + moves_left_bound(b) + 1) as nat
}

/// The self-play game from `b`, at most `fuel` moves of it: while `r` random
/// moves remain, the legal move that the generator in state `x` draws, then
/// the move a search of `depth` plies picks, until a side has no legal move,
/// the game is over, or the search picks none. Gives the position after each
/// move, the final position, and the generator's final state.
#[verifier::opaque]
pub open spec fn self_play(
    b: Board,
    r: nat,
    x: u64,
    depth: nat,
    net: spec_fn(Board) -> int,
    fuel: nat,
) -> (Seq<Board>, Board, u64)
    decreases fuel,
{
    if b.state != GameState::Normal {
        (Seq::empty(), b, x)
    } else if r > 0 {
        let l = legal_moves(b);
        if l.len() == 0 {
            (Seq::empty(), ended(b), x)
        } else if fuel == 0 {
            (Seq::empty(), b, x)
        } else {
            let y = xorshift(x);
            let n = after_move(b, l[(y % (l.len() as u64)) as int]);
            let rest = self_play(n, (r - 1) as nat, y, depth, net, (fuel - 1) as nat);
            (seq![n] + rest.0, rest.1, rest.2)
        }
    } else {
        let pick = search_spec(b, depth, net);
        if pick is None {
            (
                Seq::empty(),
                if depth > 0 && legal_moves(b).len() == 0 {
                    ended(b)
                } else {
                    b
                },
                x,
            )
        } else if fuel == 0 {
            (Seq::empty(), b, x)
        } else {
            let n = after_move(b, pick->0);
            let rest = self_play(n, 0, x, depth, net, (fuel - 1) as nat);
            (seq![n] + rest.0, rest.1, rest.2)
        }
    }
}

/// The self-play game from `b` (as `self_play` has it) reaches no panic:
/// every position where a random move is drawn admits move generation, and
/// every position where the search picks admits a search of `depth > 0` that
/// picks a move whenever there is a legal one.
#[verifier::opaque]
pub open spec fn self_play_ok(
    b: Board,
    r: nat,
    x: u64,
    depth: nat,
    net: spec_fn(Board) -> int,
    fuel: nat,
) -> bool
    decreases fuel,
{
    if b.state != GameState::Normal {
        true
    } else if r > 0 {
        let l = legal_moves(b);
        let y = xorshift(x);
        &&& movegen_ok(b)
        &&& b.pieces(b.side)[0] != 0
        &&& (fuel > 0 && l.len() > 0 ==> self_play_ok(
            after_move(b, l[(y % (l.len() as u64)) as int]),
            (r - 1) as nat,
            y,
            depth,
            net,
            (fuel - 1) as nat,
        ))
    } else {
        let pick = search_spec(b, depth, net);
        &&& depth > 0
        &&& search_ok(b, depth)
        &&& (legal_moves(b).len() > 0 ==> pick is Some)
        &&& (fuel > 0 && pick is Some ==> self_play_ok(
            after_move(b, pick->0),
            0,
            x,
            depth,
            net,
            (fuel - 1) as nat,
        ))
    }
}

impl<M: Fn(&Board) -> isize> Engine<M> {
    /// Plays one game from the initial position: `random_moves` moves drawn
    /// from `rand`, then the moves a search of `depth` plies picks, until the
    /// game is over; records each position reached and the result for white.
    /// The game ends: every move lowers a bound on the moves left.
    pub fn generate_game(&self, random_moves: usize, depth: usize, rand: &mut Rand) -> (g: Game)
        requires
            self.model_ok(),
            forall|b: Board|
                #[trigger] initial(b) ==> self_play_ok(
                    b,
                    random_moves as nat,
                    old(rand)@,
                    depth as nat,
                    self.net_fn(),
                    game_fuel(b, random_moves as nat),
                ),
        ensures
            forall|b: Board|
                #[trigger] initial(b) ==> game_played(
                    self_play(
                        b,
                        random_moves as nat,
                        old(rand)@,
                        depth as nat,
                        self.net_fn(),
                        game_fuel(b, random_moves as nat),
                    ),
                    g,
                    final(rand)@,
                ),
    {
        let ghost net = self.net_fn();
        let ghost x0 = rand@;
        let mut games: Vec<GameSample> = Vec::new();
        let mut board = Board::new();
        let ghost b0 = board;
        let ghost whole = self_play(b0, random_moves as nat, x0, depth as nat, net, game_fuel(
            b0,
            random_moves as nat,
        ));
        let ghost mut done: Seq<Board> = Seq::empty();
        let ghost mut fuel: nat = game_fuel(b0, random_moves as nat);
        proof {
            assert(initial(b0));
            lemma_start_bound(b0);
            assert(done + whole.0 =~= whole.0);
        }
        let mut i: usize = 0;
        while i < random_moves
            invariant
                self.model_ok(),
                net == self.net_fn(),
                initial(b0),
                x0 == old(rand)@,
                whole == self_play(
                    b0,
                    random_moves as nat,
                    x0,
                    depth as nat,
                    net,
                    game_fuel(b0, random_moves as nat),
                ),
                i <= random_moves,
                playing(whole, board, (random_moves - i) as nat, rand@, depth as nat, net, fuel, done),
                samples_of(games@, done),
            decreases random_moves - i,
        {
            let ghost b = board;
            let ghost x = rand@;
            let ghost before = games@;
            proof {
                lemma_random_ready(whole, b, (random_moves - i) as nat, x, depth as nat, net, fuel, done);
            }
            if !board.play_random(rand, &mut games) {
                let g = Game::new(games, outcome_to_score(board.state));
                proof {
                    lemma_random_over(whole, b, (random_moves - i) as nat, x, depth as nat, net, fuel, done);
                    lemma_game_ensures(b0, random_moves as nat, x0, depth as nat, net, whole, g, rand@);
                }
                return g;
            }
            proof {
                lemma_random_advance(
                    whole,
                    b,
                    board,
                    (random_moves - i) as nat,
                    x,
                    depth as nat,
                    net,
                    fuel,
                    done,
                    before,
                    games@,
                );
                done = done.push(board);
                fuel = (fuel - 1) as nat;
            }
            i += 1;
        }
        loop
            invariant_except_break
                self.model_ok(),
                net == self.net_fn(),
                initial(b0),
                x0 == old(rand)@,
                whole == self_play(
                    b0,
                    random_moves as nat,
                    x0,
                    depth as nat,
                    net,
                    game_fuel(b0, random_moves as nat),
                ),
                playing(whole, board, 0, rand@, depth as nat, net, fuel, done),
                samples_of(games@, done),
            ensures
                initial(b0),
                x0 == old(rand)@,
                net == self.net_fn(),
                whole == self_play(
                    b0,
                    random_moves as nat,
                    x0,
                    depth as nat,
                    net,
                    game_fuel(b0, random_moves as nat),
                ),
                whole == (done, board, rand@),
                board.state != GameState::Normal,
                samples_of(games@, done),
            decreases moves_left_bound(board),
        {
            let ghost b = board;
            let ghost before = games@;
            proof {
                lemma_search_ready(whole, b, rand@, depth as nat, net, fuel, done);
            }
            if !self.play_searched(&mut board, depth, &mut games) {
                proof {
                    lemma_search_over(whole, b, rand@, depth as nat, net, fuel, done);
                }
                break;
            }
            proof {
                lemma_search_advance(
                    whole,
                    b,
                    board,
                    rand@,
                    depth as nat,
                    net,
                    fuel,
                    done,
                    before,
                    games@,
                );
                done = done.push(board);
                fuel = (fuel - 1) as nat;
            }
        }
        let g = Game::new(games, outcome_to_score(board.state));
        proof {
            lemma_game_ensures(b0, random_moves as nat, x0, depth as nat, net, whole, g, rand@);
        }
        g
    }

    /// One move of self-play: plays the move a search of `depth` plies picks
    /// and records the position reached. `false`, with nothing played, when
    /// the search picks none; a side left without a legal move has its game
    /// ended.
    pub fn play_searched(&self, board: &mut Board, depth: usize, games: &mut Vec<GameSample>) -> (r: bool)
        requires
            self.model_ok(),
            depth == 0 || old(board).state != GameState::Normal || search_ok(*old(board), depth as nat),
        ensures
            r == search_spec(*old(board), depth as nat, self.net_fn()) is Some,
            !r ==> final(games)@ == old(games)@ && *final(board) == if depth > 0 && old(board).state
                == GameState::Normal && legal_moves(*old(board)).len() == 0 {
                ended(*old(board))
            } else {
                *old(board)
            },
            r ==> *final(board) == after_move(
                *old(board),
                search_spec(*old(board), depth as nat, self.net_fn())->0,
            ) && recorded(old(games)@, final(games)@, *final(board)) && legal_moves(
                *old(board),
            ).contains(search_spec(*old(board), depth as nat, self.net_fn())->0),
    {
        let ghost b0 = *board;
        let m = self.search(board, depth);
        if m.is_none() {
            return false;
        }
        let mut m = m.unwrap();
        proof {
            lemma_search_ok(b0, depth as nat, 0);
            lemma_node_ok(b0);
            lemma_legal_elems(b0, pseudo_moves(b0), pseudo_moves(b0).len() as int);
            let k = choose|k: int| 0 <= k < legal_moves(b0).len() && legal_moves(b0)[k] == m;
            assert(check_ok(b0, legal_moves(b0)[k]));
        }
        board.make_move(&mut m);
        let sample = GameSample::new(board_to_game(board), board.side);
        games.push(sample);
        proof {
            assert(games@.take(old(games)@.len() as int) =~= old(games)@);
        }
        true
    }
}

/// A random move of self-play: the game from `b` is the position the drawn
/// move reaches, then the game from there.
proof fn lemma_random_step(b: Board, r: nat, x: u64, depth: nat, net: spec_fn(Board) -> int, fuel: nat)
    requires
        b.state == GameState::Normal,
        r > 0,
    ensures
        ({
            let l = legal_moves(b);
            let y = xorshift(x);
            let n = after_move(b, l[(y % (l.len() as u64)) as int]);
            let rest = self_play(n, (r - 1) as nat, y, depth, net, (fuel - 1) as nat);
            &&& l.len() == 0 ==> self_play(b, r, x, depth, net, fuel) == (Seq::<Board>::empty(), ended(b), x)
            &&& l.len() > 0 && fuel > 0 ==> self_play(b, r, x, depth, net, fuel) == (seq![n] + rest.0, rest.1, rest.2)
            &&& self_play_ok(b, r, x, depth, net, fuel) ==> movegen_ok(b) && b.pieces(b.side)[0] != 0
                && (fuel > 0 && l.len() > 0 ==> self_play_ok(n, (r - 1) as nat, y, depth, net, (fuel - 1) as nat))
        }),
{
    reveal(self_play);
    reveal(self_play_ok);
}

/// A searched move of self-play: the game from `b` ends when the search picks
/// nothing, else it is the position the picked move reaches, then the game
/// from there.
proof fn lemma_search_step(b: Board, x: u64, depth: nat, net: spec_fn(Board) -> int, fuel: nat)
    requires
        b.state == GameState::Normal,
    ensures
        ({
            let pick = search_spec(b, depth, net);
            let n = after_move(b, pick->0);
            let rest = self_play(n, 0, x, depth, net, (fuel - 1) as nat);
            &&& pick is None ==> self_play(b, 0, x, depth, net, fuel) == (Seq::<Board>::empty(), if depth > 0
                && legal_moves(b).len() == 0 {
                ended(b)
            } else {
                b
            }, x)
            &&& pick is Some && fuel > 0 ==> self_play(b, 0, x, depth, net, fuel) == (seq![n] + rest.0, rest.1, rest.2)
            &&& self_play_ok(b, 0, x, depth, net, fuel) ==> depth > 0 && search_ok(b, depth) && (legal_moves(b).len() > 0 ==> pick is Some)
                && (fuel > 0 && pick is Some ==> self_play_ok(n, 0, x, depth, net, (fuel - 1) as nat))
        }),
{
    reveal(self_play);
    reveal(self_play_ok);
}

/// A game that is over has no more moves.
proof fn lemma_game_over(b: Board, r: nat, x: u64, depth: nat, net: spec_fn(Board) -> int, fuel: nat)
    requires
        b.state != GameState::Normal,
    ensures
        self_play(b, r, x, depth, net, fuel) == (Seq::<Board>::empty(), b, x),
        self_play_ok(b, r, x, depth, net, fuel),
{
    reveal(self_play);
    reveal(self_play_ok);
}

/// `games` records the positions of `done`, one sample each.
pub open spec fn samples_of(games: Seq<GameSample>, done: Seq<Board>) -> bool {
    &&& games.len() == done.len()
    &&& forall|j: int| 0 <= j < done.len() ==> sample_of(#[trigger] games[j], done[j])
}

/// `g` records the game `play` (positions, final position, generator state),
/// and `y` is the generator's final state.
pub open spec fn game_played(play: (Seq<Board>, Board, u64), g: Game, y: u64) -> bool {
    &&& samples_of(g.games@, play.0)
    &&& g.result == score_of(play.1.state)
    &&& y == play.2
}

/// Halfway through the game `whole`: `done` has been played and `b` reached,
/// with `r` random moves left, the generator in state `x`, and `fuel` moves
/// to spare; the rest of the game admits it and ends in time.
pub open spec fn playing(
    whole: (Seq<Board>, Board, u64),
    b: Board,
    r: nat,
    x: u64,
    depth: nat,
    net: spec_fn(Board) -> int,
    fuel: nat,
    done: Seq<Board>,
) -> bool {
    let rest = self_play(b, r, x, depth, net, fuel);
    &&& self_play_ok(b, r, x, depth, net, fuel)
    &&& fuel >= r + moves_left_bound(b) + 1
    &&& moves_left_bound(b) >= 0
    &&& clock_ok(b)
    &&& whole == (done + rest.0, rest.1, rest.2)
}

proof fn lemma_initial_unique(b1: Board, b2: Board)
    requires
        initial(b1),
        initial(b2),
    ensures
        b1 == b2,
{
    assert(b1.white =~= b2.white) by {
        assert forall|i: int| 0 <= i < 6 implies b1.white[i] == b2.white[i] by {
            assert(b1.white@[i] == b2.white@[i]);
        }
    }
    assert(b1.black =~= b2.black) by {
        assert forall|i: int| 0 <= i < 6 implies b1.black[i] == b2.black[i] by {
            assert(b1.black@[i] == b2.black@[i]);
        }
    }
}

/// The game played from `b0` is the game played from any initial board.
proof fn lemma_game_ensures(
    b0: Board,
    r: nat,
    x0: u64,
    depth: nat,
    net: spec_fn(Board) -> int,
    whole: (Seq<Board>, Board, u64),
    g: Game,
    y: u64,
)
    requires
        initial(b0),
        whole == self_play(b0, r, x0, depth, net, game_fuel(b0, r)),
        game_played(whole, g, y),
    ensures
        forall|b: Board| #[trigger] initial(b) ==> game_played(
            self_play(b, r, x0, depth, net, game_fuel(b, r)),
            g,
            y,
        ),
{
    assert forall|b: Board| #[trigger] initial(b) implies game_played(
        self_play(b, r, x0, depth, net, game_fuel(b, r)),
        g,
        y,
    ) by {
        lemma_initial_unique(b, b0);
    }
}

/// Before a random move: a board in play admits move generation.
proof fn lemma_random_ready(
    whole: (Seq<Board>, Board, u64),
    b: Board,
    r: nat,
    x: u64,
    depth: nat,
    net: spec_fn(Board) -> int,
    fuel: nat,
    done: Seq<Board>,
)
    requires
        playing(whole, b, r, x, depth, net, fuel, done),
        r > 0,
    ensures
        b.state != GameState::Normal || (movegen_ok(b) && b.pieces(b.side)[0] != 0),
{
    if b.state == GameState::Normal {
        lemma_random_step(b, r, x, depth, net, fuel);
    }
}

/// When no random move is played, the game is over and fully recorded.
proof fn lemma_random_over(
    whole: (Seq<Board>, Board, u64),
    b: Board,
    r: nat,
    x: u64,
    depth: nat,
    net: spec_fn(Board) -> int,
    fuel: nat,
    done: Seq<Board>,
)
    requires
        playing(whole, b, r, x, depth, net, fuel, done),
        r > 0,
    ensures
        ({
            let end = if b.state == GameState::Normal {
                ended(b)
            } else {
                b
            };
            b.state != GameState::Normal || legal_moves(b).len() == 0 ==> whole == (done, end, x)
                && end.state != GameState::Normal
        }),
{
    if b.state == GameState::Normal {
        lemma_random_step(b, r, x, depth, net, fuel);
    } else {
        lemma_game_over(b, r, x, depth, net, fuel);
    }
    assert(done + Seq::<Board>::empty() =~= done);
}

/// After a random move: the game goes on from the position reached, one
/// move closer to its end.
proof fn lemma_random_advance(
    whole: (Seq<Board>, Board, u64),
    b: Board,
    n: Board,
    r: nat,
    x: u64,
    depth: nat,
    net: spec_fn(Board) -> int,
    fuel: nat,
    done: Seq<Board>,
    before: Seq<GameSample>,
    after: Seq<GameSample>,
)
    requires
        playing(whole, b, r, x, depth, net, fuel, done),
        r > 0,
        b.state == GameState::Normal,
        legal_moves(b).len() > 0,
        n == after_move(
            b,
            legal_moves(b)[(xorshift(x) % (legal_moves(b).len() as u64)) as int],
        ),
        samples_of(before, done),
        recorded(before, after, n),
    ensures
        playing(whole, n, (r - 1) as nat, xorshift(x), depth, net, (fuel - 1) as nat, done.push(n)),
        samples_of(after, done.push(n)),
{
    lemma_random_step(b, r, x, depth, net, fuel);
    lemma_movegen_ok_facts(b);
    let l = legal_moves(b);
    lemma_legal_elems(b, pseudo_moves(b), pseudo_moves(b).len() as int);
    assert(l.len() <= 256);
    let k = (xorshift(x) % (l.len() as u64)) as int;
    assert(0 <= k < l.len());
    lemma_legal_move_shortens_game(b, k);
    let rest = self_play(n, (r - 1) as nat, xorshift(x), depth, net, (fuel - 1) as nat);
    assert(done + (seq![n] + rest.0) =~= done.push(n) + rest.0);
    assert forall|j: int| 0 <= j < done.len() + 1 implies sample_of(
        #[trigger] after[j],
        done.push(n)[j],
    ) by {
        if j < done.len() {
            assert(after[j] == before[j]);
        }
    }
}

/// Before a searched move: a board in play admits the search.
proof fn lemma_search_ready(
    whole: (Seq<Board>, Board, u64),
    b: Board,
    x: u64,
    depth: nat,
    net: spec_fn(Board) -> int,
    fuel: nat,
    done: Seq<Board>,
)
    requires
        playing(whole, b, 0, x, depth, net, fuel, done),
    ensures
        depth == 0 || b.state != GameState::Normal || search_ok(b, depth),
{
    if b.state == GameState::Normal {
        lemma_search_step(b, x, depth, net, fuel);
    }
}

/// When the search picks no move, the game is over and fully recorded.
proof fn lemma_search_over(
    whole: (Seq<Board>, Board, u64),
    b: Board,
    x: u64,
    depth: nat,
    net: spec_fn(Board) -> int,
    fuel: nat,
    done: Seq<Board>,
)
    requires
        playing(whole, b, 0, x, depth, net, fuel, done),
    ensures
        search_spec(b, depth, net) is None ==> {
            let end = if depth > 0 && b.state == GameState::Normal && legal_moves(b).len() == 0 {
                ended(b)
            } else {
                b
            };
            whole == (done, end, x) && end.state != GameState::Normal
        },
{
    if b.state == GameState::Normal {
        lemma_search_step(b, x, depth, net, fuel);
    } else {
        lemma_game_over(b, 0, x, depth, net, fuel);
    }
    assert(done + Seq::<Board>::empty() =~= done);
}

/// After a searched move: the game goes on from the position reached, one
/// move closer to its end.
proof fn lemma_search_advance(
    whole: (Seq<Board>, Board, u64),
    b: Board,
    n: Board,
    x: u64,
    depth: nat,
    net: spec_fn(Board) -> int,
    fuel: nat,
    done: Seq<Board>,
    before: Seq<GameSample>,
    after: Seq<GameSample>,
)
    requires
        playing(whole, b, 0, x, depth, net, fuel, done),
        search_spec(b, depth, net) is Some,
        legal_moves(b).contains(search_spec(b, depth, net)->0),
        n == after_move(b, search_spec(b, depth, net)->0),
        samples_of(before, done),
        recorded(before, after, n),
    ensures
        playing(whole, n, 0, x, depth, net, (fuel - 1) as nat, done.push(n)),
        samples_of(after, done.push(n)),
        moves_left_bound(n) < moves_left_bound(b),
{
    lemma_search_step(b, x, depth, net, fuel);
    lemma_search_ok(b, depth, 0);
    lemma_node_ok(b);
    let m = search_spec(b, depth, net)->0;
    let l = legal_moves(b);
    let k = choose|k: int| 0 <= k < l.len() && l[k] == m;
    lemma_legal_move_shortens_game(b, k);
    let rest = self_play(n, 0, x, depth, net, (fuel - 1) as nat);
    assert(done + (seq![n] + rest.0) =~= done.push(n) + rest.0);
    assert forall|j: int| 0 <= j < done.len() + 1 implies sample_of(
        #[trigger] after[j],
        done.push(n)[j],
    ) by {
        if j < done.len() {
            assert(after[j] == before[j]);
        }
    }
}

/// A board that admits move generation holds its pieces consistently and can
/// try each pseudo-legal move.
proof fn lemma_movegen_ok_facts(b: Board)
    requires
        movegen_ok(b),
    ensures
        b.wf(),
        forall|i: int| 0 <= i < pseudo_moves(b).len() ==> check_ok(b, #[trigger] pseudo_moves(b)[i]),
{
}

proof fn lemma_root_pick_keeps(
    b: Board,
    depth: nat,
    net: spec_fn(Board) -> int,
    l: Seq<Move>,
    ord: Seq<usize>,
    k: int,
    alpha: int,
    best: Option<Move>,
)
    requires
        best is Some,
    ensures
        root_pick(b, depth, net, l, ord, k, alpha, best) is Some,
    decreases ord.len() - k,
{
    if depth > 0 && 0 <= k < ord.len() {
        let m = l[ord[k] as int];
        let c = -ab(after_move(b, m), (depth - 1) as nat, -(POS_INF as int), -alpha, net);
        lemma_root_pick_keeps(
            b,
            depth,
            net,
            l,
            ord,
            k + 1,
            larger(alpha, c),
            if c >= alpha {
                Some(m)
            } else {
                best
            },
        );
    }
}

/// With a network whose values stay within the mate scores, a search of some
/// depth in a game still going on picks a move whenever there is a legal one.
pub proof fn lemma_search_picks(b: Board, depth: nat, net: spec_fn(Board) -> int)
    requires
        net_bounded(net),
        depth > 0,
        b.state == GameState::Normal,
        legal_moves(b).len() > 0,
    ensures
        search_spec(b, depth, net) is Some,
{
    let l = legal_moves(b);
    let ord = sort_desc(capture_keys(l), l.len());
    crate::ordering::lemma_sort_desc_len(capture_keys(l), l.len());
    let m = l[ord[0] as int];
    let alpha = NEG_INF as int;
    let c = -ab(after_move(b, m), (depth - 1) as nat, -(POS_INF as int), -alpha, net);
    lemma_ab_bounded(after_move(b, m), (depth - 1) as nat, -(POS_INF as int), -alpha, net);
    assert(c >= alpha);
    lemma_root_pick_keeps(b, depth, net, l, ord, 1, larger(alpha, c), Some(m));
}

proof fn lemma_start_bound(b: Board)
    requires
        initial(b),
    ensures
        moves_left_bound(b) >= 0,
        clock_ok(b),
{
    crate::game_laws::lemma_bound_nonneg(b);
}

proof fn lemma_zero_empty(sq: int)
    ensures
        !sq_in(0u64, sq),
{
    crate::bits::lemma_sq_in_zero(sq);
}


/// What the side to move on `b` gets for playing `m`: the negated minimax
/// value, over the remaining `depth - 1` plies, of the position it leads to.
pub open spec fn move_value(b: Board, depth: nat, net: spec_fn(Board) -> int, m: Move) -> int {
    -minimax(after_move(b, m), (depth - 1) as nat, net)
}

/// The value of the move at position `q` of the search order `ord` over `l`.
pub open spec fn value_at(
    b: Board,
    depth: nat,
    net: spec_fn(Board) -> int,
    l: Seq<Move>,
    ord: Seq<usize>,
    q: int,
) -> int {
    move_value(b, depth, net, l[ord[q] as int])
}

/// A root move searched with the window raised to `a` comes back with a value
/// no lower than its own, and with exactly its own when above `a`.
proof fn lemma_root_child(b: Board, depth: nat, net: spec_fn(Board) -> int, m: Move, a: int)
    requires
        net_bounded(net),
        depth > 0,
        NEG_INF <= a < POS_INF,
    ensures
        NEG_INF <= move_value(b, depth, net, m) <= POS_INF,
        move_value(b, depth, net, m) <= -ab(after_move(b, m), (depth - 1) as nat, -(POS_INF as int), -a, net),
        -ab(after_move(b, m), (depth - 1) as nat, -(POS_INF as int), -a, net) > a ==> -ab(
            after_move(b, m),
            (depth - 1) as nat,
            -(POS_INF as int),
            -a,
            net,
        ) == move_value(b, depth, net, m),
{
    let c = after_move(b, m);
    let d = (depth - 1) as nat;
    lemma_ab_bounds_minimax(c, d, -(POS_INF as int), -a, net);
    lemma_ab_bounded(c, d, -(POS_INF as int), -a, net);
    lemma_minimax_bounded(c, d, net);
}

/// After the first `k` moves of the search order, the move kept, `m0`, was
/// searched at position `p`, an earlier or the same position `k0` holds the
/// best value so far, `alpha`, and every move searched after `p` is worse.
#[verifier::opaque]
spec fn kept_at(
    b: Board,
    depth: nat,
    net: spec_fn(Board) -> int,
    l: Seq<Move>,
    ord: Seq<usize>,
    k: int,
    alpha: int,
    m0: Move,
    p: int,
    k0: int,
) -> bool {
    &&& 0 <= k0 <= p < k
    &&& l[ord[p] as int] == m0
    &&& value_at(b, depth, net, l, ord, k0) == alpha
    &&& forall|q: int| p < q < k ==> #[trigger] value_at(b, depth, net, l, ord, q) < alpha
}

/// What holds of the search at the root after the first `k` moves of its order.
spec fn root_state(
    b: Board,
    depth: nat,
    net: spec_fn(Board) -> int,
    l: Seq<Move>,
    ord: Seq<usize>,
    k: int,
    alpha: int,
    best: Option<Move>,
) -> bool {
    &&& 0 <= k <= ord.len()
    &&& NEG_INF <= alpha < POS_INF
    &&& forall|q: int| 0 <= q < k ==> #[trigger] value_at(b, depth, net, l, ord, q) <= alpha
    &&& (best is None ==> k == 0 && alpha == NEG_INF)
    &&& (best matches Some(m0) ==> exists|p: int, k0: int|
        #[trigger] kept_at(b, depth, net, l, ord, k, alpha, m0, p, k0))
}

proof fn lemma_root_step(
    b: Board,
    depth: nat,
    net: spec_fn(Board) -> int,
    l: Seq<Move>,
    ord: Seq<usize>,
    k: int,
    alpha: int,
    best: Option<Move>,
)
    requires
        net_bounded(net),
        depth > 0,
        k < ord.len(),
        ord[k] < l.len(),
        value_at(b, depth, net, l, ord, k) < POS_INF,
        root_state(b, depth, net, l, ord, k, alpha, best),
    ensures
        ({
            let m = l[ord[k] as int];
            let c = -ab(after_move(b, m), (depth - 1) as nat, -(POS_INF as int), -alpha, net);
            root_state(
                b,
                depth,
                net,
                l,
                ord,
                k + 1,
                larger(alpha, c),
                if c >= alpha {
                    Some(m)
                } else {
                    best
                },
            )
        }),
{
    let m = l[ord[k] as int];
    let c = -ab(after_move(b, m), (depth - 1) as nat, -(POS_INF as int), -alpha, net);
    lemma_root_child(b, depth, net, m, alpha);
    let v = value_at(b, depth, net, l, ord, k);
    assert(v == move_value(b, depth, net, m));
    let a2 = larger(alpha, c);
    assert(a2 == larger(alpha, v));
    if c >= alpha {
        if v == a2 {
            reveal(kept_at);
            assert(kept_at(b, depth, net, l, ord, k + 1, a2, m, k, k));
        } else {
            let m0 = best->0;
            let (p, k0) = choose|p: int, k0: int| #[trigger] kept_at(b, depth, net, l, ord, k, alpha, m0, p, k0);
            reveal(kept_at);
            assert(kept_at(b, depth, net, l, ord, k + 1, a2, m, k, k0));
        }
    } else {
        let m0 = best->0;
        let (p, k0) = choose|p: int, k0: int| #[trigger] kept_at(b, depth, net, l, ord, k, alpha, m0, p, k0);
        reveal(kept_at);
        assert forall|q: int| p < q < k + 1 implies #[trigger] value_at(b, depth, net, l, ord, q) < a2 by {
            if q == k {
                assert(v < alpha);
            }
        }
        assert(kept_at(b, depth, net, l, ord, k + 1, a2, m0, p, k0));
    }
    assert forall|q: int| 0 <= q < k + 1 implies #[trigger] value_at(b, depth, net, l, ord, q) <= a2 by {
        if q < k {
            assert(value_at(b, depth, net, l, ord, q) <= alpha);
        }
    }
}

/// The move the root search keeps from position `k` on is one whose position
/// in the search order comes at or after that of a best move, and before any
/// other position of a best move.
proof fn lemma_root_pick_law(
    b: Board,
    depth: nat,
    net: spec_fn(Board) -> int,
    l: Seq<Move>,
    ord: Seq<usize>,
    k: int,
    alpha: int,
    best: Option<Move>,
)
    requires
        net_bounded(net),
        depth > 0,
        forall|q: int| 0 <= q < ord.len() ==> #[trigger] ord[q] < l.len(),
        forall|q: int| 0 <= q < ord.len() ==> #[trigger] value_at(b, depth, net, l, ord, q) < POS_INF,
        root_state(b, depth, net, l, ord, k, alpha, best),
    ensures
        root_pick(b, depth, net, l, ord, k, alpha, best) matches Some(m) ==> exists|p: int, k0: int|
            #[trigger] kept_at(b, depth, net, l, ord, ord.len() as int, value_at(b, depth, net, l, ord, k0), m, p, k0)
                && forall|q: int| 0 <= q < ord.len() ==> #[trigger] value_at(b, depth, net, l, ord, q)
                <= value_at(b, depth, net, l, ord, k0),
    decreases ord.len() - k,
{
    if k == ord.len() {
        if let Some(m0) = best {
            let (p, k0) = choose|p: int, k0: int| #[trigger] kept_at(b, depth, net, l, ord, k, alpha, m0, p, k0);
            reveal(kept_at);
            assert(value_at(b, depth, net, l, ord, k0) == alpha);
            assert(kept_at(b, depth, net, l, ord, ord.len() as int, value_at(b, depth, net, l, ord, k0), m0, p, k0));
        }
    } else {
        let m = l[ord[k] as int];
        let c = -ab(after_move(b, m), (depth - 1) as nat, -(POS_INF as int), -alpha, net);
        lemma_root_step(b, depth, net, l, ord, k, alpha, best);
        lemma_root_pick_law(
            b,
            depth,
            net,
            l,
            ord,
            k + 1,
            larger(alpha, c),
            if c >= alpha {
                Some(m)
            } else {
                best
            },
        );
    }
}


/// Which move the search picks. With a network whose values stay within the
/// mate scores, in a game going on where no legal move is worth the full mate
/// score, the move a search of `depth > 0` plies picks is a best move by
/// minimax, or comes after a best move in the order the moves are searched;
/// and every move searched after it is worse than the best.
pub proof fn lemma_search_picks_best(b: Board, depth: nat, net: spec_fn(Board) -> int)
    requires
        net_bounded(net),
        depth > 0,
        b.state == GameState::Normal,
        legal_moves(b).len() <= usize::MAX,
        forall|j: int|
            0 <= j < legal_moves(b).len() ==> #[trigger] move_value(b, depth, net, legal_moves(b)[j])
                < POS_INF,
    ensures
        search_spec(b, depth, net) matches Some(m) ==> {
            let l = legal_moves(b);
            let ord = sort_desc(capture_keys(l), l.len());
            exists|p: int, k0: int|
                #![trigger l[ord[p] as int], l[ord[k0] as int]]
                0 <= k0 <= p < l.len() && l[ord[p] as int] == m && (forall|j: int|
                    0 <= j < l.len() ==> #[trigger] move_value(b, depth, net, l[j]) <= move_value(
                        b,
                        depth,
                        net,
                        l[ord[k0] as int],
                    )) && (forall|q: int|
                    p < q < l.len() ==> #[trigger] move_value(b, depth, net, l[ord[q] as int])
                        < move_value(b, depth, net, l[ord[k0] as int]))
        },
{
    let l = legal_moves(b);
    let n = l.len();
    let keys = capture_keys(l);
    let ord = sort_desc(keys, n);
    if n > 0 {
        lemma_sort_desc(keys, n);
        assert forall|q: int| 0 <= q < ord.len() implies #[trigger] value_at(b, depth, net, l, ord, q)
            < POS_INF by {
            assert(move_value(b, depth, net, l[ord[q] as int]) < POS_INF);
        }
        assert forall|q: int| 0 <= q < ord.len() implies #[trigger] ord[q] < l.len() by {
            assert(sort_desc(keys, n)[q] < n);
        }
        assert(root_state(b, depth, net, l, ord, 0, NEG_INF as int, None));
        lemma_root_pick_law(b, depth, net, l, ord, 0, NEG_INF as int, None);
        if let Some(m) = search_spec(b, depth, net) {
            let (p, k0) = choose|p: int, k0: int|
                #[trigger] kept_at(b, depth, net, l, ord, ord.len() as int, value_at(b, depth, net, l, ord, k0), m, p, k0)
                    && forall|q: int| 0 <= q < ord.len() ==> #[trigger] value_at(b, depth, net, l, ord, q)
                    <= value_at(b, depth, net, l, ord, k0);
            reveal(kept_at);
            let best = move_value(b, depth, net, l[ord[k0] as int]);
            assert forall|j: int| 0 <= j < l.len() implies #[trigger] move_value(b, depth, net, l[j]) <= best by {
                assert(ord.contains(j as usize));
                let q = choose|q: int| 0 <= q < ord.len() && ord[q] == j as usize;
                assert(value_at(b, depth, net, l, ord, q) <= value_at(b, depth, net, l, ord, k0));
            }
            assert forall|q: int| p < q < l.len() implies #[trigger] move_value(b, depth, net, l[ord[q] as int]) < best by {
                assert(value_at(b, depth, net, l, ord, q) < value_at(b, depth, net, l, ord, k0));
            }
            assert(0 <= k0 <= p < l.len() && l[ord[p] as int] == m);
        }
    }
}

} // verus!
