use cortado::board::{Board, GameState, Piece, Side};
use cortado::engine::{board_to_game, Engine};
use cortado::ordering::order_by_key;
use cortado::search::{NEG_INF, POS_INF};

fn flat_engine() -> Engine<impl Fn(&Board) -> isize> {
    Engine { model: |_b: &Board| -> isize { 0 } }
}

/// White's material minus black's, in pawns, read from the network encoding.
fn material_engine() -> Engine<impl Fn(&Board) -> isize> {
    Engine {
        model: |b: &Board| -> isize {
            let values = [0isize, 0, 9, 5, 3, 3, 1];
            let mut total = 0isize;
            for code in board_to_game(b) {
                let c = code as usize;
                if c >= 1 && c <= 6 {
                    total += values[c];
                } else if c >= 7 {
                    total -= values[c - 6];
                }
            }
            total
        },
    }
}

#[test]
fn order_by_key_is_a_stable_descending_sort() {
    assert_eq!(order_by_key(&vec![0, 5, 3, 5, -1]), vec![1, 3, 2, 0, 4]);
    assert_eq!(order_by_key(&vec![0, 0, 0]), vec![0, 1, 2]);
    assert_eq!(order_by_key(&vec![]), Vec::<usize>::new());
    assert_eq!(order_by_key(&vec![-2, 7]), vec![1, 0]);
}

#[test]
fn score_of_finished_and_running_games() {
    let e = Engine { model: |_b: &Board| -> isize { 42 } };
    let mut b = Board::new();
    assert_eq!(e.score(&b), 42);
    b.state = GameState::WhiteCheckmate;
    assert_eq!(e.score(&b), NEG_INF);
    b.state = GameState::BlackCheckmate;
    assert_eq!(e.score(&b), POS_INF);
    b.state = GameState::Stalemate;
    assert_eq!(e.score(&b), 0);
    b.state = GameState::FiftyMove;
    assert_eq!(e.score(&b), 0);
}

#[test]
fn negamax_at_depth_zero_scores_for_the_side_to_move() {
    let e = Engine { model: |_b: &Board| -> isize { 7 } };
    let mut b = Board::new();
    assert_eq!(e.negamax(&mut b, 0, NEG_INF, POS_INF), 7);
    b.side = Side::Black;
    assert_eq!(e.negamax(&mut b, 0, NEG_INF, POS_INF), -7);
}

#[test]
fn negamax_records_checkmate() {
    let e = flat_engine();
    let mut b =
        Board::from_fen("rnb1kbnr/pppp1ppp/8/4p3/6Pq/5P2/PPPPP2P/RNBQKBNR w KQkq - 1 3");
    assert_eq!(e.negamax(&mut b, 1, NEG_INF, POS_INF), NEG_INF);
    assert_eq!(b.state, GameState::WhiteCheckmate);
}

#[test]
fn negamax_leaves_the_board_as_it_was() {
    let e = material_engine();
    let mut b = Board::from_fen("r3k2r/p1ppqpb1/bn2pnp1/3PN3/1p2P3/2N2Q1p/PPPBBPPP/R3K2R w KQkq - 0 1");
    let before = b.clone();
    e.negamax(&mut b, 2, NEG_INF, POS_INF);
    assert_eq!(b, before);
}

#[test]
fn search_finds_mate_in_one() {
    let e = flat_engine();
    let mut b = Board::from_fen("6k1/5ppp/8/8/8/8/8/R5K1 w - - 0 1");
    let m = e.search(&mut b, 2).unwrap();
    assert_eq!((m.from, m.to, m.piece), (0, 56, Piece::Rook));
    assert_eq!(b.state, GameState::Normal);
}

#[test]
fn search_takes_the_queen() {
    let e = material_engine();
    let mut b = Board::from_fen("4k3/8/8/3q4/8/8/8/3RK3 w - - 0 1");
    let m = e.search(&mut b, 1).unwrap();
    assert_eq!((m.from, m.to), (3, 35));
    assert_eq!(m.capture, Some(Piece::Queen));
}

#[test]
fn search_without_depth_or_moves_gives_nothing() {
    let e = flat_engine();
    let mut b = Board::new();
    assert!(e.search(&mut b, 0).is_none());
    let mut mated =
        Board::from_fen("rnb1kbnr/pppp1ppp/8/4p3/6Pq/5P2/PPPPP2P/RNBQKBNR w KQkq - 1 3");
    assert!(e.search(&mut mated, 2).is_none());
    assert_eq!(mated.state, GameState::WhiteCheckmate);
    assert!(e.search(&mut mated, 2).is_none());
}

#[test]
fn narrow_window_agrees_with_full_window() {
    let e = material_engine();
    let mut b = Board::from_fen("4k3/8/8/3q4/8/8/3P4/3RK3 w - - 0 1");
    let full = e.negamax(&mut b, 2, NEG_INF, POS_INF);
    let narrow = e.negamax(&mut b, 2, full - 1, full + 1);
    assert_eq!(narrow, full);
    let high = e.negamax(&mut b, 2, full + 1, full + 5);
    assert!(high <= full + 1);
    assert!(high >= full);
    let low = e.negamax(&mut b, 2, full - 5, full - 1);
    assert!(low >= full - 1);
    assert!(low <= full);
}

#[test]
fn random_opening_move_is_drawn_from_the_legal_list() {
    let mut rand = cortado::magic_table::Rand::new();
    rand.set_seed(42);
    let mut b = Board::new();
    let mut games = Vec::new();
    assert!(b.play_random(&mut rand, &mut games));
    // 0xac1fea % 20 == 2: the third legal move, b2-b3.
    assert_eq!(b.side, Side::Black);
    assert_ne!(b.white[5] & (1u64 << 17), 0);
    assert_eq!(b.white[5] & (1u64 << 9), 0);
    assert_eq!(games.len(), 1);
    assert_eq!(games[0].stm, Side::Black);
    assert_eq!(games[0].board[17], 6);
    assert_eq!(games[0].board[9], 0);
}

#[test]
fn random_opening_stops_when_the_game_is_over() {
    let mut rand = cortado::magic_table::Rand::new();
    let mut mated =
        Board::from_fen("rnb1kbnr/pppp1ppp/8/4p3/6Pq/5P2/PPPPP2P/RNBQKBNR w KQkq - 1 3");
    let mut games = Vec::new();
    assert!(!mated.play_random(&mut rand, &mut games));
    assert!(games.is_empty());
    assert_eq!(mated.state, GameState::WhiteCheckmate);
}

#[test]
fn self_play_move_plays_the_searched_move() {
    let e = flat_engine();
    let mut b = Board::from_fen("6k1/5ppp/8/8/8/8/8/R5K1 w - - 0 1");
    let mut games = Vec::new();
    assert!(e.play_searched(&mut b, 2, &mut games));
    assert_ne!(b.white[2] & (1u64 << 56), 0);
    assert_eq!(games.len(), 1);
    assert!(!e.play_searched(&mut b, 2, &mut games));
    assert_eq!(b.state, GameState::BlackCheckmate);
    assert_eq!(games.len(), 1);
}

#[test]
fn self_play_games_end_and_record_every_position() {
    let e = material_engine();
    let mut rand = cortado::magic_table::Rand::new();
    rand.set_seed(7);
    let g = e.generate_game(4, 1, &mut rand);
    assert!(g.games.len() >= 4);
    assert!(g.result == -1 || g.result == 0 || g.result == 1);
    for (i, s) in g.games.iter().enumerate() {
        let expected = if i % 2 == 0 { Side::Black } else { Side::White };
        assert_eq!(s.stm, expected);
    }
}

#[test]
fn self_play_from_random_moves_only() {
    let e = flat_engine();
    let mut rand = cortado::magic_table::Rand::new();
    rand.set_seed(99);
    let g = e.generate_game(300, 1, &mut rand);
    assert!(!g.games.is_empty());
    assert!(g.result == -1 || g.result == 0 || g.result == 1);
}

#[test]
fn negamax_without_legal_moves_ignores_window_and_model() {
    let e = Engine { model: |_b: &Board| -> isize { panic!("the model is not asked") } };
    let mut mated = Board::from_fen("7k/6Q1/6K1/8/8/8/8/8 b - - 0 1");
    assert_eq!(e.negamax(&mut mated, 3, isize::MIN, isize::MIN), NEG_INF);
    assert_eq!(mated.state, GameState::BlackCheckmate);
    let mut stale = Board::from_fen("7k/5Q2/6K1/8/8/8/8/8 b - - 0 1");
    assert_eq!(e.negamax(&mut stale, 2, isize::MIN, 5), 0);
    assert_eq!(stale.state, GameState::Stalemate);
    assert_eq!(e.search(&mut Board::from_fen("7k/5Q2/6K1/8/8/8/8/8 b - - 0 1"), 2), None);
}

#[test]
fn fen_with_a_zero_digit_reads_as_without_it() {
    let a = Board::from_fen("4k3/8/8/8/8/8/8/4K03 w - - 0 1");
    let b = Board::from_fen("4k3/8/8/8/8/8/8/4K3 w - - 0 1");
    assert_eq!(a.white, b.white);
    assert_eq!(a.black, b.black);
    assert_eq!(a.white_bb, b.white_bb);
}
