use cortado::board::{Board, GameState, Move, Piece, Side};
use cortado::engine::{
    board_to_game, multiply, mvv_lva, outcome_to_score, piece_value, Game, GameSample,
};

#[test]
fn piece_values() {
    assert_eq!(piece_value(Piece::Queen), 9);
    assert_eq!(piece_value(Piece::Rook), 5);
    assert_eq!(piece_value(Piece::Bishop), 3);
    assert_eq!(piece_value(Piece::Knight), 3);
    assert_eq!(piece_value(Piece::Pawn), 1);
    assert_eq!(piece_value(Piece::King), 0);
    assert_eq!(piece_value(Piece::Empty), 0);
}

#[test]
fn capture_ordering() {
    let mut m = Move::new(0, 8, Piece::Pawn, None);
    assert_eq!(mvv_lva(&m), 0);
    m.set_capture(Piece::Queen);
    assert_eq!(mvv_lva(&m), 89);
    let mut r = Move::new(0, 8, Piece::Queen, None);
    r.set_capture(Piece::Pawn);
    assert_eq!(mvv_lva(&r), 1);
}

#[test]
fn outcomes_and_signs() {
    assert_eq!(outcome_to_score(GameState::WhiteCheckmate), -1);
    assert_eq!(outcome_to_score(GameState::BlackCheckmate), 1);
    assert_eq!(outcome_to_score(GameState::Stalemate), 0);
    assert_eq!(outcome_to_score(GameState::FiftyMove), 0);
    assert_eq!(outcome_to_score(GameState::Threefold), 0);
    assert_eq!(outcome_to_score(GameState::Insufficient), 0);
    assert_eq!(multiply(Side::White), 1);
    assert_eq!(multiply(Side::Black), -1);
}

#[test]
fn board_encoding_of_initial_position() {
    let out = board_to_game(&Board::new());
    assert_eq!(out[0], 3);
    assert_eq!(out[1], 5);
    assert_eq!(out[2], 4);
    assert_eq!(out[3], 2);
    assert_eq!(out[4], 1);
    assert_eq!(out[8], 6);
    assert_eq!(out[20], 0);
    assert_eq!(out[48], 12);
    assert_eq!(out[59], 8);
    assert_eq!(out[60], 7);
    assert_eq!(out.iter().filter(|&&c| c != 0).count(), 32);
}

#[test]
fn samples_and_games() {
    let s = GameSample::new([1; 64], Side::Black);
    assert_eq!(s.board[63], 1);
    assert_eq!(s.stm, Side::Black);
    let g = Game::new(vec![s], -1);
    assert_eq!(g.games.len(), 1);
    assert_eq!(g.result, -1);
}
