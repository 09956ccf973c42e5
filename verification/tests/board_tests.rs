use cortado::attacks::{king_moves_at, knight_moves_at, pawn_attacks_at};
use cortado::magic_table::{generate_bishop_sliding, rook_slider_attack};
use cortado::board::{
    piece_from_index, rook_castle_masks, Board, Castling, GameState, Move, MoveList, Piece, Side,
    UndoInfo,
};

const START: &str = "rnbqkbnr/pppppppp/8/8/8/8/PPPPPPPP/RNBQKBNR w KQkq - 0 1";
const KIWIPETE: &str = "r3k2r/p1ppqpb1/bn2pnp1/3PN3/1p2P3/2N2Q1p/PPPBBPPP/R3K2R w KQkq - 0 1";

#[test]
fn start_fen_reads_as_initial_position() {
    let fen = Board::from_fen(START);
    let new = Board::new();
    assert_eq!(fen.white, new.white);
    assert_eq!(fen.black, new.black);
    assert_eq!(fen.white_bb, new.white_bb);
    assert_eq!(fen.black_bb, new.black_bb);
    assert_eq!(fen.side, Side::White);
    assert_eq!(fen.castling, Castling(0b1111));
    assert_eq!(fen.en_passant, 0);
    assert_eq!(fen.half_move, 0);
    assert_eq!(fen.full_move, 1);
    assert_eq!(fen.state, GameState::Normal);
}

#[test]
fn fen_fields_side_castling_en_passant_counters() {
    let b = Board::from_fen("rnbqkbnr/pppp1ppp/8/4p3/4P3/8/PPPP1PPP/RNBQKBNR b Kq e3 7 12");
    assert_eq!(b.side, Side::Black);
    assert_eq!(b.castling, Castling(0b1001));
    assert_eq!(b.en_passant, 1u64 << 20);
    assert_eq!(b.half_move, 7);
    assert_eq!(b.full_move, 12);
}

#[test]
fn fen_counters_missing_or_unreadable_are_zero() {
    let b = Board::from_fen("8/8/8/8/8/8/8/K6k w - -");
    assert_eq!(b.half_move, 0);
    assert_eq!(b.full_move, 0);
    assert_eq!(b.white[0], 1);
    assert_eq!(b.black[0], 128);
    let c = Board::from_fen("8/8/8/8/8/8/8/K6k w - - x5 +9");
    assert_eq!(c.half_move, 0);
    assert_eq!(c.full_move, 9);
    let d = Board::from_fen("8/8/8/8/8/8/8/K6k w - - 99999999999999999999999 -3");
    assert_eq!(d.half_move, 0);
    assert_eq!(d.full_move, 0);
}

#[test]
fn move_to_sqs_reads_two_square_names() {
    assert_eq!(Board::move_to_sqs("e2e4"), (12, 28));
    assert_eq!(Board::move_to_sqs("A1H8"), (0, 63));
    assert_eq!(Board::move_to_sqs("g1f3q"), (6, 21));
}

#[test]
fn perft_from_start() {
    let mut b = Board::new();
    assert_eq!(b.perft(0), 1);
    assert_eq!(b.perft(1), 20);
    assert_eq!(b.perft(2), 400);
    assert_eq!(b.perft(3), 8902);
    let fresh = Board::new();
    assert_eq!(b.white, fresh.white);
    assert_eq!(b.black, fresh.black);
    assert_eq!(b.state, GameState::Normal);
}

#[test]
fn perft_kiwipete() {
    let mut b = Board::from_fen(KIWIPETE);
    assert_eq!(b.perft(1), 48);
    assert_eq!(b.perft(2), 2039);
}

#[test]
fn perft_endgame_with_en_passant_and_promotion() {
    let mut b = Board::from_fen("8/2p5/3p4/KP5r/1R3p1k/8/4P1P1/8 w - - 0 1");
    assert_eq!(b.perft(1), 14);
    assert_eq!(b.perft(2), 191);
    assert_eq!(b.perft(3), 2812);
}

#[test]
fn make_then_unmake_restores_the_board() {
    let mut b = Board::from_fen(KIWIPETE);
    let before = b.clone();
    let mut moves = b.get_all_moves().unwrap();
    for i in 0..moves.end() {
        let m = moves.get(i).unwrap();
        let undo = b.make_move(m);
        assert_ne!(b.side, before.side);
        b.unmake_move(m, &undo);
        assert_eq!(b, before);
    }
}

#[test]
fn make_move_records_capture_and_resets_counter() {
    let mut b = Board::from_fen("4k3/8/8/3p4/4P3/8/8/4K3 w - - 10 20");
    let mut m = Move::new(28, 35, Piece::Pawn, None);
    let undo = b.make_move(&mut m);
    assert_eq!(m.capture, Some(Piece::Pawn));
    assert_eq!(b.half_move, 0);
    assert_eq!(b.black[5], 0);
    assert_eq!(b.white[5], 1u64 << 35);
    assert_eq!(b.side, Side::Black);
    assert_eq!(undo.prev_half_move, 10);
    b.unmake_move(&m, &undo);
    assert_eq!(b.black[5], 1u64 << 35);
    assert_eq!(b.white[5], 1u64 << 28);
    assert_eq!(b.half_move, 10);
}

#[test]
fn double_push_sets_en_passant_and_full_move_counts_black_moves() {
    let mut b = Board::new();
    let mut m = Move::new(12, 28, Piece::Pawn, None);
    b.make_move(&mut m);
    assert_eq!(b.en_passant, 1u64 << 20);
    assert_eq!(b.full_move, 0);
    let mut r = Move::new(57, 42, Piece::Knight, None);
    b.make_move(&mut r);
    assert_eq!(b.en_passant, 0);
    assert_eq!(b.full_move, 1);
    assert_eq!(b.half_move, 1);
}

#[test]
fn fifty_quiet_moves_end_the_game() {
    let mut b = Board::from_fen("4k3/8/8/8/8/8/8/4K2R w - - 49 80");
    let mut m = Move::new(7, 15, Piece::Rook, None);
    b.make_move(&mut m);
    assert_eq!(b.half_move, 50);
    assert_eq!(b.state, GameState::FiftyMove);
    assert!(b.get_all_moves().is_none());
}

#[test]
fn checkmate_and_stalemate_are_recorded() {
    let mut mated = Board::from_fen("rnb1kbnr/pppp1ppp/8/4p3/6Pq/5P2/PPPPP2P/RNBQKBNR w KQkq - 1 3");
    assert!(mated.get_all_moves().is_none());
    assert_eq!(mated.state, GameState::WhiteCheckmate);
    let mut stale = Board::from_fen("7k/5Q2/6K1/8/8/8/8/8 b - - 0 1");
    assert!(stale.get_all_moves().is_none());
    assert_eq!(stale.state, GameState::Stalemate);
    let mut mated_black = Board::from_fen("7k/6Q1/6K1/8/8/8/8/8 b - - 0 1");
    assert!(mated_black.get_all_moves().is_none());
    assert_eq!(mated_black.state, GameState::BlackCheckmate);
}

#[test]
fn castling_moves_and_rights() {
    let mut b = Board::from_fen("r3k2r/8/8/8/8/8/8/R3K2R w KQkq - 0 1");
    let mut moves = b.get_all_moves().unwrap();
    let mut castles = Vec::new();
    for i in 0..moves.end() {
        let m = moves.get(i).unwrap();
        if m.is_castle {
            castles.push(m.to);
        }
    }
    assert_eq!(castles, vec![6, 2]);
    let mut k = Move::new(4, 6, Piece::King, None).castle();
    b.make_move(&mut k);
    assert_eq!(b.white[2], 1 | (1u64 << 5));
    assert_eq!(b.white[0], 1u64 << 6);
    assert_eq!(b.castling, Castling(0b1100));
}

#[test]
fn castling_through_attack_is_illegal() {
    let mut b = Board::from_fen("4k3/8/8/8/8/8/5r2/R3K2R w KQ - 0 1");
    let mut k = Move::new(4, 6, Piece::King, None).castle();
    assert!(!b.is_legal(&mut k));
    let mut q = Move::new(4, 2, Piece::King, None).castle();
    assert!(b.is_legal(&mut q));
    let mut b3 = Board::from_fen("4k3/8/8/8/8/8/3r4/R3K2R w KQ - 0 1");
    let mut q3 = Move::new(4, 2, Piece::King, None).castle();
    assert!(!b3.is_legal(&mut q3));
    let mut b2 = Board::from_fen("4k3/8/8/8/8/8/8/R3K2R w KQ - 0 1");
    let mut q2 = Move::new(4, 2, Piece::King, None).castle();
    assert!(b2.is_legal(&mut q2));
}

#[test]
fn is_attacked_by_each_piece_kind() {
    let b = Board::from_fen("4k3/8/8/3n4/8/8/8/4K3 w - - 0 1");
    assert!(b.is_attacked(18));
    assert!(b.is_attacked(20));
    assert!(!b.is_attacked(19));
    assert!(!b.is_attacked(27));
    let r = Board::from_fen("4k3/8/8/8/8/8/8/r3K3 w - - 0 1");
    assert!(r.is_attacked(3));
    assert!(r.is_attacked(4));
    let blocked = Board::from_fen("4k3/8/8/8/8/8/8/r1B1K3 w - - 0 1");
    assert!(!blocked.is_attacked(4));
    let p = Board::from_fen("4k3/8/8/8/8/3p4/8/4K3 w - - 0 1");
    assert!(p.is_attacked(12));
    assert!(p.is_attacked(10));
    assert!(!p.is_attacked(11));
}

#[test]
fn pawn_targets_pushes_and_captures() {
    let b = Board::from_fen("4k3/8/8/8/8/2p5/1P6/4K3 w - - 0 1");
    assert_eq!(b.pawn_move_at_sq(9), (1u64 << 17) | (1u64 << 25) | (1u64 << 18));
    let blocked = Board::from_fen("4k3/8/8/8/8/1p6/1P6/4K3 w - - 0 1");
    assert_eq!(blocked.pawn_move_at_sq(9), 0);
}

#[test]
fn promotions_come_in_four() {
    let b = Board::from_fen("4k3/1P6/8/8/8/8/8/4K3 w - - 0 1");
    let mut list = MoveList::new();
    b.generate_moves_pawn(&mut list);
    assert_eq!(list.end(), 4);
    let kinds: Vec<Option<Piece>> = (0..4).map(|i| list.get(i).unwrap().promotion).collect();
    assert_eq!(
        kinds,
        vec![Some(Piece::Queen), Some(Piece::Rook), Some(Piece::Bishop), Some(Piece::Knight)]
    );
}

#[test]
fn knight_moves_from_corner_in_order() {
    let b = Board::from_fen("4k3/8/8/8/8/8/8/N3K3 w - - 0 1");
    let mut list = MoveList::new();
    b.generate_moves_knight(&mut list);
    assert_eq!(list.end(), 2);
    assert_eq!(list.get(0).unwrap().to, 10);
    assert_eq!(list.get(1).unwrap().to, 17);
    assert_eq!(list.get(2).is_none(), true);
}

#[test]
fn move_list_push_pop() {
    let mut l = MoveList::new();
    assert_eq!(l.end(), 0);
    l.push(Move::new(1, 2, Piece::Rook, None));
    l.push(Move::new(3, 4, Piece::Queen, Some(Piece::Knight)));
    assert_eq!(l.end(), 2);
    let m = l.pop();
    assert_eq!((m.from, m.to, m.piece), (3, 4, Piece::Queen));
    assert_eq!(l.end(), 1);
    l.get(0).unwrap().set_capture(Piece::Pawn);
    assert_eq!(l.get(0).unwrap().capture, Some(Piece::Pawn));
}

#[test]
fn move_builders() {
    let m = Move::new(4, 6, Piece::King, None);
    assert!(!m.is_castle && !m.is_en_passant && m.capture.is_none());
    assert!(m.castle().is_castle);
    assert!(m.en_passant(true).is_en_passant);
    assert!(!m.en_passant(true).en_passant(false).is_en_passant);
    let u = UndoInfo::new(Castling(3), 5, 7);
    assert_eq!((u.prev_castle, u.prev_en_passant, u.prev_half_move), (Castling(3), 5, 7));
}

#[test]
fn castling_rights_operations() {
    let mut c = Castling::new();
    assert_eq!(c.get_side(Side::White), [true, true]);
    c.set_side_zero(Side::White);
    assert_eq!(c, Castling(0b1100));
    assert_eq!(c.get_side(Side::White), [false, false]);
    c.set_zero_from_rook(63);
    assert_eq!(c, Castling(0b1000));
    c.set_zero_from_rook(20);
    assert_eq!(c, Castling(0b1000));
    c.set_zero_from_rook(56);
    assert_eq!(c.get_side(Side::Black), [false, false]);
    assert_eq!(Castling::get_side_mask(Side::White), [0x60, 0xe]);
    assert_eq!(Castling::get_side_mask(Side::Black), [0x6000000000000000, 0xe00000000000000]);
}

#[test]
fn rook_castle_masks_by_king_target() {
    assert_eq!(rook_castle_masks(2), (1, 8));
    assert_eq!(rook_castle_masks(6), (128, 32));
    assert_eq!(rook_castle_masks(58), (0x100000000000000, 0x800000000000000));
    assert_eq!(rook_castle_masks(62), (0x8000000000000000, 0x2000000000000000));
    assert_eq!(rook_castle_masks(4), (0, 0));
}

#[test]
fn piece_indices() {
    assert_eq!(piece_from_index(0), Piece::King);
    assert_eq!(piece_from_index(5), Piece::Pawn);
    assert_eq!(Piece::Bishop.index(), 3);
    assert_eq!(!Side::White, Side::Black);
    assert_eq!(!Side::Black, Side::White);
}

#[test]
fn side_accessors() {
    let mut b = Board::new();
    assert_eq!(b.side_pieces(), b.white);
    assert_eq!(b.opp_pieces(), b.black);
    assert_eq!(b.side_bb(), 65535);
    assert_eq!(b.opp_bb(), 18446462598732840960);
    assert_eq!(*b.get_side(Side::Black), b.black);
    b.side_pieces_mut()[5] = 0;
    assert_eq!(b.white[5], 0);
    *b.opp_bb_mut() = 1;
    assert_eq!(b.black_bb, 1);
    *b.side_bb_mut() = 2;
    assert_eq!(b.white_bb, 2);
    b.opp_pieces_mut()[0] = 3;
    assert_eq!(b.black[0], 3);
}

#[test]
fn divided_perft_from_start() {
    let mut b = Board::new();
    let (total, per_move) = b.perft_divide(2).unwrap();
    assert_eq!(total, 400);
    assert_eq!(per_move.len(), 20);
    assert!(per_move.iter().all(|&(_, c)| c == 20));
    assert_eq!(per_move.iter().map(|&(_, c)| c).sum::<u64>(), total);
    assert_eq!(b, Board::new());
}

#[test]
fn divided_perft_when_the_game_is_over() {
    let mut mated =
        Board::from_fen("rnb1kbnr/pppp1ppp/8/4p3/6Pq/5P2/PPPPP2P/RNBQKBNR w KQkq - 1 3");
    assert!(mated.perft_divide(1).is_none());
    assert_eq!(mated.state, GameState::WhiteCheckmate);
}

#[test]
fn diagram_of_initial_position() {
    let d = Board::new().diagram();
    assert_eq!(d.len(), 64);
    assert_eq!(d[0], (Piece::Rook, Side::White));
    assert_eq!(d[4], (Piece::King, Side::White));
    assert_eq!(d[12], (Piece::Pawn, Side::White));
    assert_eq!(d[27], (Piece::Empty, Side::White));
    assert_eq!(d[59], (Piece::Queen, Side::Black));
    assert_eq!(d[62], (Piece::Knight, Side::Black));
}

#[test]
fn square_names_read_back() {
    for sq in 0..64usize {
        let name = Board::sq_to_notation(sq);
        assert_eq!(name.len(), 2);
        let (from, to) = Board::move_to_sqs(&format!("{}{}", name, name));
        assert_eq!((from, to), (sq, sq));
    }
    assert_eq!(Board::sq_to_notation(0), "a1");
    assert_eq!(Board::sq_to_notation(63), "h8");
    assert_eq!(Board::sq_to_notation(28), "e4");
}

#[test]
fn castling_rights_only_shrink() {
    let mut b = Board::from_fen(KIWIPETE);
    let before = b.castling;
    let mut moves = b.get_all_moves().unwrap();
    for i in 0..moves.end() {
        let m = moves.get(i).unwrap();
        let undo = b.make_move(m);
        assert_eq!(b.castling.0 & !before.0, 0);
        b.unmake_move(m, &undo);
    }
}

#[test]
fn fen_boards_are_consistent() {
    for fen in [START, KIWIPETE, "8/2p5/3p4/KP5r/1R3p1k/8/4P1P1/8 w - - 0 1"] {
        let b = Board::from_fen(fen);
        let w = b.white;
        let k = b.black;
        assert_eq!(w.iter().fold(0, |a, x| a | x), b.white_bb);
        assert_eq!(k.iter().fold(0, |a, x| a | x), b.black_bb);
        assert_eq!(b.white_bb & b.black_bb, 0);
        for i in 0..6 {
            for j in 0..6 {
                if i != j {
                    assert_eq!(w[i] & w[j], 0);
                    assert_eq!(k[i] & k[j], 0);
                }
            }
        }
    }
}

#[test]
fn attacked_squares_are_those_enemy_pieces_attack() {
    for fen in [KIWIPETE, "8/2p5/3p4/KP5r/1R3p1k/8/4P1P1/8 b - - 0 1"] {
        let b = Board::from_fen(fen);
        let enemy = b.opp_pieces();
        let occ = b.white_bb | b.black_bb;
        let enemy_up = b.side == Side::Black;
        for sq in 0..64usize {
            let mut forward = false;
            for from in 0..64usize {
                let at = |bb: u64| bb & (1u64 << from) != 0;
                let hits = |bb: u64| bb & (1u64 << sq) != 0;
                forward |= at(enemy[0]) && hits(king_moves_at(from));
                forward |= at(enemy[4]) && hits(knight_moves_at(from));
                forward |= at(enemy[5]) && hits(pawn_attacks_at(enemy_up, from));
                forward |= (at(enemy[2]) || at(enemy[1])) && hits(rook_slider_attack(occ, from));
                forward |= (at(enemy[3]) || at(enemy[1])) && hits(generate_bishop_sliding(occ, from));
            }
            assert_eq!(b.is_attacked(sq), forward, "square {}", sq);
        }
    }
}
