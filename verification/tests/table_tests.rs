use cortado::attacks::{
    compute_king_moves, compute_knight_moves, compute_pawn_attacks, king_moves_at, knight_moves_at,
    pawn_attacks_at,
};
use cortado::magic_table::{
    bishop_masks, col_masks, generate_bishop_magic_table, generate_bishop_sliding,
    generate_rook_magic_table, rook_masks, rook_slider_attack, row_masks, Magic, Rand,
};

#[test]
fn leaper_tables() {
    assert_eq!(knight_moves_at(0), (1 << 10) | (1 << 17));
    assert_eq!(knight_moves_at(63), (1 << 53) | (1 << 46));
    assert_eq!(king_moves_at(0), (1 << 1) | (1 << 8) | (1 << 9));
    assert_eq!(king_moves_at(27).count_ones(), 8);
    assert_eq!(pawn_attacks_at(true, 8), 1 << 17);
    assert_eq!(pawn_attacks_at(false, 12), (1 << 3) | (1 << 5));
    assert_eq!(pawn_attacks_at(true, 60), 0);
    let knights = compute_knight_moves();
    let kings = compute_king_moves();
    let pawns = compute_pawn_attacks();
    for sq in 0..64 {
        assert_eq!(knights[sq], knight_moves_at(sq));
        assert_eq!(kings[sq], king_moves_at(sq));
        assert_eq!(pawns[0][sq], pawn_attacks_at(true, sq));
        assert_eq!(pawns[1][sq], pawn_attacks_at(false, sq));
    }
}

#[test]
fn slider_rays() {
    assert_eq!(rook_slider_attack(0, 0), 0x01010101010101fe);
    assert_eq!(rook_slider_attack(1 << 16, 0), 0x1_01fe);
    assert_eq!(generate_bishop_sliding(0, 0), 0x8040201008040200);
    assert_eq!(generate_bishop_sliding(1 << 18, 0), (1 << 9) | (1 << 18));
    assert_eq!(generate_bishop_sliding(0, 27).count_ones(), 13);
}

#[test]
fn masks() {
    let rows = row_masks();
    let cols = col_masks();
    assert_eq!(rows[0], 0xff);
    assert_eq!(rows[7], 0xff00000000000000);
    assert_eq!(cols[0], 0x0101010101010101);
    assert_eq!(cols[7], 0x8080808080808080);
    let rm = rook_masks();
    let bm = bishop_masks();
    assert_eq!(rm[0], 0x000101010101017e);
    assert_eq!(rm[0].count_ones(), 12);
    assert_eq!(rm[27].count_ones(), 10);
    assert_eq!(bm[0], 0x0040201008040200);
    assert_eq!(bm[27].count_ones(), 9);
    for sq in 0..64 {
        assert!(rm[sq].count_ones() <= 12);
        assert!(bm[sq].count_ones() <= 9);
    }
}

#[test]
fn xorshift_sequence() {
    let mut r = Rand::new();
    assert_eq!(r.rand(), 0x2c4d0f0f0f0f0b23);
    assert_eq!(r.rand(), 0x1a41515545400355);
    let mut s = Rand::new();
    assert_eq!(s.sparse_rand(), 0x40010101000001);
    s.set_seed(42);
    assert_eq!(s.rand(), 0xac1fea);
}

#[test]
fn magic_lookup_and_index() {
    let m = Magic::new(0b110, 62, 1, vec![10, 11, 12, 13]);
    assert_eq!(m.get_index(0b100), 0);
    assert_eq!(m.get_index(u64::MAX), 3);
    assert_eq!(m.get(u64::MAX), 10);
}

#[test]
fn bishop_magics_match_ray_walk() {
    let table = generate_bishop_magic_table().unwrap();
    assert_eq!(table.len(), 64);
    let occupancies = [0u64, 0xffff00000000ffff, 0x0000_1818_1818_0000, 0x1234_5678_9abc_def0];
    for sq in 0..64 {
        assert_eq!(table[sq].entries.len(), 512);
        for occ in occupancies {
            assert_eq!(table[sq].get(occ), generate_bishop_sliding(occ, sq));
        }
    }
}

#[test]
fn rook_magics_match_ray_walk() {
    let table = generate_rook_magic_table().unwrap();
    assert_eq!(table.len(), 64);
    let occupancies = [0u64, 0xffff00000000ffff, 0x0000_1818_1818_0000, 0x1234_5678_9abc_def0];
    for sq in 0..64 {
        assert_eq!(table[sq].entries.len(), 4096);
        for occ in occupancies {
            assert_eq!(table[sq].get(occ), rook_slider_attack(occ, sq));
        }
    }
}

#[test]
fn magic_table_sized_for_its_mask() {
    let m = Magic::new(0, 63, 0x1234_5678, vec![42]);
    assert_eq!(m.get(0), 42);
    assert_eq!(m.get(u64::MAX), 42);
    assert_eq!(m.get(0x00ff_0000_0000_ff00), m.get(0));
}
