use nelfusion::board::bitboard::pop_count;
use nelfusion::board::bitboard::Bitboard;
use nelfusion::movegen::magic::{
    bishop_attacks_slow, bishop_relevant_mask, find_magic, next_subset, rook_attacks_slow,
    rook_relevant_mask, MagicTables, Rng,
};

#[test]
fn test_rook_mask_corner() {
    let mask = rook_relevant_mask(0);
    assert_eq!(pop_count(mask), 12);
}

#[test]
fn test_rook_mask_center() {
    let mask = rook_relevant_mask(28);
    assert_eq!(pop_count(mask), 10);
}

#[test]
fn test_bishop_mask_corner() {
    let mask = bishop_relevant_mask(0);
    assert_eq!(pop_count(mask), 6);
}

#[test]
fn test_bishop_mask_center() {
    let mask = bishop_relevant_mask(28);
    assert_eq!(pop_count(mask), 9);
}

#[test]
fn test_rook_attacks_open_board() {
    let attacks = rook_attacks_slow(0, 0);
    assert_eq!(pop_count(attacks), 14);
}

#[test]
fn test_rook_attacks_blocked() {
    let occ = 1u64 << 24;
    let attacks = rook_attacks_slow(0, occ);
    assert!(attacks & (1u64 << 24) != 0);
    assert!(attacks & (1u64 << 32) == 0);
}

#[test]
fn test_bishop_attacks_open_board() {
    let attacks = bishop_attacks_slow(28, 0);
    assert_eq!(pop_count(attacks), 13);
}

#[test]
fn test_subset_enumeration_count() {
    let mask = rook_relevant_mask(0);
    let mut subset: Bitboard = 0;
    let mut count = 0;
    loop {
        count += 1;
        subset = next_subset(subset, mask);
        if subset == 0 {
            break;
        }
    }
    assert_eq!(count, 1 << 12);
}

#[test]
fn test_find_magic_rook_corner() {
    let mut rng = Rng::new(0x1234567890ABCDEF);
    let mask = rook_relevant_mask(0);
    let magic = find_magic(0, mask, true, &mut rng);
    assert!(magic != 0);
}

#[test]
fn next_subset_walks_in_increasing_order() {
    let mask: Bitboard = 0b1010_0100;
    let mut seen = vec![0u64];
    let mut subset: Bitboard = 0;
    loop {
        subset = next_subset(subset, mask);
        if subset == 0 {
            break;
        }
        seen.push(subset);
    }
    assert_eq!(seen, vec![0, 4, 32, 36, 128, 132, 160, 164]);
}

#[test]
fn rng_first_draws() {
    let mut rng = Rng::new(1);
    let a = rng.next_u64();
    let mut x: u64 = 1;
    x ^= x << 13;
    x ^= x >> 7;
    x ^= x << 17;
    assert_eq!(a, x);
    assert_eq!(a, 0x4_0822_041);
}

#[test]
fn find_magic_maps_equal_slots_to_equal_attacks() {
    let mut rng = Rng::new(0x1234567890ABCDEF);
    let mask = bishop_relevant_mask(27);
    let bits = 64 - mask.count_ones();
    let magic = find_magic(27, mask, false, &mut rng);
    let mut slots = std::collections::HashMap::new();
    let mut subset: Bitboard = 0;
    loop {
        let idx = subset.wrapping_mul(magic) >> bits;
        let attacks = bishop_attacks_slow(27, subset);
        let prev = slots.entry(idx).or_insert(attacks);
        assert_eq!(*prev, attacks);
        subset = next_subset(subset, mask);
        if subset == 0 {
            break;
        }
    }
}

#[test]
fn test_magic_tables_match_slow_attacks() {
    let tables = MagicTables::generate();
    for sq in 0..64 {
        let rook_mask = rook_relevant_mask(sq);
        let mut subset: Bitboard = 0;
        loop {
            let fast = tables.rook_attacks(sq as usize, subset);
            let slow = rook_attacks_slow(sq, subset);
            assert_eq!(fast, slow, "rook mismatch at sq {} occ {:#x}", sq, subset);
            subset = next_subset(subset, rook_mask);
            if subset == 0 {
                break;
            }
        }
        let bishop_mask = bishop_relevant_mask(sq);
        subset = 0;
        loop {
            let fast = tables.bishop_attacks(sq as usize, subset);
            let slow = bishop_attacks_slow(sq, subset);
            assert_eq!(fast, slow, "bishop mismatch at sq {} occ {:#x}", sq, subset);
            subset = next_subset(subset, bishop_mask);
            if subset == 0 {
                break;
            }
        }
    }
}

#[test]
fn magic_lookup_with_blockers_beyond_the_mask() {
    let tables = MagicTables::generate();
    let occ: Bitboard = 0xFFFF_0000_0000_FFFF;
    assert_eq!(tables.rook_attacks(0, occ), rook_attacks_slow(0, occ));
    assert_eq!(tables.bishop_attacks(36, occ), bishop_attacks_slow(36, occ));
}

#[test]
fn masks_and_rays_for_numbers_off_the_board() {
    assert_eq!(bishop_relevant_mask(-3), 0);
    assert_eq!(bishop_relevant_mask(100), 0);
    let expected: Bitboard = 0b0111_1110
        | (1 << 7)
        | (1 << 15)
        | (1 << 23)
        | (1 << 31)
        | (1 << 39)
        | (1 << 47);
    assert_eq!(rook_relevant_mask(-1), expected);
    assert_eq!(rook_attacks_slow(-1, 0), 0xFF);
    let diagonal: Bitboard = [8, 17, 26, 35, 44, 53, 62].iter().fold(0, |b, s| b | (1u64 << s));
    assert_eq!(bishop_attacks_slow(-1, 0), diagonal);
    assert_eq!(rook_attacks_slow(70, 0), 0x4040_4040_4040_4040);
    assert_eq!(bishop_attacks_slow(-100, 0), 0);
}

#[test]
fn generated_tables_have_their_sizes_and_empty_board_slots() {
    let t = MagicTables::generate();
    assert_eq!(t.rook_table.len(), 102_400);
    assert_eq!(t.bishop_table.len(), 5_248);
    assert_eq!(t.rook_table[t.rook_magics[0].offset], 0x0101_0101_0101_01FE);
    assert_eq!(t.bishop_table[t.bishop_magics[28].offset], 0x0182_4428_0028_4482);
    for sq in 0..64i32 {
        assert_eq!(t.rook_table[t.rook_magics[sq as usize].offset], rook_attacks_slow(sq, 0));
        assert_eq!(t.bishop_table[t.bishop_magics[sq as usize].offset], bishop_attacks_slow(sq, 0));
    }
}

#[test]
fn bishop_mask_is_inner_part_of_empty_board_attacks() {
    for sq in 0..64 {
        assert_eq!(bishop_relevant_mask(sq), bishop_attacks_slow(sq, 0) & 0x007E_7E7E_7E7E_7E00);
    }
}
