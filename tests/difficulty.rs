use kale_miner::difficulty::{check_difficulty, count_leading_hex_zeros, has_matching_prefix};

fn naive_count(h: &[u8; 32]) -> usize {
    let mut c = 0;
    for b in h.iter() {
        if b >> 4 != 0 {
            return c;
        }
        c += 1;
        if b & 0x0f != 0 {
            return c;
        }
        c += 1;
    }
    c
}

#[test]
fn counts_nibbles_in_first_word() {
    let mut h = [0xffu8; 32];
    h[0] = 0x00;
    h[1] = 0x00;
    h[2] = 0x0a;
    assert_eq!(count_leading_hex_zeros(&h), 5);
    h[0] = 0x10;
    assert_eq!(count_leading_hex_zeros(&h), 0);
}

#[test]
fn continues_into_later_words() {
    let mut h = [0u8; 32];
    h[8] = 0x01;
    assert_eq!(count_leading_hex_zeros(&h), 17);
    let mut g = [0u8; 32];
    g[17] = 0x20;
    assert_eq!(count_leading_hex_zeros(&g), 34);
    let mut k = [0u8; 32];
    k[31] = 0x01;
    assert_eq!(count_leading_hex_zeros(&k), 63);
}

#[test]
fn all_zero_digest_has_sixty_four_nibbles() {
    assert_eq!(count_leading_hex_zeros(&[0u8; 32]), 64);
    assert!(check_difficulty(&[0u8; 32], 64));
}

#[test]
fn word_count_matches_naive_scan_on_many_digests() {
    // A small linear congruential generator stands in for random digests;
    // some digests get zeroed leading bytes so long runs are exercised too.
    let mut state: u64 = 0x9e37_79b9_7f4a_7c15;
    for round in 0..10_000u32 {
        let mut h = [0u8; 32];
        for b in h.iter_mut() {
            state = state.wrapping_mul(6364136223846793005).wrapping_add(1442695040888963407);
            *b = (state >> 33) as u8;
        }
        let zeroed = (round % 40) as usize;
        for b in h.iter_mut().take(zeroed.min(32)) {
            *b = 0;
        }
        let expected = naive_count(&h);
        assert_eq!(count_leading_hex_zeros(&h), expected);
        let target = (round % 65) as usize;
        assert_eq!(check_difficulty(&h, target), expected >= target);
    }
}

#[test]
fn difficulty_is_at_least_not_equal() {
    let mut h = [0xffu8; 32];
    h[0] = 0x00;
    h[1] = 0x01;
    assert!(check_difficulty(&h, 0));
    assert!(check_difficulty(&h, 2));
    assert!(check_difficulty(&h, 3));
    assert!(!check_difficulty(&h, 4));
}

#[test]
fn bit_prefix_whole_bytes() {
    let h = [0u8, 0, 0, 0, 0xff];
    assert!(has_matching_prefix(&h, 32));
    assert!(!has_matching_prefix(&h, 33));
    assert!(has_matching_prefix(&h, 0));
}

#[test]
fn bit_prefix_partial_byte() {
    let h = [0u8, 0x1f, 0xff];
    assert!(has_matching_prefix(&h, 11));
    assert!(!has_matching_prefix(&h, 12));
    let g = [0x80u8];
    assert!(!has_matching_prefix(&g, 1));
    assert!(has_matching_prefix(&[0u8; 2], 16));
}
