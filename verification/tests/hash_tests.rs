use karang_lestari::hash::{mix, MIX_MULTIPLIER, REGION_SALT};

#[test]
fn mix_is_deterministic() {
    assert_eq!(mix(3, -7, 42), mix(3, -7, 42));
    assert_eq!(mix(0, 0, 0), mix(0, 0, 0));
}

#[test]
fn mix_matches_the_multiply_rotate_xor_recipe() {
    let x: i32 = -5;
    let y: i32 = 11;
    let salt: u64 = 42;
    let h1 = salt.wrapping_add(x as u64).wrapping_mul(MIX_MULTIPLIER);
    let h2 = (h1.rotate_left(31) ^ (y as u64)).wrapping_mul(MIX_MULTIPLIER);
    let expected = h2.rotate_left(31);
    assert_eq!(mix(x, y, salt), expected);
}

#[test]
fn mix_separates_nearby_cells() {
    // Small input changes flip many output bits.
    let base = mix(10, 10, 7);
    for &(dx, dy) in &[(1, 0), (0, 1), (1, 1), (-1, 0)] {
        let other = mix(10 + dx, 10 + dy, 7);
        let flipped = (base ^ other).count_ones();
        assert!(flipped >= 10, "only {flipped} bits flipped");
    }
}

#[test]
fn region_salt_decorrelates_draws() {
    assert_ne!(mix(4, 2, 9), mix(4, 2, 9 ^ REGION_SALT));
}
