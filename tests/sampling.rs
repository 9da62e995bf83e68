use corvic_engine::rng::{next_random, random_word, LCG_MASK};
use corvic_engine::sampling::draw_negatives;
use corvic_engine::search::bisect_left;

fn wide_step(s: u64) -> u64 {
    ((s as u128 * 25214903917u128 + 11) % (1u128 << 48)) as u64
}

#[test]
fn next_random_from_seed_one() {
    assert_eq!(next_random(1), 25214903928);
    assert_eq!(next_random(1), 25214903928 & 0xFFFF_FFFF_FFFF);
}

#[test]
fn next_random_wraps_and_masks() {
    assert_eq!(next_random(u64::MAX), 281449761806750);
    assert_eq!(next_random(u64::MAX), wide_step(u64::MAX));
    assert_eq!(next_random(0), 11);
    assert!(next_random(0xDEAD_BEEF_CAFE_F00D) <= LCG_MASK);
}

#[test]
fn next_random_sequence_is_reproducible() {
    let mut a = 1u64;
    let mut b = 1u64;
    for _ in 0..1000 {
        a = next_random(a);
        b = wide_step(b);
        assert_eq!(a, b);
    }
    let mut c = 1u64;
    for _ in 0..1000 {
        c = next_random(c);
    }
    assert_eq!(a, c);
    assert_eq!(next_random(next_random(1)), 206026503483683);
}

#[test]
fn random_word_takes_bits_sixteen_to_forty_seven() {
    assert_eq!(random_word(0xABCD_1234_5678), 0xABCD_1234);
    assert_eq!(random_word(0xFFFF), 0);
    assert_eq!(random_word(0x1_0000), 1);
}

#[test]
fn bisect_left_on_sorted_table() {
    let a = [1u32, 3, 3, 5, 7];
    let expected = [(0u32, 0usize), (1, 0), (2, 1), (3, 1), (4, 3), (5, 3), (6, 4), (7, 4), (8, 5)];
    for (x, want) in expected {
        assert_eq!(bisect_left(&a, x, 0, a.len()), want, "query {}", x);
    }
}

#[test]
fn bisect_left_within_a_sub_range() {
    let a = [1u32, 3, 3, 5, 7];
    assert_eq!(bisect_left(&a, 0, 2, 4), 2);
    assert_eq!(bisect_left(&a, 4, 2, 4), 3);
    assert_eq!(bisect_left(&a, 9, 2, 4), 4);
    assert_eq!(bisect_left(&a, 3, 3, 3), 3);
    assert_eq!(bisect_left(&[], 3, 0, 0), 0);
}

#[test]
fn bisect_left_with_equal_keys_goes_left() {
    let a = [2u32, 2, 2, 2];
    assert_eq!(bisect_left(&a, 2, 0, 4), 0);
    assert_eq!(bisect_left(&a, 3, 0, 4), 4);
}

#[test]
fn draw_negatives_drops_collisions_and_steps_per_draw() {
    let cum = [5u32, 10, 40, 100];
    let (kept, state) = draw_negatives(6, &cum, 3, 7);
    assert_eq!(kept, vec![0, 2]);
    assert_eq!(state, 291863510317);
    let mut s = 7u64;
    for _ in 0..6 {
        s = wide_step(s);
    }
    assert_eq!(state, s);
}

#[test]
fn draw_negatives_without_collisions_keeps_every_draw() {
    let cum = [5u32, 10, 40, 100];
    let (kept, state) = draw_negatives(6, &cum, 1, 7);
    assert_eq!(kept, vec![0, 3, 3, 2, 3, 3]);
    assert_eq!(state, 291863510317);
}

#[test]
fn draw_negatives_zero_draws_keep_the_state() {
    let (kept, state) = draw_negatives(0, &[], 0, 99);
    assert!(kept.is_empty());
    assert_eq!(state, 99);
}
