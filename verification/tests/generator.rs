use spore::my_rng::{is_pow_of_two_or_zero, low_u32, Rng};

#[test]
fn first_draws_from_seed_zero() {
    let mut rng = Rng::with_seed(0);
    assert_eq!(rng.next(32), 0);
    assert_eq!(rng.next(32), 4232237);
    assert_eq!(rng.next(32), 178803790);
}

#[test]
fn scrambled_seed_gives_the_classic_first_number() {
    let mut rng = Rng::with_seed(42 ^ 0x5DEECE66D);
    assert_eq!(rng.next(32), 3124862261);
}

#[test]
fn fewer_bits_are_the_top_of_the_same_state() {
    let mut wide = Rng::with_seed(12345);
    let mut narrow = Rng::with_seed(12345);
    for _ in 0..100 {
        let all = wide.next(32);
        let two = narrow.next(2);
        assert_eq!(two, all >> 30);
    }
}

#[test]
fn two_bit_draws_from_a_known_seed() {
    let mut rng = Rng::with_seed(12345);
    let drawn: Vec<u32> = (0..8).map(|_| rng.next(2)).collect();
    assert_eq!(drawn, vec![0, 3, 0, 2, 0, 3, 3, 0]);
}

#[test]
fn one_bit_and_thirty_two_bits_are_accepted() {
    let mut rng = Rng::with_seed(99);
    for _ in 0..1000 {
        assert!(rng.next(1) < 2);
        let _ = rng.next(32);
    }
}

#[test]
fn ranged_draws_from_a_known_seed() {
    let mut rng = Rng::with_seed(42 ^ 0x5DEECE66D);
    let drawn: Vec<u32> = (0..5).map(|_| rng.next_u32_n(100)).collect();
    assert_eq!(drawn, vec![30, 63, 48, 84, 70]);
}

#[test]
fn power_of_two_draws_from_a_known_seed() {
    let mut rng = Rng::with_seed(42 ^ 0x5DEECE66D);
    let drawn: Vec<u32> = (0..5).map(|_| rng.next_u32_n(16)).collect();
    assert_eq!(drawn, vec![11, 0, 10, 0, 4]);
}

#[test]
fn draws_below_one_hundred_and_fifty() {
    let mut rng = Rng::with_seed(12345);
    let drawn: Vec<u32> = (0..6).map(|_| rng.next_u32_n(150)).collect();
    assert_eq!(drawn, vec![87, 15, 147, 18, 34, 112]);
}

#[test]
fn a_biased_draw_is_rejected() {
    // From this seed the first 31-bit draw is 1610751270, which lies in the
    // incomplete last stretch of 1610612736: the second draw is taken.
    let mut rng = Rng::with_seed(8373);
    assert_eq!(rng.next_u32_n(1610612736), 846597809);
    let mut replay = Rng::with_seed(8373);
    assert_eq!(replay.next(31), 1610751270);
    assert_eq!(replay.next(31) % 1610612736, 846597809);
    assert_eq!(rng.next(32), replay.next(32));
}

#[test]
fn ranged_draws_stay_in_range() {
    let bounds: [u32; 7] = [1, 2, 3, 4, 16, 100, 0x7FFF_FFFF];
    for &max in bounds.iter() {
        let mut rng = Rng::with_seed(u64::from(max) * 7919 + 1);
        for _ in 0..20_000 {
            assert!(rng.next_u32_n(max) < max);
        }
    }
}

#[test]
fn power_of_two_bounds_take_one_draw() {
    for &max in [1u32, 2, 4, 16, 0x8000_0000].iter() {
        let mut rng = Rng::with_seed(5);
        let mut replay = Rng::with_seed(5);
        for _ in 0..1000 {
            let drawn = rng.next_u32_n(max);
            let bits = u64::from(replay.next(31));
            assert_eq!(u64::from(drawn), (u64::from(max) * bits) >> 31);
        }
    }
}

#[test]
fn other_bounds_take_the_remainder_of_an_unbiased_draw() {
    for &max in [3u32, 100, 0x7FFF_FFFF].iter() {
        let mut rng = Rng::with_seed(6);
        let mut replay = Rng::with_seed(6);
        for _ in 0..1000 {
            let drawn = rng.next_u32_n(max);
            let mut bits = u64::from(replay.next(31));
            while bits - bits % u64::from(max) + u64::from(max) > 0x7FFF_FFFF {
                bits = u64::from(replay.next(31));
            }
            assert_eq!(u64::from(drawn), bits % u64::from(max));
        }
    }
}

#[test]
fn a_bound_of_zero_draws_zero() {
    let mut rng = Rng::with_seed(1);
    let mut replay = Rng::with_seed(1);
    for _ in 0..100 {
        assert_eq!(rng.next_u32_n(0), 0);
        let _ = replay.next(31);
    }
    assert_eq!(rng.next(32), replay.next(32));
}

#[test]
fn a_bound_of_one_draws_zero() {
    let mut rng = Rng::with_seed(123);
    for _ in 0..100 {
        assert_eq!(rng.next_u32_n(1), 0);
    }
}

#[test]
fn powers_of_two_are_told_apart() {
    assert!(is_pow_of_two_or_zero(0));
    assert!(is_pow_of_two_or_zero(1));
    assert!(is_pow_of_two_or_zero(2));
    assert!(!is_pow_of_two_or_zero(3));
    assert!(is_pow_of_two_or_zero(4));
    assert!(!is_pow_of_two_or_zero(100));
    assert!(is_pow_of_two_or_zero(0x8000_0000));
    assert!(!is_pow_of_two_or_zero(0x7FFF_FFFF));
    assert!(!is_pow_of_two_or_zero(u32::MAX));
    for shift in 0..32 {
        assert!(is_pow_of_two_or_zero(1u32 << shift));
    }
}

#[test]
fn low_bits_of_a_length() {
    assert_eq!(low_u32(0), 0);
    assert_eq!(low_u32(17), 17);
    assert_eq!(low_u32(0xFFFF_FFFF), 0xFFFF_FFFF);
    if usize::BITS > 32 {
        let wide: u64 = 0x1_0000_0005;
        assert_eq!(low_u32(wide as usize), 5);
    }
}

#[test]
fn nanoseconds_are_cut_to_sixty_four_bits() {
    let mut cut = Rng::from_nanos((7u128 << 64) + 12345);
    let mut plain = Rng::with_seed(12345);
    for _ in 0..10 {
        assert_eq!(cut.next(32), plain.next(32));
    }
}

#[test]
fn a_clock_seeded_generator_draws_in_range() {
    let mut rng = Rng::seeded();
    for _ in 0..1000 {
        assert!(rng.next_u32_n(10) < 10);
        assert!(rng.next(2) < 4);
    }
}

#[test]
fn equal_seeds_give_equal_streams() {
    let mut one = Rng::with_seed(31337);
    let mut two = Rng::with_seed(31337);
    for _ in 0..1000 {
        assert_eq!(one.next_u32_n(1000), two.next_u32_n(1000));
    }
}

#[test]
fn a_reading_of_the_clock_seeds_with_its_low_bits() {
    let mut read = Rng::from_reading(Some((3u128 << 64) + 42));
    let mut plain = Rng::with_seed(42);
    for _ in 0..10 {
        assert_eq!(read.next(32), plain.next(32));
    }
}

#[test]
fn a_clock_before_the_epoch_seeds_with_zero() {
    let mut read = Rng::from_reading(None);
    assert_eq!(read.next(32), 0);
    assert_eq!(read.next(32), 4232237);
    assert_eq!(read.next(32), 178803790);
}
