use pcg32::{pcg32_boundedrand_r, pcg32_random_r, pcg32_srandom_r, Pcg32Random};

#[test]
fn equal_seeds_give_equal_sequences() {
    let seeds: [(u64, u64); 5] =
        [(0, 0), (42, 54), (u64::MAX, u64::MAX), (1, u64::MAX), (0xdead_beef, 0x1234_5678_9abc)];
    for (initstate, initseq) in seeds {
        let mut a = Pcg32Random::new(initstate, initseq);
        let mut b = Pcg32Random::default();
        pcg32_random_r(&mut b);
        pcg32_srandom_r(&mut b, initstate, initseq);
        for _ in 0..1000 {
            assert_eq!(pcg32_random_r(&mut a), pcg32_random_r(&mut b));
            assert_eq!(a.state(), b.state());
            assert_eq!(a.increment(), b.increment());
        }
    }
}

#[test]
fn distinct_selectors_give_distinct_sequences() {
    let mut a = Pcg32Random::new(42, 54);
    let mut b = Pcg32Random::new(42, 55);
    let first: Vec<u32> = (0..100).map(|_| pcg32_random_r(&mut a)).collect();
    let second: Vec<u32> = (0..100).map(|_| pcg32_random_r(&mut b)).collect();
    assert_ne!(first, second);
    assert_ne!(first[0], second[0]);
    let agreeing = first.iter().zip(second.iter()).filter(|(x, y)| x == y).count();
    assert_eq!(agreeing, 0);
}

#[test]
fn distinct_selectors_show_no_bitwise_correlation() {
    // Each bit of the xor of two streams should be set about half the time.
    let mut a = Pcg32Random::new(42, 54);
    let mut b = Pcg32Random::new(42, 55);
    let samples = 100_000;
    let mut ones = [0u32; 32];
    for _ in 0..samples {
        let x = pcg32_random_r(&mut a) ^ pcg32_random_r(&mut b);
        for (bit, count) in ones.iter_mut().enumerate() {
            *count += (x >> bit) & 1;
        }
    }
    for count in ones {
        assert!(49_000 < count && count < 51_000);
    }
}

#[test]
fn increments_half_the_modulus_apart_differ_at_the_second_draw() {
    // Selectors 0 and 2^62 stand for increments 1 and 2^63 + 1. The seeded
    // accumulators coincide, so the first draws agree; one step later the
    // accumulators are 2^63 apart and the draws differ.
    let mut a = Pcg32Random::new(7, 0);
    let mut b = Pcg32Random::new(7, 1 << 62);
    assert_eq!(a.increment(), 1);
    assert_eq!(b.increment(), (1 << 63) + 1);
    assert_eq!(a.state(), b.state());
    assert_eq!(pcg32_random_r(&mut a), 4063834449);
    assert_eq!(pcg32_random_r(&mut b), 4063834449);
    assert_eq!(a.state() ^ b.state(), 1 << 63);
    assert_eq!(pcg32_random_r(&mut a), 2143014202);
    assert_eq!(pcg32_random_r(&mut b), 3443195835);
}

#[test]
fn selectors_that_differ_in_the_top_bit_select_one_stream() {
    let mut a = Pcg32Random::new(42, 0);
    let mut b = Pcg32Random::new(42, 1 << 63);
    assert_eq!(a.increment(), b.increment());
    assert_eq!(a.state(), b.state());
    for _ in 0..100 {
        assert_eq!(pcg32_random_r(&mut a), pcg32_random_r(&mut b));
    }
}

#[test]
fn increment_is_odd_after_every_call() {
    let selectors: [u64; 6] = [0, 1, 2, 54, 1 << 63, u64::MAX];
    let bounds: [u32; 7] = [0, 1, 2, 3, 7, 100, 1 << 31];
    let mut rng = Pcg32Random::default();
    assert_eq!(rng.increment() % 2, 1);
    for initseq in selectors {
        pcg32_srandom_r(&mut rng, initseq.wrapping_mul(31), initseq);
        assert_eq!(rng.increment(), (initseq << 1) | 1);
        for round in 0..50 {
            pcg32_random_r(&mut rng);
            assert_eq!(rng.increment() % 2, 1);
            pcg32_boundedrand_r(&mut rng, bounds[round % bounds.len()]);
            assert_eq!(rng.increment() % 2, 1);
            assert_eq!(rng.increment(), (initseq << 1) | 1);
        }
    }
}

#[test]
fn state_advance_wraps_for_large_accumulators() {
    let states: [u64; 4] = [u64::MAX, u64::MAX - 1, 1 << 63, 0xffff_ffff_0000_0000];
    for state in states {
        let mut rng = Pcg32Random::from_parts(state, u64::MAX).unwrap();
        pcg32_random_r(&mut rng);
        let expected = state.wrapping_mul(6364136223846793005).wrapping_add(u64::MAX);
        assert_eq!(rng.state(), expected);
    }
    let mut rng = Pcg32Random::from_parts(u64::MAX, u64::MAX).unwrap();
    pcg32_random_r(&mut rng);
    assert_eq!(rng.state(), 0xa7ae0bd2b36a80d2);
}

#[test]
fn draws_cover_the_whole_32_bit_range() {
    // Over many draws every output bit is seen both set and clear, and each
    // is set about half the time.
    let mut rng = Pcg32Random::new(42, 54);
    let samples = 100_000;
    let mut ones = [0u32; 32];
    for _ in 0..samples {
        let x = pcg32_random_r(&mut rng);
        for (bit, count) in ones.iter_mut().enumerate() {
            *count += (x >> bit) & 1;
        }
    }
    for count in ones {
        assert!(49_000 < count && count < 51_000);
    }
}
