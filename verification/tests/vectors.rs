use pcg32::lcg::{advance_state, permute, MULTIPLIER};
use pcg32::{pcg32_boundedrand_r, pcg32_random_r, pcg32_srandom_r, Pcg32Random};

#[test]
fn seed_42_54_first_six_draws() {
    let mut rng = Pcg32Random::new(42, 54);
    let expected: [u32; 6] = [
        0xa15c02b7, 0x7b47f409, 0xba1d3330, 0x83d2f293, 0xbfa4784b, 0xcbed606e,
    ];
    for want in expected {
        assert_eq!(pcg32_random_r(&mut rng), want);
    }
}

#[test]
fn seed_42_54_coins_and_rolls() {
    let mut rng = Pcg32Random::new(42, 54);
    for _ in 0..6 {
        pcg32_random_r(&mut rng);
    }
    let mut coins = String::new();
    for _ in 0..65 {
        coins.push(if pcg32_boundedrand_r(&mut rng, 2) == 1 { 'H' } else { 'T' });
    }
    assert_eq!(coins, "HHTTTHTHHHTHTTTHHHHHTTTHHHTHTHTHTTHTTTHHHHHHTTTTHHTTTTTHTTTTTTTHT");
    let rolls: Vec<u32> = (0..33).map(|_| pcg32_boundedrand_r(&mut rng, 6) + 1).collect();
    assert_eq!(
        rolls,
        vec![
            3, 4, 1, 1, 2, 2, 3, 2, 4, 3, 2, 4, 3, 3, 5, 2, 3, 1, 3, 1, 5, 1, 4, 1, 5, 6, 4, 6,
            6, 2, 6, 3, 3
        ]
    );
}

#[test]
fn seed_42_54_fields_after_seeding() {
    let rng = Pcg32Random::new(42, 54);
    assert_eq!(rng.state(), 0x185706b82c2e03f8);
    assert_eq!(rng.increment(), 109);
}

#[test]
fn seed_zero_zero_first_draw() {
    let mut rng = Pcg32Random::new(0, 0);
    assert_eq!(rng.increment(), 1);
    assert_eq!(rng.state(), 6364136223846793006);
    assert_eq!(pcg32_random_r(&mut rng), 0xe4c14788);
    assert_eq!(pcg32_random_r(&mut rng), 0x379c6516);
    assert_eq!(pcg32_random_r(&mut rng), 0x5c4ab3bb);
    assert_eq!(pcg32_random_r(&mut rng), 0x601d23e0);
}

#[test]
fn seeding_overwrites_whatever_was_there() {
    let mut rng = Pcg32Random::new(1234, 5678);
    for _ in 0..10 {
        pcg32_random_r(&mut rng);
    }
    pcg32_srandom_r(&mut rng, 42, 54);
    assert_eq!(rng.state(), 0x185706b82c2e03f8);
    assert_eq!(rng.increment(), 109);
    assert_eq!(pcg32_random_r(&mut rng), 0xa15c02b7);
}

#[test]
fn seeding_wraps_at_the_largest_inputs() {
    let mut rng = Pcg32Random::new(u64::MAX, u64::MAX);
    assert_eq!(rng.state(), 0x4f5c17a566d501a5);
    assert_eq!(rng.increment(), u64::MAX);
    assert_eq!(pcg32_random_r(&mut rng), 0x2675c047);
    assert_eq!(pcg32_random_r(&mut rng), 0x7779a837);
    assert_eq!(pcg32_random_r(&mut rng), 0xa145aa13);
}

#[test]
fn draw_advances_the_accumulator_and_keeps_the_increment() {
    let mut rng = Pcg32Random::new(42, 54);
    pcg32_random_r(&mut rng);
    assert_eq!(rng.state(), 0x2b47fed88766bb05);
    assert_eq!(rng.increment(), 109);
    pcg32_random_r(&mut rng);
    assert_eq!(rng.state(), 0x8b33296d19bf5b4e);
    pcg32_random_r(&mut rng);
    assert_eq!(rng.state(), 0xf7079824c154bf23);
    assert_eq!(rng.increment(), 109);
}

#[test]
fn default_generator_has_the_fixed_constants() {
    let mut rng = Pcg32Random::default();
    assert_eq!(rng.state(), 0x853c49e6748fea9b);
    assert_eq!(rng.increment(), 0xda3e39cb94b95bdb);
    assert_eq!(pcg32_random_r(&mut rng), 0x152ca78d);
    assert_eq!(rng.state(), 0xc83015ca079f7e1a);
    assert_eq!(pcg32_random_r(&mut rng), 0x027c6003);
    assert_eq!(pcg32_random_r(&mut rng), 0xcb07bbf3);
    assert_eq!(pcg32_random_r(&mut rng), 0xf98befee);
}

#[test]
fn step_is_multiply_add_modulo_two_to_the_64() {
    assert_eq!(MULTIPLIER, 6364136223846793005);
    assert_eq!(advance_state(0, 1), 1);
    assert_eq!(advance_state(1, 1), 6364136223846793006);
    assert_eq!(advance_state(0x185706b82c2e03f8, 0x6d), 0x2b47fed88766bb05);
    assert_eq!(advance_state(u64::MAX, 0), 0xa7ae0bd2b36a80d3);
    assert_eq!(advance_state(u64::MAX, u64::MAX), 0xa7ae0bd2b36a80d2);
    assert_eq!(advance_state(u64::MAX, 1), 0xa7ae0bd2b36a80d4);
}

#[test]
fn permutation_of_chosen_accumulators() {
    assert_eq!(permute(0), 0);
    assert_eq!(permute(0x185706b82c2e03f8), 0xa15c02b7);
    assert_eq!(permute(6364136223846793006), 0xe4c14788);
    // Top five bits zero: no rotation, the xorshifted value passes through.
    assert_eq!(permute(1 << 58), 0x80002000);
    // Top five bits all set: rotation by 31.
    assert_eq!(permute(u64::MAX), 0xfff00001);
}

#[test]
fn from_parts_takes_odd_increments_only() {
    let mut rng = Pcg32Random::from_parts(0x185706b82c2e03f8, 109).expect("odd increment");
    assert_eq!(rng.state(), 0x185706b82c2e03f8);
    assert_eq!(rng.increment(), 109);
    assert_eq!(pcg32_random_r(&mut rng), 0xa15c02b7);
    assert!(Pcg32Random::from_parts(0x185706b82c2e03f8, 108).is_none());
    assert!(Pcg32Random::from_parts(0, 0).is_none());
    assert!(Pcg32Random::from_parts(0, u64::MAX).is_some());
}

#[test]
fn fields_round_trip_through_from_parts() {
    let mut first = Pcg32Random::new(2024, 11);
    for _ in 0..5 {
        pcg32_random_r(&mut first);
    }
    let mut copy = Pcg32Random::from_parts(first.state(), first.increment()).unwrap();
    for _ in 0..50 {
        assert_eq!(pcg32_random_r(&mut first), pcg32_random_r(&mut copy));
    }
}
