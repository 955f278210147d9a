use velo::rng::SplitMix64;

#[test]
fn is_deterministic_for_a_seed() {
    let mut a = SplitMix64::new(42);
    let mut b = SplitMix64::new(42);
    for _ in 0..1000 {
        assert_eq!(a.next_u64(), b.next_u64());
    }
}

#[test]
fn f32_stays_in_unit_range() {
    let mut rng = SplitMix64::new(7);
    for _ in 0..10_000 {
        let x = f32::from_bits(rng.next_f32().to_bits());
        assert!((0.0..1.0).contains(&x));
    }
}

#[test]
fn f64_open_is_never_zero() {
    let mut rng = SplitMix64::new(9);
    for _ in 0..100_000 {
        let x = f64::from_bits(rng.next_f64_open().to_bits());
        assert!(x > 0.0 && x < 1.0);
    }
}

#[test]
fn known_values_of_seed_zero() {
    let mut rng = SplitMix64::new(0);
    assert_eq!(rng.next_u64(), 0xE220_A839_7B1D_CDAF);
    assert_eq!(rng.next_u64(), 0x6E78_9E6A_A1B9_65F4);
}

#[test]
fn floats_are_the_scaled_bits() {
    let mut raw = SplitMix64::new(3);
    let mut singles = SplitMix64::new(3);
    let mut doubles = SplitMix64::new(3);
    for _ in 0..10_000 {
        let bits = raw.next_u64();
        let single = (bits >> 40) as f32 / (1u32 << 24) as f32;
        let double = ((bits >> 11) as f64 + 0.5) / (1u64 << 53) as f64;
        assert_eq!(singles.next_f32().to_bits(), single.to_bits());
        assert_eq!(doubles.next_f64_open().to_bits(), double.to_bits());
    }
}

#[test]
fn extreme_draws_stay_inside_the_unit_interval() {
    // The seed whose first draw has all of its upper bits set.
    let mut high = SplitMix64::new(0xF56E_309E_96A0_4737);
    let x = f64::from_bits(high.next_f64_open().to_bits());
    assert!(x < 1.0);
    assert_eq!(x.to_bits(), 1.0f64.to_bits() - 1);

    // The seed whose first draw is zero.
    let mut low = SplitMix64::new(0x61C8_8646_80B5_83EB);
    let y = f64::from_bits(low.next_f64_open().to_bits());
    assert_eq!(y, 0.5 / (1u64 << 53) as f64);

    let mut zero = SplitMix64::new(0x61C8_8646_80B5_83EB);
    assert_eq!(f32::from_bits(zero.next_f32().to_bits()), 0.0);
}

#[test]
fn copied_generator_continues_alike() {
    let mut rng = SplitMix64::new(3);
    rng.next_u64();
    let mut copy = rng.clone();
    for _ in 0..100 {
        assert_eq!(copy.next_u64(), rng.next_u64());
    }
}

#[test]
fn different_states_draw_different_values() {
    let mut drawn: Vec<u64> = (0..10_000u64).map(|seed| SplitMix64::new(seed).next_u64()).collect();
    drawn.sort();
    drawn.dedup();
    assert_eq!(drawn.len(), 10_000);
}
