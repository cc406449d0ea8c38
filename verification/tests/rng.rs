use grayscott_wasm::rng::SplitMix64;

#[test]
fn seed_zero_gives_the_reference_sequence() {
    let mut rng = SplitMix64::new(0);
    assert_eq!(rng.next_u64(), 0xe220_a839_7b1d_cdaf);
    assert_eq!(rng.next_u64(), 0x6e78_9e6a_a1b9_65f4);
    assert_eq!(rng.next_u64(), 0x06c4_5d18_8009_454f);
}

#[test]
fn same_seed_same_draws() {
    let mut first = SplitMix64::new(42);
    let mut second = SplitMix64::new(42);
    for _ in 0..100 {
        assert_eq!(first.next_u64(), second.next_u64());
    }
}

#[test]
fn draws_from_seed_42() {
    let mut rng = SplitMix64::new(42);
    assert_eq!(rng.next_u64(), 0xbdd7_3226_2feb_6e95);
    assert_eq!(rng.next_u64(), 0x28ef_e333_b266_f103);
}

#[test]
fn next_u24_keeps_the_top_24_bits() {
    let mut rng = SplitMix64::new(42);
    assert_eq!(rng.next_u24(), 12_441_394);
    assert_eq!(rng.next_u24(), 2_682_851);
    assert_eq!(rng.next_u24(), 4_674_151);
    let mut other = SplitMix64::new(7);
    for _ in 0..1000 {
        assert!(other.next_u24() < (1 << 24));
    }
}

#[test]
fn state_walks_an_arithmetic_progression() {
    // After five draws from seed 42 the state is 42 + 5 * gamma (mod 2^64),
    // so a generator seeded there continues the same sequence.
    let mut rng = SplitMix64::new(42);
    for _ in 0..5 {
        rng.next_u64();
    }
    let mut resumed = SplitMix64::new(0x1715_609f_7c74_6c93);
    assert_eq!(rng.next_u64(), resumed.next_u64());
}

#[test]
fn distinct_seeds_give_distinct_first_draws() {
    let mut seen = std::collections::HashSet::new();
    for seed in 0..2000u64 {
        assert!(seen.insert(SplitMix64::new(seed).next_u64()));
    }
    for seed in [u64::MAX, u64::MAX - 1, 1 << 63] {
        assert!(seen.insert(SplitMix64::new(seed).next_u64()));
    }
}
