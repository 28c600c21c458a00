// The library's generator must match the reference xoshiro256++ stream.

use patron::random::{sample_k_max, RandomOptions};
use patron::rng::Xoshiro256;
use rand::Rng;
use rand::SeedableRng;
use rand_xoshiro::Xoshiro256PlusPlus;

#[test]
fn rng_matches_reference_stream() {
    for seed in [0u64, 1, 42, 0xdead_beef, u64::MAX] {
        let mut ours = Xoshiro256::seed_from_u64(seed);
        let mut reference = Xoshiro256PlusPlus::seed_from_u64(seed);
        for _ in 0..1000 {
            assert_eq!(ours.next_u64(), reference.next_u64());
        }
    }
}

#[test]
fn rng_in_range_stays_in_bounds() {
    let mut rng = Xoshiro256::seed_from_u64(7);
    for _ in 0..1000 {
        let v = rng.next_in_range(3, 17);
        assert!((3..=17).contains(&v));
    }
    let mut rng = Xoshiro256::seed_from_u64(8);
    let v = rng.next_in_range(5, 5);
    assert_eq!(v, 5);
}

#[test]
fn rng_is_deterministic_per_seed() {
    let mut a = Xoshiro256::seed_from_u64(123);
    let mut b = Xoshiro256::seed_from_u64(123);
    for _ in 0..100 {
        assert_eq!(a.next_u64(), b.next_u64());
    }
}

#[test]
fn episode_bound_sampling_ranges() {
    // probability zero: always the small range
    let mut rng = Xoshiro256::seed_from_u64(11);
    let small = RandomOptions { small_k: 50, large_k: 1_000, large_k_prob: 0, max_cycles: None };
    for _ in 0..200 {
        let k = sample_k_max(&mut rng, &small);
        assert!((1..=50).contains(&k));
    }
    // maximal probability: always the large range
    let mut rng = Xoshiro256::seed_from_u64(11);
    let large = RandomOptions {
        small_k: 50,
        large_k: 1_000,
        large_k_prob: u64::MAX,
        max_cycles: None,
    };
    let mut seen_above_small = false;
    for _ in 0..200 {
        let k = sample_k_max(&mut rng, &large);
        assert!((50..=1_000).contains(&k));
        if k > 50 {
            seen_above_small = true;
        }
    }
    assert!(seen_above_small);
}
