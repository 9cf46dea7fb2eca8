//! The random number generator.
use raft_sim::Rng;

#[test]
fn same_seed_same_stream() {
    let mut a = Rng::new(42);
    let mut b = Rng::new(42);
    for _ in 0..1000 {
        assert_eq!(a.next_u64(), b.next_u64());
    }
}

#[test]
fn different_seeds_diverge() {
    let mut a = Rng::new(1);
    let mut b = Rng::new(2);
    assert_ne!(a.next_u64(), b.next_u64());
}

#[test]
fn derived_streams_are_independent() {
    let mut a = Rng::derive(7, 0);
    let mut b = Rng::derive(7, 1);
    let xs: Vec<u64> = (0..8).map(|_| a.next_u64()).collect();
    let ys: Vec<u64> = (0..8).map(|_| b.next_u64()).collect();
    assert_ne!(xs, ys);
}

#[test]
fn gen_range_stays_in_bounds() {
    let mut r = Rng::new(0xDEAD_BEEF);
    for _ in 0..10_000 {
        let v = r.gen_range(150, 300);
        assert!((150..300).contains(&v));
    }
}

/// Golden values. If this test ever fails, the PRNG changed and every
/// recorded seed in the repo now means something different.
#[test]
fn stream_is_pinned() {
    let mut r = Rng::new(0);
    let got: Vec<u64> = (0..4).map(|_| r.next_u64()).collect();
    assert_eq!(
        got,
        vec![
            0xE220A8397B1DCDAF,
            0x6E789E6AA1B965F4,
            0x06C45D188009454F,
            0xF88BB8A8724C81EC,
        ]
    );
}
