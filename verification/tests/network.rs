//! The simulated network.
use raft_sim::network::{LatencyModel, Network, NetworkConfig, Routed};
use raft_sim::Rng;

fn rng() -> Rng {
    Rng::new(12345)
}

#[test]
fn a_perfect_network_delivers_everything_on_time() {
    let mut net = Network::new(NetworkConfig::perfect());
    let mut r = rng();
    for tick in 0..1000 {
        assert_eq!(net.route(tick, 0, 1, &mut r), Routed::Once(tick + 10));
    }
    assert_eq!(net.stats().dropped, 0);
    assert_eq!(net.stats().duplicated, 0);
    assert_eq!(net.stats().delivered, 1000);
}

#[test]
fn a_perfect_network_draws_no_randomness() {
    // A knob at zero must be a true no-op, or turning one fault on would
    // shift every other draw and produce a completely different run.
    let mut net = Network::new(NetworkConfig::perfect());
    let mut used = rng();
    for tick in 0..500 {
        net.route(tick, 0, 1, &mut used);
    }
    let mut untouched = rng();
    assert_eq!(used.next_u64(), untouched.next_u64());
}

#[test]
fn drops_happen_at_roughly_the_configured_rate() {
    let cfg = NetworkConfig {
        drop_permille: 100,
        ..NetworkConfig::perfect()
    };
    let mut net = Network::new(cfg);
    let mut r = rng();
    for tick in 0..10_000 {
        net.route(tick, 0, 1, &mut r);
    }
    let dropped = net.stats().dropped;
    assert!(
        (800..1200).contains(&dropped),
        "expected ~1000 drops in 10000, got {dropped}"
    );
}

#[test]
fn duplicates_deliver_the_message_twice() {
    let cfg = NetworkConfig {
        duplicate_permille: 1000,
        ..NetworkConfig::perfect()
    };
    let mut net = Network::new(cfg);
    let mut r = rng();
    assert!(matches!(net.route(0, 0, 1, &mut r), Routed::Twice(_, _)));
    assert_eq!(net.stats().duplicated, 1);
    assert_eq!(net.stats().delivered, 2);
}

#[test]
fn explicit_reordering_makes_a_message_overtake() {
    let cfg = NetworkConfig {
        latency: LatencyModel::Fixed(100),
        reorder_permille: 1000,
        ..NetworkConfig::perfect()
    };
    let mut net = Network::new(cfg);
    let mut r = rng();
    let first = net.route(0, 0, 1, &mut r);
    let second = net.route(0, 0, 1, &mut r);
    match (first, second) {
        (Routed::Once(a), Routed::Once(b)) => {
            assert!(
                b < a,
                "the second message should have overtaken: {b} vs {a}"
            );
        }
        other => panic!("unexpected: {other:?}"),
    }
    assert_eq!(net.stats().reordered, 1);
}

#[test]
fn fixed_latency_alone_never_reorders() {
    let mut net = Network::new(NetworkConfig::perfect());
    let mut r = rng();
    let mut last = 0;
    for tick in 0..500 {
        match net.route(tick, 0, 1, &mut r) {
            Routed::Once(at) => {
                assert!(at >= last);
                last = at;
            }
            other => panic!("unexpected: {other:?}"),
        }
    }
}

#[test]
fn the_long_tail_actually_has_a_tail() {
    let cfg = NetworkConfig {
        latency: LatencyModel::LongTail {
            min: 5,
            max: 20,
            tail_permille: 100,
            tail_multiplier: 20,
        },
        ..NetworkConfig::perfect()
    };
    let mut net = Network::new(cfg);
    let mut r = rng();
    for tick in 0..10_000 {
        net.route(tick, 0, 1, &mut r);
    }
    let stats = net.stats();
    assert!(
        stats.max_delay >= 100,
        "no tail: max delay {}",
        stats.max_delay
    );
    assert!(
        stats.mean_delay() < 40,
        "the tail should be rare, but the mean is {}",
        stats.mean_delay()
    );
}

#[test]
fn routing_is_reproducible() {
    let run = || {
        let mut net = Network::new(NetworkConfig::hostile());
        let mut r = Rng::new(99);
        (0..2000)
            .map(|tick| net.route(tick, tick as u32 % 3, 4, &mut r))
            .collect::<Vec<_>>()
    };
    assert_eq!(run(), run());
}
