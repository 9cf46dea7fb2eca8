//! Client workloads.
use raft_sim::kv::KvCommand;
use raft_sim::workload::{Workload, WorkloadConfig};

#[test]
fn the_same_seed_generates_the_same_requests() {
    let gen = || {
        let mut w = Workload::new(9, WorkloadConfig::default());
        (0..200).map(|_| w.next_request()).collect::<Vec<_>>()
    };
    assert_eq!(gen(), gen());
}

#[test]
fn sequence_numbers_are_per_client_and_monotonic() {
    let mut w = Workload::new(1, WorkloadConfig::default());
    let mut expected = [0u64; 3];
    for _ in 0..300 {
        let r = w.next_request();
        assert_eq!(r.seq, expected[r.client as usize]);
        expected[r.client as usize] += 1;
    }
}

#[test]
fn the_mix_respects_its_weights() {
    let mut w = Workload::new(2, WorkloadConfig::writes_only());
    for _ in 0..200 {
        assert!(matches!(w.next_request().command, KvCommand::Put { .. }));
    }
}

#[test]
fn requests_stay_inside_the_key_space() {
    let mut w = Workload::new(
        3,
        WorkloadConfig {
            keys: 3,
            ..Default::default()
        },
    );
    for _ in 0..500 {
        let key = w.next_request().command.key().to_string();
        assert!(
            ["k0", "k1", "k2"].contains(&key.as_str()),
            "unexpected key {key}"
        );
    }
}

#[test]
fn targeting_usually_follows_the_leader_but_not_always() {
    let mut w = Workload::new(4, WorkloadConfig::default());
    let mut on_leader = 0;
    for _ in 0..1000 {
        if w.target(Some(2), 5) == 2 {
            on_leader += 1;
        }
    }
    assert!(
        on_leader > 750,
        "too few requests reached the leader: {on_leader}"
    );
    assert!(
        on_leader < 990,
        "a stale hint should sometimes miss: {on_leader}"
    );
}

#[test]
fn with_no_leader_it_still_picks_a_node() {
    let mut w = Workload::new(5, WorkloadConfig::default());
    for _ in 0..200 {
        assert!(w.target(None, 5) < 5);
    }
}
