//! Link faults and fault schedules.
use raft_sim::faults::{random_pair, random_split, Fault, FaultConfig, Partitions};
use raft_sim::{NodeId, Rng};
use std::collections::BTreeSet;

const NODES: [NodeId; 5] = [0, 1, 2, 3, 4];

#[test]
fn a_healed_network_reaches_everywhere() {
    let p = Partitions::new();
    for a in NODES {
        for b in NODES {
            assert!(p.reachable(a, b));
        }
    }
}

#[test]
fn a_split_blocks_both_directions() {
    let mut p = Partitions::new();
    p.split(&[0, 1], &[2, 3, 4]);
    assert!(!p.reachable(0, 2));
    assert!(!p.reachable(2, 0));
    assert!(p.reachable(0, 1), "within a group traffic still flows");
    assert!(p.reachable(2, 3));
}

#[test]
fn an_asymmetric_cut_blocks_only_one_direction() {
    let mut p = Partitions::new();
    p.cut(0, 1);
    assert!(!p.reachable(0, 1));
    assert!(p.reachable(1, 0), "the reverse direction must survive");
}

#[test]
fn isolation_cuts_a_node_off_entirely() {
    let mut p = Partitions::new();
    p.isolate(2, &NODES);
    for other in NODES.iter().filter(|n| **n != 2) {
        assert!(!p.reachable(2, *other));
        assert!(!p.reachable(*other, 2));
    }
    assert!(p.reachable(0, 1), "other links are untouched");
    assert!(p.reachable(2, 2), "a node can always reach itself");
}

#[test]
fn healing_restores_everything() {
    let mut p = Partitions::new();
    p.split(&[0], &[1, 2, 3, 4]);
    p.cut(3, 4);
    assert!(!p.is_healed());
    p.heal();
    assert!(p.is_healed());
    assert!(p.reachable(0, 1) && p.reachable(3, 4));
}

#[test]
fn generated_splits_never_leave_a_side_empty() {
    let mut rng = Rng::new(7);
    for _ in 0..2_000 {
        let (a, b) = random_split(&NODES, &mut rng);
        assert!(!a.is_empty() && !b.is_empty());
        assert_eq!(a.len() + b.len(), NODES.len());
    }
}

#[test]
fn generated_pairs_are_distinct_and_cover_every_ordered_pair() {
    let mut rng = Rng::new(7);
    let mut seen = BTreeSet::new();
    for _ in 0..5_000 {
        let (from, to) = random_pair(&NODES, &mut rng);
        assert_ne!(from, to);
        seen.insert((from, to));
    }
    assert_eq!(seen.len(), 20, "all 5x4 ordered pairs should appear");
}

#[test]
fn schedules_are_reproducible() {
    let generate = || {
        let cfg = FaultConfig::aggressive();
        let mut rng = Rng::new(42);
        (0..200)
            .map(|_| (cfg.healthy_span(&mut rng), cfg.next_fault(&NODES, &mut rng)))
            .collect::<Vec<_>>()
    };
    assert_eq!(generate(), generate());
}

#[test]
fn asymmetric_only_produces_only_one_way_cuts() {
    let cfg = FaultConfig::asymmetric_only();
    let mut rng = Rng::new(3);
    for _ in 0..200 {
        match cfg.next_fault(&NODES, &mut rng) {
            Some(Fault::AsymmetricCut { .. }) => {}
            other => panic!("unexpected: {other:?}"),
        }
    }
}

#[test]
fn a_disabled_schedule_produces_nothing() {
    let cfg = FaultConfig::none();
    let mut rng = Rng::new(1);
    assert_eq!(cfg.next_fault(&NODES, &mut rng), None);
}
