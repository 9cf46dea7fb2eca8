//! What a cluster keeps through everything that happens to it.

use raft_sim::event::Event;
use raft_sim::kv::{KvCommand, KvResult};
use raft_sim::{
    Cluster, DiskConfig, Fault, FaultConfig, NetworkConfig, NodeStatus, OutcomeKind, SimConfig,
};
use std::collections::BTreeSet;

fn rough(seed: u64) -> SimConfig {
    SimConfig {
        network: NetworkConfig::flaky(),
        faults: FaultConfig::crash_only(),
        disk: DiskConfig::flaky(),
        snapshot_every: Some(4),
        ..SimConfig::with_seed(seed)
    }
}

/// Every disk in step with its node, every node that is up with a timer to
/// come, and nothing scheduled for the past.
fn check(sim: &Cluster) {
    let events = sim.queue().iter();
    for (id, node) in sim.nodes() {
        if sim.status(id) == NodeStatus::Crashed {
            continue;
        }
        let disk = sim.storage(id);
        assert_eq!(disk.current_term, node.current_term());
        assert_eq!(disk.voted_for, node.voted_for());
        assert_eq!(disk.log.last_log_id(), node.last_log_id());
        assert!(
            events
                .iter()
                .any(|s| matches!(&s.event, Event::Timer { node } if *node == id)),
            "node {id} has no timer"
        );
    }
    assert!(events.iter().all(|s| s.tick >= sim.now()));
    let mut answered = BTreeSet::new();
    for outcome in sim.outcomes() {
        if let OutcomeKind::Applied(_) = outcome.result {
            assert!(answered.insert((outcome.client, outcome.seq)));
        }
    }
}

#[test]
fn every_event_keeps_a_cluster_coherent() {
    for seed in 0..3u64 {
        let mut sim = Cluster::new(rough(seed));
        check(&sim);
        let mut then = sim.now();
        for i in 0..6_000u64 {
            if i % 40 == 0 {
                let to = sim.leader().unwrap_or((i % 3) as u32);
                sim.submit(
                    to,
                    1,
                    i,
                    KvCommand::Put {
                        key: format!("k{}", i % 3),
                        value: format!("{i}"),
                    },
                );
            }
            sim.step_once();
            assert!(sim.now() >= then, "time went back");
            then = sim.now();
            if i % 10 == 0 {
                check(&sim);
            }
        }
        assert!(sim.stats().crashes > 0 && sim.stats().snapshots_taken > 0);
        assert_eq!(sim.violation_report(), None);
    }
}

#[test]
fn a_run_may_stop_on_the_way() {
    let mut straight = Cluster::new(rough(5));
    straight.run_until(9_000);
    let mut halting = Cluster::new(rough(5));
    for t in [1u64, 777, 778, 4_000, 8_999, 9_000] {
        halting.run_until(t);
        assert_eq!(halting.now(), t);
    }
    assert_eq!(straight.now(), halting.now());
    assert_eq!(straight.events_processed(), halting.events_processed());
    assert_eq!(straight.trace().digest(), halting.trace().digest());
}

#[test]
fn a_crash_keeps_the_disk_and_a_restart_reads_it() {
    let mut sim = Cluster::new(SimConfig::with_seed(8));
    let leader = sim.run_until_leader(5_000).expect("leader");
    sim.submit(
        leader,
        1,
        1,
        KvCommand::Put {
            key: "a".into(),
            value: "1".into(),
        },
    );
    sim.run_for(500);
    let before = sim.storage(leader).clone();
    sim.crash(leader);
    assert_eq!(sim.storage(leader), &before);
    sim.run_for(3_000);
    // Down, it neither hears nor writes anything.
    assert_eq!(sim.storage(leader), &before);
    sim.restart(leader);
    let node = sim.node(leader);
    assert_eq!(node.current_term(), before.current_term);
    assert_eq!(node.voted_for(), before.voted_for);
    assert_eq!(node.last_log_id(), before.log.last_log_id());
    assert_eq!((node.commit_index(), node.last_applied()), (0, 0));
}

#[test]
fn settling_stops_the_schedule_and_repairs_everything() {
    let mut sim = Cluster::new(rough(2));
    sim.run_for(6_000);
    sim.crash(0);
    sim.cut(1, 2);
    sim.settle(4_000);
    let faults = sim.stats().faults_injected;
    let ids = sim.node_ids();
    for a in &ids {
        assert_eq!(sim.status(*a), NodeStatus::Running);
        for b in &ids {
            assert!(sim.is_reachable(*a, *b));
        }
    }
    assert!(!sim
        .queue()
        .iter()
        .iter()
        .any(|s| matches!(&s.event, Event::Fault { fault: Fault::Partition { .. } })));
    sim.run_for(20_000);
    // Only the restarts of torn steps are left.
    let torn = sim.faults_injected()[faults as usize..]
        .iter()
        .all(|(_, f)| matches!(f, Fault::Restart { .. }));
    assert!(torn);
}

#[test]
fn a_blocked_link_carries_nothing() {
    let mut sim = Cluster::new(SimConfig::with_seed(4));
    sim.run_until_leader(5_000).expect("leader");
    sim.isolate(1);
    let commit = sim.node(1).commit_index();
    let sent = sim.network_stats().partitioned;
    sim.run_for(2_000);
    assert!(sim.network_stats().partitioned > sent);
    assert_eq!(sim.node(1).commit_index(), commit);
}

#[test]
fn keys_are_judged_on_their_own() {
    // Two clients, two keys: each key's story is coherent, so the whole is.
    let mut sim = Cluster::new(SimConfig::with_seed(21));
    let leader = sim.run_until_leader(5_000).expect("leader");
    for (client, key) in [(1u32, "x"), (2, "y")] {
        sim.submit(
            leader,
            client,
            1,
            KvCommand::Put {
                key: key.into(),
                value: "1".into(),
            },
        );
    }
    sim.run_for(500);
    for (client, key) in [(1u32, "y"), (2, "x")] {
        sim.submit(leader, client, 2, KvCommand::Get { key: key.into() });
    }
    sim.run_for(500);
    assert!(sim.check_linearizability().is_linearizable());
    assert!(sim.outcomes().iter().any(|o| matches!(
        &o.result,
        OutcomeKind::Applied(KvResult::Value(Some(v))) if v == "1"
    )));
}
