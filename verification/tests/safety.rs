//! What holds of a cluster without deliberate bugs, whatever happens to it.

use raft_sim::kv::KvCommand;
use raft_sim::{
    Cluster, DiskConfig, FaultConfig, LogEntry, NetworkConfig, NodeStatus, Role, SimConfig, Verdict,
};
use std::collections::BTreeMap;

fn rough(seed: u64) -> SimConfig {
    SimConfig {
        nodes: 5,
        initial_voters: Some(vec![0, 1, 2]),
        network: NetworkConfig::flaky(),
        faults: FaultConfig::crash_only(),
        disk: DiskConfig::flaky(),
        snapshot_every: Some(6),
        ..SimConfig::with_seed(seed)
    }
}

/// What was seen so far of who led and of what was applied.
struct Seen {
    leaders: BTreeMap<u64, u32>,
    applied: BTreeMap<u64, (u64, Option<KvCommand>)>,
    applied_by: Vec<usize>,
}

impl Seen {
    fn look(&mut self, sim: &Cluster) {
        for (id, node) in sim.nodes() {
            if node.role() == Role::Leader && sim.status(id) != NodeStatus::Crashed {
                let term = node.current_term();
                assert_eq!(*self.leaders.entry(term).or_insert(id), id, "two leaders of {term}");
            }
            let applied = sim.applied(id);
            for a in &applied[self.applied_by[id as usize]..] {
                let what = (a.term, a.command.clone());
                let known = self.applied.entry(a.index).or_insert_with(|| what.clone());
                assert_eq!(*known, what, "index {}", a.index);
            }
            self.applied_by[id as usize] = applied.len();
        }
    }
}

/// An entry of the same term in the same place on two disks is the same entry,
/// and so is everything before it that both still hold.
fn logs_match(sim: &Cluster) {
    let ids = sim.node_ids();
    for &i in &ids {
        for &j in &ids {
            let a = &sim.storage(i).log;
            let b = &sim.storage(j).log;
            let top = a.last_index().min(b.last_index());
            let mut same = false;
            for index in (1..=top).rev() {
                let (x, y): (Option<&LogEntry>, Option<&LogEntry>) = (a.get(index), b.get(index));
                if let (Some(x), Some(y)) = (x, y) {
                    same = same || x.term == y.term;
                    if same {
                        assert_eq!(x, y, "index {index} of {i} and {j}");
                    }
                }
            }
        }
    }
}

#[test]
fn a_cluster_stays_safe_through_faults_and_membership_changes() {
    for seed in 0..4u64 {
        let mut sim = Cluster::new(rough(seed));
        let mut seen = Seen {
            leaders: BTreeMap::new(),
            applied: BTreeMap::new(),
            applied_by: vec![0; 5],
        };
        let plans: [&[u32]; 4] = [&[0, 1, 2, 3, 4], &[2, 3, 4], &[0, 2, 4], &[1, 2, 3]];
        for i in 0..8_000u64 {
            if i % 30 == 0 {
                let to = sim.leader().unwrap_or((i % 5) as u32);
                sim.submit(
                    to,
                    1,
                    i,
                    KvCommand::Put {
                        key: format!("k{}", i % 4),
                        value: format!("{i}"),
                    },
                );
            }
            if i % 700 == 350 {
                if let Some(leader) = sim.leader() {
                    if sim.status(leader) == NodeStatus::Running {
                        sim.change_membership(plans[(i / 700) as usize % 4]);
                    }
                }
            }
            sim.step_once();
            seen.look(&sim);
            if i % 50 == 0 {
                logs_match(&sim);
            }
        }
        assert!(sim.stats().crashes > 0, "seed {seed} crashed nobody");
        assert!(sim.stats().membership_changes > 0);
        assert!(seen.applied.len() > 5, "seed {seed} applied little");
        assert_eq!(sim.violation_report(), None);
    }
}

#[test]
fn entries_are_applied_one_after_the_other() {
    let mut sim = Cluster::new(SimConfig::with_seed(11));
    let leader = sim.run_until_leader(5_000).expect("leader");
    for i in 1..=7u64 {
        sim.submit(
            leader,
            1,
            i,
            KvCommand::Put {
                key: "a".into(),
                value: format!("{i}"),
            },
        );
        sim.run_for(200);
    }
    for id in sim.node_ids() {
        let indices: Vec<u64> = sim.applied(id).iter().map(|a| a.index).collect();
        assert_eq!(indices, (1..=indices.len() as u64).collect::<Vec<_>>());
        assert_eq!(indices.len() as u64, sim.node(id).last_applied());
    }
    assert!(sim.node(leader).last_applied() >= 8);
}

#[test]
fn a_later_leader_has_what_was_committed() {
    let mut sim = Cluster::new(SimConfig::with_seed(12));
    let first = sim.run_until_leader(5_000).expect("leader");
    sim.submit(
        first,
        1,
        1,
        KvCommand::Put {
            key: "a".into(),
            value: "1".into(),
        },
    );
    sim.run_for(500);
    let committed = sim.node(first).commit_index();
    assert!(committed >= 2);
    let before: Vec<LogEntry> = (1..=committed)
        .map(|i| sim.storage(first).log.get(i).expect("held").clone())
        .collect();
    sim.crash(first);
    sim.run_for(5_000);
    let second = sim.leader().expect("another leader");
    assert_ne!(second, first);
    assert!(sim.node(second).current_term() > sim.node(first).current_term());
    for entry in &before {
        assert_eq!(sim.storage(second).log.get(entry.index), Some(entry));
    }
    assert!(matches!(sim.check_linearizability(), Verdict::Linearizable { .. }));
}
