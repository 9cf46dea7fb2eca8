//! Promises that hold of every run, each on a few concrete ones.
use raft_sim::event::Event;
use raft_sim::fuzz::{config_for_seed, membership_plan, minimize, run_config, run_seed, Options};
use raft_sim::history::{History, Outcome};
use raft_sim::kv::{KvCommand, KvResult, KvStore};
use raft_sim::linearizability::{check, Verdict};
use raft_sim::survey::{survey, Survey};
use raft_sim::workload::ClientDriver;
use raft_sim::{
    BugSwitches, Cluster, ClusterConfig, Command, FaultConfig, Input, LatencyModel, Network,
    NetworkConfig, NodeStatus, RaftConfig, RaftNode, Rng, SimConfig, WorkloadConfig,
};

fn calm(seed: u64, nodes: usize) -> Cluster {
    Cluster::new(SimConfig {
        nodes,
        faults: FaultConfig::none(),
        network: NetworkConfig::perfect(),
        ..SimConfig::with_seed(seed)
    })
}

fn put(key: &str, value: &str) -> KvCommand {
    KvCommand::Put {
        key: key.to_string(),
        value: value.to_string(),
    }
}

fn get(key: &str) -> KvCommand {
    KvCommand::Get {
        key: key.to_string(),
    }
}

// ---------------------------------------------------------------------------
// Paused nodes
// ---------------------------------------------------------------------------

/// A message that waits for a frozen node was still sent when it was sent.
#[test]
fn a_message_that_waits_keeps_the_time_it_was_sent() {
    let mut sim = calm(6, 3);
    let leader = sim.run_until_leader(5_000).expect("leader");
    let victim = sim.node_ids().into_iter().find(|id| *id != leader).unwrap();
    sim.pause(victim, 4_000);
    let until = match sim.status(victim) {
        NodeStatus::Paused { until } => until,
        other => panic!("not paused: {other:?}"),
    };
    let mut seen = 0;
    while seen < 5 && sim.now() + 1 < until {
        let next = sim.queue().iter().first().map(|s| match &s.event {
            Event::Deliver { from, to, sent_at, .. } if *to == victim && s.tick < until => {
                Some((s.tick, *from, *sent_at))
            }
            _ => None,
        });
        let waiting = |sim: &Cluster, from: u32, sent: u64| {
            sim.queue()
                .iter()
                .iter()
                .filter(|s| {
                    s.tick == until
                        && matches!(&s.event, Event::Deliver { from: f, to, sent_at, .. }
                            if *f == from && *to == victim && *sent_at == sent)
                })
                .count()
        };
        match next.flatten() {
            Some((tick, from, sent)) => {
                assert!(sent < tick);
                let before = waiting(&sim, from, sent);
                let deferred = sim.stats().messages_deferred;
                let len = sim.queue().len();
                assert!(sim.step_once());
                assert_eq!(sim.now(), tick);
                assert_eq!(sim.stats().messages_deferred, deferred + 1);
                assert_eq!(sim.queue().len(), len);
                assert_eq!(waiting(&sim, from, sent), before + 1);
                seen += 1;
            }
            None => assert!(sim.step_once()),
        }
    }
    assert!(seen > 0, "no message was ever held");
}

// ---------------------------------------------------------------------------
// Histories over the cap
// ---------------------------------------------------------------------------

fn completed(h: &mut History, client: u32, cmd: KvCommand, from: u64, to: u64, r: KvResult) {
    h.invoke(client, 0, cmd, from);
    h.complete(client, 0, to, r);
}

/// A read that overlaps everything may see a write over the cap: no order is
/// ruled out, so the answer is "unknown".
#[test]
fn a_slow_read_may_see_a_write_over_the_cap() {
    let mut h = History::new();
    let z = Some("z".to_string());
    completed(&mut h, 0, get("k"), 0, 1_000, KvResult::Value(z));
    for i in 1..128u32 {
        let t = i as u64;
        completed(&mut h, i, get("k"), t, t, KvResult::Value(None));
    }
    completed(&mut h, 500, put("k", "z"), 500, 600, KvResult::Done);
    assert_eq!(h.len(), 129);
    match check(&h) {
        Verdict::Unknown { reason } => assert!(reason.contains("over the cap of 128"), "{reason}"),
        other => panic!("expected unknown, got {other:?}"),
    }
}

/// A write over the cap can be overtaken by a slow write under it, too.
#[test]
fn a_slow_write_over_the_cap_is_optional() {
    let mut h = History::new();
    completed(&mut h, 0, put("k", "a"), 0, 1_000, KvResult::Done);
    for i in 1..128u32 {
        let t = i as u64;
        completed(&mut h, i, get("k"), t, t, KvResult::Value(None));
    }
    completed(&mut h, 500, get("k"), 500, 600, KvResult::Value(None));
    assert!(check(&h).is_unknown());
}

/// What went wrong before the first operation over the cap is still found.
#[test]
fn a_violation_in_the_prefix_is_real() {
    let mut h = History::new();
    completed(&mut h, 0, put("k", "a"), 0, 1, KvResult::Done);
    completed(&mut h, 1, get("k"), 2, 3, KvResult::Value(None));
    for i in 2..140u32 {
        let t = 10 + i as u64;
        completed(&mut h, i, put("k", "b"), t, t, KvResult::Done);
    }
    match check(&h) {
        Verdict::NotLinearizable(e) => {
            assert_eq!(e.key, "k");
            assert_eq!(e.linearized.len(), 1);
            assert_eq!(e.state_after, Some("a".to_string()));
            assert_eq!(e.blocked.len(), 1);
            assert_eq!(e.blocked[0].expected, "a");
            assert_eq!(e.blocked[0].observed, "nil");
        }
        other => panic!("expected a violation, got {other:?}"),
    }
}

/// An explanation shows a longest order that works, and every operation that
/// could come next.
#[test]
fn an_explanation_shows_a_longest_order() {
    let mut h = History::new();
    completed(&mut h, 0, put("k", "a"), 0, 10, KvResult::Done);
    completed(&mut h, 1, put("k", "b"), 0, 10, KvResult::Done);
    completed(&mut h, 2, get("k"), 20, 30, KvResult::Value(Some("c".to_string())));
    completed(&mut h, 3, get("k"), 20, 30, KvResult::Value(Some("d".to_string())));
    match check(&h) {
        Verdict::NotLinearizable(e) => {
            assert_eq!(e.operations.len(), 4);
            assert_eq!(e.linearized.len(), 2);
            assert_eq!(e.blocked.len(), 2);
            for b in &e.blocked {
                assert_ne!(b.expected, b.observed);
            }
        }
        other => panic!("expected a violation, got {other:?}"),
    }
}

// ---------------------------------------------------------------------------
// Membership plans
// ---------------------------------------------------------------------------

#[test]
fn every_planned_membership_has_a_clear_majority() {
    let mut changes = 0;
    for seed in 0..400u64 {
        for nodes in 1..10usize {
            let plan = membership_plan(seed, nodes, 30_000);
            assert!(plan.len() <= 3);
            assert!(nodes >= 5 || plan.is_empty());
            let mut last = 0;
            for (tick, voters) in &plan {
                assert!(last <= *tick && *tick <= 30_000);
                last = *tick;
                assert!(voters.len() >= 3 && voters.len() % 2 == 1, "{voters:?}");
                assert!(voters.windows(2).all(|w| w[0] < w[1]));
                assert!(voters.iter().all(|v| (*v as usize) < nodes));
                changes += 1;
            }
        }
    }
    assert!(changes > 100);
}

// ---------------------------------------------------------------------------
// Other ways to write a document
// ---------------------------------------------------------------------------

fn decode(text: &str) -> Option<KvCommand> {
    KvCommand::decode(&Command(text.as_bytes().to_vec())).ok()
}

#[test]
fn a_record_may_be_written_as_an_array() {
    assert_eq!(decode(r#"{"Get":["k"]}"#), Some(get("k")));
    assert_eq!(decode(r#"{"Put":["k","v"]}"#), Some(put("k", "v")));
    assert_eq!(
        decode(r#"{"Delete":["k"]}"#),
        Some(KvCommand::Delete { key: "k".to_string() })
    );
    assert_eq!(
        decode(r#"{"Cas":["k",null,"v"]}"#),
        Some(KvCommand::Cas {
            key: "k".to_string(),
            expect: None,
            value: "v".to_string()
        })
    );
    assert_eq!(
        decode(r#"{"Cas":["k","old","v"]}"#),
        Some(KvCommand::Cas {
            key: "k".to_string(),
            expect: Some("old".to_string()),
            value: "v".to_string()
        })
    );
    // An element for each field, neither more nor fewer, and of the right kind.
    assert_eq!(decode(r#"{"Get":[]}"#), None);
    assert_eq!(decode(r#"{"Get":["k","v"]}"#), None);
    assert_eq!(decode(r#"{"Put":["k"]}"#), None);
    assert_eq!(decode(r#"{"Cas":["k","v"]}"#), None);
    assert_eq!(decode(r#"{"Get":[1]}"#), None);
    assert_eq!(decode(r#"["Get"]"#), None);
}

#[test]
fn a_store_may_be_written_as_an_array() {
    let text = r#"[{"a":"1"},{"3":[7,"Ok"],"4":[8,{"Ok":null}],"5":[9,{"CasFailed":["x"]}]}]"#;
    let mut s = KvStore::from_bytes(text.as_bytes()).expect("a store");
    assert_eq!(s.get("a"), Some(&"1".to_string()));
    assert_eq!(s.last_seq(3), Some(7));
    assert_eq!(s.last_seq(4), Some(8));
    // What each client was last told.
    assert_eq!(s.apply_for(Some((3, 7)), &put("a", "2")), KvResult::Done);
    assert_eq!(s.apply_for(Some((4, 8)), &put("a", "2")), KvResult::Done);
    assert_eq!(
        s.apply_for(Some((5, 9)), &put("a", "2")),
        KvResult::CasFailed { actual: Some("x".to_string()) }
    );
    assert_eq!(s.get("a"), Some(&"1".to_string()));

    assert!(KvStore::from_bytes(br#"[{"a":"1"}]"#).is_none());
    assert!(KvStore::from_bytes(br#"[{},{},{}]"#).is_none());
    assert!(KvStore::from_bytes(br#"[{},{"3":[7,{"Ok":1}]}]"#).is_none());
    assert!(KvStore::from_bytes(br#"[{},{"3":[7]}]"#).is_none());
}

// ---------------------------------------------------------------------------
// Counters
// ---------------------------------------------------------------------------

#[test]
fn every_message_is_accounted_for() {
    let mut net = Network::new(NetworkConfig {
        latency: LatencyModel::Uniform { min: 1, max: 20 },
        ..NetworkConfig::hostile()
    });
    net.partitions_mut().isolate(3, &[0, 1, 2, 3]);
    let mut rng = Rng::new(11);
    for t in 0..2_000u64 {
        let (from, to) = ((t % 4) as u32, ((t / 4) % 4) as u32);
        net.route(t, from, to, &mut rng);
        let s = net.stats();
        assert_eq!(s.sent, t + 1);
        assert_eq!(s.sent + s.duplicated, s.partitioned + s.dropped + s.delivered);
    }
    assert!(net.stats().duplicated > 0 && net.stats().dropped > 0 && net.stats().partitioned > 0);
}

#[test]
fn a_node_applies_only_what_it_knows_to_be_committed() {
    let mut node = RaftNode::new(0, ClusterConfig::new(&[0]), RaftConfig::default(), 7, 0);
    let mut now = 0;
    assert!(node.last_applied() <= node.commit_index());
    for i in 0..200u64 {
        now = now.max(node.next_deadline());
        node.step(Input::Tick, now);
        assert!(node.last_applied() <= node.commit_index());
        let input = Input::ClientRequest(raft_sim::ClientRequest {
            client: 1,
            seq: i,
            command: put("k", "v").encode(),
            read_only: false,
        });
        if node.accepts(&input, now) {
            node.step(input, now);
        }
        assert!(node.last_applied() <= node.commit_index());
    }
    assert!(node.last_applied() > 0);
}

// ---------------------------------------------------------------------------
// Clients
// ---------------------------------------------------------------------------

/// Whatever the cluster does, each client's numbers run from nought without a
/// gap, and nothing is sent more often than it may be.
#[test]
fn the_history_has_what_the_clients_did() {
    for (seed, max_attempts) in [(1u64, 1u32), (2, 3), (3, 0), (4, 6)] {
        let mut sim = Cluster::new(SimConfig {
            nodes: 3,
            network: NetworkConfig::hostile(),
            ..SimConfig::with_seed(seed)
        });
        sim.run_until_leader(5_000);
        let cfg = WorkloadConfig::default();
        let mut driver = ClientDriver::new(seed, cfg, 300, max_attempts);
        let mut next = vec![0u64; cfg.clients as usize];
        let mut known = 0;
        for _ in 0..120 {
            let gap = driver.step(&mut sim);
            sim.run_for(gap);
            assert!(driver.in_flight() <= cfg.clients as usize);
            for op in &sim.history().operations()[known..] {
                assert_eq!(op.seq, next[op.process as usize]);
                next[op.process as usize] += 1;
                known += 1;
            }
        }
        let most = max_attempts.max(1);
        assert!(sim.history().operations().iter().all(|o| 1 <= o.attempts && o.attempts <= most));
        assert_eq!(known, sim.history().len());
        assert!(known > 20);
        assert!(sim.history().operations().iter().any(|o| matches!(o.outcome, Outcome::Completed { .. })));
    }
}

// ---------------------------------------------------------------------------
// Sweeps
// ---------------------------------------------------------------------------

/// Seeds that finish in another order add up to the same findings.
#[test]
fn any_order_of_seeds_gives_the_same_findings() {
    let opts = Options {
        ticks: 4_000,
        bugs: BugSwitches {
            vote_twice_per_term: true,
            ..BugSwitches::default()
        },
        ..Options::default()
    };
    let in_turn = survey(10, 6, &opts);
    for order in [[15u64, 14, 13, 12, 11, 10], [12, 10, 15, 11, 14, 13]] {
        let mut s = Survey::new();
        for seed in order {
            s.record(run_seed(seed, &opts));
        }
        assert_eq!(s.coverage, in_turn.coverage);
        let seeds = |s: &Survey| s.failures.iter().map(|f| f.seed).collect::<Vec<_>>();
        assert_eq!(seeds(&s), seeds(&in_turn));
    }
}

/// The faults of a repro are some of the run's, in the same order.
#[test]
fn a_repro_has_faults_of_the_run_only() {
    let opts = Options {
        ticks: 6_000,
        minimize_budget: 20,
        bugs: BugSwitches {
            vote_twice_per_term: true,
            ..BugSwitches::default()
        },
        ..Options::default()
    };
    let mut checked = 0;
    for seed in 0..40u64 {
        let run = run_seed(seed, &opts);
        let shrunk = minimize(seed, &opts);
        assert_eq!(shrunk.is_some(), run.failed());
        if let Some(m) = shrunk {
            let mut rest = run.faults.iter();
            for fault in &m.faults {
                assert!(rest.any(|f| f == fault), "not a fault of the run: {fault:?}");
            }
            assert!(m.reproduced || m.faults == run.faults);
            assert_eq!(m.original_faults, run.faults.len());
            checked += 1;
        }
        if checked == 3 {
            break;
        }
    }
    assert!(checked > 0);
}

/// Recording a run changes nothing about it.
#[test]
fn a_recorded_run_is_the_same_run() {
    let opts = Options {
        ticks: 3_000,
        ..Options::default()
    };
    for seed in 20..24u64 {
        let run = |record_trace: bool| {
            let (mut cfg, workload) = config_for_seed(seed, &opts);
            cfg.record_trace = record_trace;
            run_config(cfg, workload, opts.ticks)
        };
        let (quiet, a) = run(false);
        let (recorded, b) = run(true);
        assert!(quiet.trace().is_empty() && !recorded.trace().is_empty());
        assert_eq!(a.stats, b.stats);
        assert_eq!(a.network, b.network);
        assert_eq!(a.faults, b.faults);
        assert_eq!(a.violations, b.violations);
        assert_eq!(a.linearizability, b.linearizability);
        assert_eq!(quiet.history().operations(), recorded.history().operations());
        assert_eq!(quiet.events_processed(), recorded.events_processed());
    }
}
