//! The trace and how it is written down.

use raft_sim::faults::Fault;
use raft_sim::kv::{KvCommand, KvResult};
use raft_sim::trace::{Trace, TraceKind};
use raft_sim::{Cluster, Input, SimConfig};

fn sample() -> Trace {
    let mut t = Trace::new();
    t.push(3, 0, 1, TraceKind::In(Input::Tick));
    t.push(4, 1, 2, TraceKind::Crashed);
    t.push(
        5,
        2,
        0,
        TraceKind::Applied {
            index: 7,
            term: 2,
            command: Some(KvCommand::Put {
                key: "k\"".into(),
                value: "v\n".into(),
            }),
            result: Some(KvResult::Done),
        },
    );
    t
}

#[test]
fn records_are_written_as_json() {
    assert_eq!(
        sample().to_json(),
        concat_lines(&[
            r#"[{"tick":3,"seq":0,"node":1,"kind":{"In":"Tick"}},"#,
            r#"{"tick":4,"seq":1,"node":2,"kind":"Crashed"},"#,
            r#"{"tick":5,"seq":2,"node":0,"kind":{"Applied":{"index":7,"term":2,"#,
            r#""command":{"Put":{"key":"k\"","value":"v\n"}},"result":"Ok"}}}]"#,
        ])
    );
    assert_eq!(Trace::new().to_json(), "[]");
}

fn concat_lines(parts: &[&str]) -> String {
    parts.join("")
}

#[test]
fn laid_out_over_several_lines_it_says_the_same() {
    let mut t = Trace::new();
    t.push(4, 1, 2, TraceKind::Dropped { to: 9 });
    assert_eq!(
        t.to_json_pretty(),
        "[\n  {\n    \"tick\": 4,\n    \"seq\": 1,\n    \"node\": 2,\n    \"kind\": {\n      \
         \"Dropped\": {\n        \"to\": 9\n      }\n    }\n  }\n]"
    );
}

#[test]
fn lists_are_laid_out_too() {
    assert_eq!(Trace::new().to_json_pretty(), "[]");
    let mut t = Trace::new();
    t.push(1, 0, 3, TraceKind::MembershipChange { voters: vec![] });
    t.push(2, 1, 3, TraceKind::MembershipChange { voters: vec![4, 5] });
    assert_eq!(
        t.to_json_pretty(),
        "[\n  {\n    \"tick\": 1,\n    \"seq\": 0,\n    \"node\": 3,\n    \"kind\": {\n      \
         \"MembershipChange\": {\n        \"voters\": []\n      }\n    }\n  },\n  {\n    \
         \"tick\": 2,\n    \"seq\": 1,\n    \"node\": 3,\n    \"kind\": {\n      \
         \"MembershipChange\": {\n        \"voters\": [\n          4,\n          5\n        \
         ]\n      }\n    }\n  }\n]"
    );
}

#[test]
fn a_disabled_trace_records_nothing() {
    let mut t = Trace::disabled();
    t.push(1, 1, 1, TraceKind::Crashed);
    assert!(t.is_empty() && !t.is_enabled());
    assert_eq!(t.len(), 0);
    assert!(!Trace::default().is_enabled());
}

#[test]
fn equal_traces_have_equal_digests_and_no_difference() {
    let a = sample();
    let b = sample();
    assert_eq!(a.digest(), b.digest());
    assert_eq!(a.first_difference(&b), None);
    assert_eq!(a.clone().to_json(), a.to_json());
}

#[test]
fn the_first_difference_is_found() {
    let a = sample();
    let mut longer = sample();
    longer.push(6, 3, 0, TraceKind::TornStep);
    assert_eq!(a.first_difference(&longer), Some(3));
    assert_ne!(a.digest(), longer.digest());

    let mut other = Trace::new();
    other.push(3, 0, 1, TraceKind::In(Input::Tick));
    other.push(4, 1, 2, TraceKind::Fault { fault: Fault::Heal });
    assert_eq!(a.first_difference(&other), Some(1));
}

#[test]
fn the_empty_trace_digests_to_the_fnv_offset_basis_of_two_brackets() {
    // FNV-1a over the two bytes of "[]".
    let mut expected: u64 = 0xcbf2_9ce4_8422_2325;
    for byte in b"[]" {
        expected ^= *byte as u64;
        expected = expected.wrapping_mul(0x0000_0100_0000_01b3);
    }
    assert_eq!(Trace::new().digest(), expected);
}

#[test]
fn what_watches_a_run_does_not_change_it() {
    let run = |record_trace: bool, check_invariants: bool| {
        let mut sim = Cluster::new(SimConfig {
            record_trace,
            check_invariants,
            snapshot_every: Some(5),
            faults: raft_sim::FaultConfig::crash_only(),
            ..SimConfig::with_seed(11)
        });
        for i in 0..6u64 {
            let to = sim.leader().unwrap_or(0);
            sim.submit(
                to,
                1,
                i,
                KvCommand::Put {
                    key: "k".into(),
                    value: format!("{i}"),
                },
            );
            sim.run_for(1_500);
        }
        let nodes: Vec<String> = sim
            .nodes()
            .iter()
            .map(|(id, n)| format!("{id} {:?} {:?} {}", n.role(), n.last_log_id(), n.commit_index()))
            .collect();
        (
            nodes,
            sim.events_processed(),
            *sim.stats(),
            *sim.network_stats(),
            format!("{:?}", sim.outcomes()),
            format!("{:?}", sim.faults_injected()),
        )
    };
    let watched = run(true, true);
    assert_eq!(watched, run(false, true));
    assert_eq!(watched, run(true, false));
    assert_eq!(watched, run(false, false));
}
