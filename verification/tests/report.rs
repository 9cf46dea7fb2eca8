//! The texts a sweep prints.

use raft_sim::faults::Fault;
use raft_sim::fuzz::{describe, Minimized, Options, SeedResult, Target};
use raft_sim::invariants::{Invariant, Violation};
use raft_sim::linearizability::{Blocked, Explanation, Verdict};
use raft_sim::report;
use raft_sim::survey::Coverage;
use raft_sim::{NetworkStats, RunStats};

fn violation(tick: u64, property: Invariant, detail: &str) -> Violation {
    Violation {
        tick,
        property,
        detail: detail.into(),
    }
}

fn result(violations: Vec<Violation>, linearizability: Verdict) -> SeedResult {
    SeedResult {
        seed: 42,
        nodes: 5,
        violations,
        stats: RunStats::default(),
        network: NetworkStats::default(),
        faults: Vec::new(),
        linearizability,
        history_completed: 0,
        history_pending: 0,
    }
}

fn fine() -> Verdict {
    Verdict::Linearizable {
        keys: 0,
        operations: 0,
    }
}

#[test]
fn failures_are_reported_earliest_first() {
    let r = result(
        vec![
            violation(90, Invariant::TermMonotonic, "later"),
            violation(7, Invariant::AppliedInOrder, "sooner"),
        ],
        fine(),
    );
    assert_eq!(
        report::failure(&r),
        "\nseed 42 FAILED (5 nodes, 2 violation(s))\n  \
         [tick 7] Applied In Order (§5.4.3) violated: sooner\n    \
         likely cause: the apply loop skipped or repeated an index\n  \
         [tick 90] Term Monotonic (§5.1) violated: later\n    \
         likely cause: currentTerm went backwards — check persistence\n"
    );
}

#[test]
fn only_the_first_five_violations_are_listed() {
    let many = (0..8u64)
        .map(|i| violation(i, Invariant::TermMonotonic, &format!("v{i}")))
        .collect();
    let text = report::failure(&result(many, fine()));
    assert!(text.contains("violated: v4\n"));
    assert!(!text.contains("violated: v5\n"));
    assert!(text.ends_with("  ... and 3 more\n"));
}

#[test]
fn impossible_histories_are_explained() {
    let text = report::failure(&result(
        Vec::new(),
        Verdict::NotLinearizable(Box::new(Explanation {
            key: "x".into(),
            operations: vec!["op".into()],
            linearized: Vec::new(),
            state_after: None,
            blocked: vec![Blocked {
                operation: "op".into(),
                expected: "nil".into(),
                observed: "1".into(),
            }],
        })),
    ));
    assert!(text.starts_with(
        "\nseed 42 FAILED (5 nodes, 0 violation(s))\n\n  the client-visible history is \
         impossible:\n    no sequential ordering of the operations on key \"x\" can explain what \
         clients saw.\n"
    ));
    assert!(text.contains("(none — the very first operation is already impossible)"));
    assert!(text.contains("leaving the value as nil"));
}

fn shrunk() -> Minimized {
    Minimized {
        seed: 42,
        target: Target::Invariant(Invariant::ElectionSafety),
        original_faults: 9,
        original_ticks: 30_000,
        faults: vec![
            (
                120,
                Fault::Partition {
                    a: vec![0, 1],
                    b: vec![2],
                },
            ),
            (5_000, Fault::AsymmetricCut { from: 1, to: 2 }),
        ],
        ticks: 6_000,
        attempts: 31,
        reproduced: true,
    }
}

#[test]
fn a_shrink_is_reported_as_a_script() {
    assert_eq!(shrunk().shrank_by(), 7);
    assert_eq!(
        report::minimized(&shrunk()),
        "  minimized: 9 faults -> 2 (7 removed), 30000 -> 6000 ticks, 31 attempts\n  \
         preserving: Election Safety (§5.2)\n    \
         tick     120  partition [0, 1] | [2]\n    \
         tick    5000  cut 1 -> 2 (one way)\n"
    );
    let lost = Minimized {
        reproduced: false,
        ..shrunk()
    };
    assert_eq!(
        report::minimized(&lost),
        "  could not reproduce seed 42 from a fixed fault script; the seed alone is the repro\n"
    );
}

#[test]
fn a_repro_says_how_to_replay() {
    let r = result(Vec::new(), fine());
    assert_eq!(
        report::repro(&r, None),
        "# repro for seed 42\n\nseed 42 FAILED (5 nodes, 0 violation(s))\n\nreplay with: cargo run \
         --release -p fuzz -- --start 42 --seeds 1 --trace-dir <dir>\n"
    );
    let with = report::repro(&r, Some(&shrunk()));
    assert!(with.contains("  preserving: Election Safety (§5.2)\n"));
}

#[test]
fn faults_are_described_in_words() {
    let cases = [
        (Fault::Heal, "heal"),
        (Fault::Crash { node: 3 }, "crash 3"),
        (Fault::Restart { node: 3 }, "restart 3"),
        (Fault::Isolate { node: 1 }, "isolate 1"),
        (Fault::Pause { node: 2, ticks: 50 }, "pause 2 for 50"),
        (
            Fault::AsymmetricCut { from: 0, to: 4 },
            "cut 0 -> 4 (one way)",
        ),
    ];
    for (fault, text) in cases {
        assert_eq!(report::describe_fault(&fault), text);
    }
    assert_eq!(
        Fault::AsymmetricCut { from: 0, to: 4 }.description(),
        "cut 0 to 4"
    );
}

#[test]
fn an_idle_sweep_is_called_out() {
    let text = report::coverage(&Coverage::default(), 3);
    assert!(text.starts_with(
        "\ncoverage\n  elections            0   leaders elected        0   max term      0\n"
    ));
    assert!(text.contains("  seeds with faults scheduled: 0 of 3\n"));
    assert!(text.contains("\nweak coverage:\n"));
    assert!(text.contains("  - nothing was ever applied: the workload is not committing\n"));
    assert!(!text.contains("many histories were undecided"));
}

#[test]
fn a_busy_sweep_is_not() {
    let busy = Coverage {
        seeds: 2,
        stats: RunStats {
            elections_started: 1_234_567,
            log_truncations: 1,
            entries_applied: 1,
            snapshots_taken: 1,
            snapshots_installed: 1,
            membership_changes: 1,
            reads_served: 12,
            ..RunStats::default()
        },
        operations_pending: 1,
        histories_checked: 4,
        histories_undecided: 1,
        ..Coverage::default()
    };
    let text = report::coverage(&busy, 2);
    assert!(!text.contains("weak coverage"));
    assert!(text.contains("  elections      1234567   leaders elected"));
    assert!(text.contains("  reads served        12   (via ReadIndex, never entering the log)\n"));
    assert!(text.contains("  histories linearizable       4   undecided          1\n"));

    let undecided = Coverage {
        histories_undecided: 2,
        ..busy
    };
    assert!(report::coverage(&undecided, 2).ends_with(
        "\nweak coverage:\n  - many histories were undecided: raise the linearizability budget\n"
    ));
}

#[test]
fn a_seed_is_described_in_one_line() {
    let text = describe(3, &Options::default());
    assert!(text.starts_with("seed 3: "));
    assert!(text.contains(" nodes, batch ") && text.contains(" faults, disk "));
    assert!(!text.contains('\n'));
}
