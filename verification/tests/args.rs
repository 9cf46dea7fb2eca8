//! The command line.

use raft_sim::args::{find_bug, parse, parse_number, Args, Parsed};
use raft_sim::BugSwitches;

fn parsed(args: &[&str]) -> Parsed {
    let args: Vec<String> = args.iter().map(|a| a.to_string()).collect();
    parse(&args, 4)
}

fn run(args: &[&str]) -> Args {
    match parsed(args) {
        Parsed::Run(a) => a,
        other => panic!("expected a run, got {other:?}"),
    }
}

fn wrong(args: &[&str]) -> String {
    match parsed(args) {
        Parsed::Wrong(text) => text,
        other => panic!("expected an error, got {other:?}"),
    }
}

#[test]
fn no_arguments_are_the_defaults() {
    let a = run(&[]);
    assert_eq!((a.start, a.seeds, a.threads, a.ticks), (0, 1_000, 4, 30_000));
    assert_eq!(a.bugs, BugSwitches::default());
    assert!(!a.stale_reads && a.minimize && !a.describe);
    assert!(a.bug_label.is_none() && a.trace_dir.is_none());
}

#[test]
fn every_argument_is_taken() {
    let a = run(&[
        "--start",
        "7",
        "--seeds",
        "+20",
        "--threads",
        "3",
        "--ticks",
        "500",
        "--no-minimize",
        "--describe",
        "--trace-dir",
        "out",
    ]);
    assert_eq!((a.start, a.seeds, a.threads, a.ticks), (7, 20, 3, 500));
    assert!(!a.minimize && a.describe);
    assert_eq!(a.trace_dir.as_deref(), Some("out"));
}

#[test]
fn the_last_of_two_values_counts() {
    assert_eq!(run(&["--seeds", "1", "--seeds", "2"]).seeds, 2);
}

#[test]
fn bugs_go_by_name() {
    let a = run(&["--bug", "double-vote"]);
    assert!(a.bugs.vote_twice_per_term && !a.bugs.commit_prior_term_entries);
    assert_eq!(a.bug_label.as_deref(), Some("double-vote"));
    assert!(!a.stale_reads);

    let a = run(&["--bug", "stale-read"]);
    assert_eq!(a.bugs, BugSwitches::default());
    assert!(a.stale_reads);

    for name in [
        "commit-rule",
        "double-vote",
        "blind-commit",
        "no-persist",
        "compaction-anchor",
        "no-reconcile",
        "early-read-index",
    ] {
        let (bugs, stale) = find_bug(name).expect(name);
        assert_ne!(bugs, BugSwitches::default(), "{name}");
        assert!(!stale, "{name}");
    }
    assert!(find_bug("nonsense").is_none());
}

#[test]
fn help_is_asked_for_either_way() {
    assert!(matches!(parsed(&["-h"]), Parsed::Help));
    assert!(matches!(parsed(&["--seeds", "3", "--help"]), Parsed::Help));
}

#[test]
fn what_is_wrong_is_said() {
    assert_eq!(wrong(&["--seeds"]), "--seeds needs a value");
    assert_eq!(wrong(&["--start", "x"]), "--start: not a number");
    assert_eq!(wrong(&["--trace-dir"]), "--trace-dir needs a path");
    assert_eq!(wrong(&["--bug"]), "--bug needs a name");
    assert_eq!(wrong(&["--bug", "nonsense"]), "unknown bug: nonsense");
    assert_eq!(wrong(&["--frobnicate"]), "unknown argument: --frobnicate");
    // The first thing wrong is the one reported.
    assert_eq!(wrong(&["--ticks", "1x", "--bug"]), "--ticks: not a number");
}

#[test]
fn numbers_are_decimal_and_fit() {
    assert_eq!(parse_number("0"), Some(0));
    assert_eq!(parse_number("+007"), Some(7));
    assert_eq!(parse_number("18446744073709551615"), Some(u64::MAX));
    assert_eq!(parse_number("18446744073709551616"), None);
    for text in ["", "+", "-1", "1_000", " 1", "0x10", "++1"] {
        assert_eq!(parse_number(text), None, "{text:?}");
    }
}
