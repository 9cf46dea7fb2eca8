//! The timeline.
use raft_sim::timeline::{Moment, Timeline, CAPACITY};
use raft_sim::Tick;

#[test]
fn it_keeps_the_most_recent_entries() {
    let mut t = Timeline::new();
    for i in 0..(CAPACITY as u64 + 50) {
        t.push(i, Moment::Crashed { node: 0 });
    }
    assert_eq!(t.len(), CAPACITY);
    assert_eq!(t.dropped(), 50);
    assert_eq!(
        t.entries().iter().next().unwrap().tick,
        50,
        "the oldest are dropped"
    );
}

#[test]
fn violations_survive_the_ring_buffer() {
    let mut t = Timeline::new();
    t.push(
        1,
        Moment::Violation {
            property: "Election Safety".into(),
            detail: "two leaders".into(),
        },
    );
    for i in 0..(CAPACITY as u64 + 100) {
        t.push(i + 2, Moment::Crashed { node: 0 });
    }
    assert_eq!(
        t.violations().len(),
        1,
        "a violation must never scroll away"
    );
    assert_eq!(t.violations()[0].tick, 1);
}

#[test]
fn commits_are_recorded_sparsely_but_never_go_backwards() {
    let mut t = Timeline::new();
    for i in 1..=40u64 {
        t.note_commit(i * 10, 0, i);
    }
    assert!(
        t.len() < 20,
        "every commit would bury everything else: {}",
        t.len()
    );
    assert!(t.len() > 3, "but some should be recorded: {}", t.len());
    let ticks: Vec<Tick> = t.entries().iter().map(|e| e.tick).collect();
    assert!(
        ticks.windows(2).all(|w| w[0] <= w[1]),
        "entries must be in order"
    );
}

#[test]
fn a_commit_that_does_not_advance_records_nothing() {
    let mut t = Timeline::new();
    t.note_commit(10, 0, 5);
    let before = t.len();
    t.note_commit(20, 0, 5);
    t.note_commit(30, 0, 3);
    assert_eq!(t.len(), before);
}
