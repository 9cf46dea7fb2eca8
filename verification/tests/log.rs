//! The replicated log.
use raft_sim::{EntryPayload, Index, Log, LogEntry, LogId, Term};

fn entry(index: Index, term: Term) -> LogEntry {
    LogEntry {
        term,
        index,
        payload: EntryPayload::Noop,
        client: None,
    }
}

fn log_of(terms: &[Term]) -> Log {
    let mut log = Log::new();
    let entries: Vec<LogEntry> = terms
        .iter()
        .enumerate()
        .map(|(i, &t)| entry(i as Index + 1, t))
        .collect();
    log.append(&entries);
    log
}

#[test]
fn empty_log_reports_sentinel() {
    let log = Log::new();
    assert_eq!(log.last_index(), 0);
    assert_eq!(log.last_log_id(), LogId::zero());
    assert_eq!(log.term_at(0), Some(0));
    assert_eq!(log.term_at(1), None);
}

#[test]
fn term_lookup() {
    let log = log_of(&[1, 1, 2, 3]);
    assert_eq!(log.term_at(1), Some(1));
    assert_eq!(log.term_at(3), Some(2));
    assert_eq!(log.term_at(4), Some(3));
    assert_eq!(log.term_at(5), None);
    assert_eq!(log.last_log_id(), LogId::new(4, 3));
}

#[test]
fn truncate_removes_suffix() {
    let mut log = log_of(&[1, 1, 2, 3]);
    log.truncate_from(3);
    assert_eq!(log.last_index(), 2);
    assert_eq!(log.term_at(3), None);
}

#[test]
fn truncate_beyond_end_is_a_noop() {
    let mut log = log_of(&[1, 2]);
    log.truncate_from(9);
    assert_eq!(log.last_index(), 2);
}

#[test]
fn entries_from_respects_cap() {
    let log = log_of(&[1, 1, 1, 1, 1]);
    assert_eq!(log.entries_from(2, 2).len(), 2);
    assert_eq!(log.entries_from(2, 99).len(), 4);
    assert_eq!(log.entries_from(6, 99).len(), 0);
}

#[test]
fn conflict_hint_when_follower_is_short() {
    let log = log_of(&[1, 1]);
    let hint = log.conflict_hint(5);
    assert_eq!(hint.term, None);
    assert_eq!(hint.first_index, 3);
}

#[test]
fn conflict_hint_reports_first_index_of_conflicting_term() {
    // Follower has term 4 at indices 3..=5; leader probed index 5.
    let log = log_of(&[1, 2, 4, 4, 4]);
    let hint = log.conflict_hint(5);
    assert_eq!(hint.term, Some(4));
    assert_eq!(hint.first_index, 3);
}

#[test]
fn reconciling_keeps_a_confirmable_suffix() {
    let mut log = log_of(&[1, 1, 2, 2, 3]);
    log.reconcile_with_snapshot(LogId::new(3, 2));
    assert_eq!(log.first_index(), 4);
    assert_eq!(log.last_index(), 5, "the consistent suffix survives");
}

#[test]
fn reconciling_discards_a_log_that_cannot_confirm_the_boundary() {
    // The torn-write case: a snapshot landed at index 9 and the log write
    // that should have followed did not.
    let mut log = log_of(&[1, 1, 2]);
    log.reconcile_with_snapshot(LogId::new(9, 4));
    assert!(log.is_empty());
    assert_eq!(log.last_index(), 9);
    assert_eq!(log.term_at(9), Some(4));
}

#[test]
fn reconciling_is_idempotent() {
    let mut log = log_of(&[1, 1, 2, 2, 3]);
    log.reconcile_with_snapshot(LogId::new(3, 2));
    let once = log.clone();
    log.reconcile_with_snapshot(LogId::new(3, 2));
    assert_eq!(log, once, "running recovery twice must change nothing");
}

#[test]
fn index_zero_stops_being_an_anchor_once_the_log_is_compacted() {
    // The regression from seed 11278. On a fresh log, index 0 is the
    // sentinel that lets replication start from scratch. After compaction
    // it must answer `None`, or a leader probing at prevLogIndex 0 passes
    // the consistency check and the follower appends entries 1.. onto a log
    // that starts much later.
    let mut log = log_of(&[1, 1, 1]);
    assert_eq!(log.term_at(0), Some(0), "a fresh log anchors at 0");

    log.compact(LogId::new(2, 1));
    assert_eq!(log.term_at(0), None, "a compacted log must not anchor at 0");
    assert_eq!(log.term_at(1), None, "nor anywhere else below the boundary");
    assert_eq!(log.term_at(2), Some(1), "only at the boundary itself");
}

#[test]
fn compaction_keeps_the_boundary_answerable() {
    let mut log = log_of(&[1, 1, 2, 2, 3]);
    log.compact(LogId::new(3, 2));

    assert_eq!(log.first_index(), 4);
    assert_eq!(log.last_index(), 5);
    assert_eq!(log.len(), 2);
    // The boundary entry is gone but still describable, which is what the
    // prevLogIndex check needs.
    assert_eq!(log.term_at(3), Some(2));
    assert!(log.get(3).is_none());
    assert!(log.is_compacted(3));
    // Everything below it is genuinely unanswerable.
    assert_eq!(log.term_at(2), None);
    // And the surviving suffix is untouched.
    assert_eq!(log.term_at(4), Some(2));
    assert_eq!(log.term_at(5), Some(3));
    assert_eq!(log.last_log_id(), LogId::new(5, 3));
}

#[test]
fn compacting_the_whole_log_leaves_a_usable_boundary() {
    let mut log = log_of(&[1, 1, 2]);
    log.compact(LogId::new(3, 2));
    assert!(log.is_empty());
    assert_eq!(log.first_index(), 4);
    assert_eq!(log.last_index(), 3);
    assert_eq!(log.last_log_id(), LogId::new(3, 2));
    assert_eq!(log.term_at(3), Some(2));
}

#[test]
fn appending_after_compaction_is_contiguous() {
    let mut log = log_of(&[1, 1, 2]);
    log.compact(LogId::new(3, 2));
    log.append(&[entry(4, 3), entry(5, 3)]);
    assert_eq!(log.last_index(), 5);
    assert_eq!(log.entries_from(4, 10).len(), 2);
    assert_eq!(log.term_at(4), Some(3));
}

#[test]
fn compacting_backwards_is_a_noop() {
    let mut log = log_of(&[1, 1, 2, 2]);
    log.compact(LogId::new(3, 2));
    log.compact(LogId::new(1, 1));
    assert_eq!(
        log.first_index(),
        4,
        "an older snapshot must not un-compact"
    );
}

#[test]
fn resetting_replaces_the_whole_log() {
    let mut log = log_of(&[1, 1, 2]);
    log.reset_to(LogId::new(9, 4));
    assert!(log.is_empty());
    assert_eq!(log.last_index(), 9);
    assert_eq!(log.term_at(9), Some(4));
    assert_eq!(log.term_at(3), None, "the old history is gone");
    log.append(&[entry(10, 4)]);
    assert_eq!(log.last_index(), 10);
}

#[test]
fn a_conflict_hint_after_compaction_points_at_the_live_range() {
    let mut log = log_of(&[1, 1, 2, 2, 3]);
    log.compact(LogId::new(3, 2));
    // Probed below the snapshot: we cannot say anything about that term.
    let hint = log.conflict_hint(2);
    assert_eq!(hint.term, None);
    assert_eq!(hint.first_index, 4);
}

#[test]
fn last_index_of_term() {
    let log = log_of(&[1, 1, 2, 2, 3]);
    assert_eq!(log.last_index_of_term(1), Some(2));
    assert_eq!(log.last_index_of_term(2), Some(4));
    assert_eq!(log.last_index_of_term(9), None);
}

#[test]
fn a_non_contiguous_append_is_not_taken() {
    let mut log = log_of(&[1, 1, 1]);
    log.compact(LogId::new(3, 1));
    assert!(!log.takes(&[entry(1, 1)]));
    assert!(log.takes(&[entry(4, 1)]));
}
