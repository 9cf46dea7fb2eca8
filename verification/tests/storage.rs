//! Durable storage, on its own.

use raft_sim::{Command, ClusterConfig, EntryPayload, LogEntry, LogId, PersistOp, Snapshot, Storage};

fn entry(index: u64, term: u64) -> LogEntry {
    LogEntry {
        term,
        index,
        payload: EntryPayload::Command(Command(vec![index as u8])),
        client: None,
    }
}

fn snapshot(index: u64, term: u64) -> Snapshot {
    Snapshot {
        last_included: LogId::new(index, term),
        config: ClusterConfig::new(&[0, 1, 2]),
        data: Vec::new(),
    }
}

fn filled() -> Storage {
    let mut disk = Storage::new();
    disk.apply(&PersistOp::HardState {
        current_term: 3,
        voted_for: Some(1),
    });
    disk.apply(&PersistOp::Append(vec![entry(1, 1), entry(2, 2), entry(3, 3)]));
    disk
}

#[test]
fn writes_land_and_are_counted() {
    let mut disk = filled();
    assert_eq!((disk.current_term, disk.voted_for), (3, Some(1)));
    assert_eq!(disk.last_index(), 3);
    assert_eq!(disk.writes, 2);
    disk.apply(&PersistOp::TruncateFrom(3));
    assert_eq!(disk.last_index(), 2);
    disk.apply(&PersistOp::Compact(LogId::new(1, 1)));
    assert_eq!(disk.last_index(), 2);
    assert_eq!(disk.log.term_at(1), Some(1));
    disk.apply(&PersistOp::ResetLog(LogId::new(9, 4)));
    assert_eq!(disk.last_index(), 9);
    assert_eq!(disk.log.term_at(2), None);
    assert_eq!(disk.writes, 5);
}

#[test]
fn a_write_that_leaves_a_gap_does_not_fit() {
    let disk = filled();
    assert!(disk.takes(&PersistOp::Append(vec![entry(4, 3)])));
    assert!(!disk.takes(&PersistOp::Append(vec![entry(5, 3)])));
    assert!(!disk.takes(&PersistOp::Compact(LogId::new(u64::MAX, 3))));
    assert!(disk.takes(&PersistOp::TruncateFrom(1)));
}

#[test]
fn recovery_fixes_the_log_up_against_the_snapshot() {
    // The snapshot landed, the compaction that belongs to it did not.
    let mut disk = filled();
    disk.apply(&PersistOp::Snapshot(snapshot(2, 2)));
    let mut skipped = disk.clone();
    skipped.recover(false);
    assert_eq!(skipped.log.term_at(1), Some(1));

    disk.recover(true);
    assert_eq!(disk.log.term_at(1), None);
    assert_eq!(disk.log.term_at(2), Some(2));
    assert_eq!(disk.last_index(), 3);

    // Once more changes nothing.
    let once = disk.clone();
    disk.recover(true);
    assert_eq!(disk, once);

    // A snapshot that the log does not agree with replaces it.
    disk.apply(&PersistOp::Snapshot(snapshot(7, 5)));
    disk.recover(true);
    assert_eq!(disk.last_index(), 7);
    assert_eq!(disk.log.term_at(3), None);
}

#[test]
fn without_a_snapshot_recovery_does_nothing() {
    let mut disk = filled();
    let before = disk.clone();
    disk.recover(true);
    assert_eq!(disk, before);
    assert_eq!(Storage::default(), Storage::new());
}
