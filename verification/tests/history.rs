//! What clients saw.
use raft_sim::history::{History, Operation};
use raft_sim::kv::{KvCommand, KvResult};
use std::collections::BTreeMap;

fn put(key: &str, value: &str) -> KvCommand {
    KvCommand::Put {
        key: key.into(),
        value: value.into(),
    }
}

#[test]
fn an_operation_starts_pending() {
    let mut h = History::new();
    h.invoke(1, 0, put("a", "1"), 10);
    assert_eq!(h.pending(), 1);
    assert_eq!(h.completed(), 0);
    assert_eq!(h.operations()[0].responded(), None);
}

#[test]
fn completing_records_the_result_and_time() {
    let mut h = History::new();
    h.invoke(1, 0, put("a", "1"), 10);
    h.complete(1, 0, 25, KvResult::Done);
    assert_eq!(h.pending(), 0);
    assert_eq!(h.operations()[0].responded(), Some(25));
    assert_eq!(h.operations()[0].result(), Some(&KvResult::Done));
}

#[test]
fn a_second_response_does_not_overwrite_the_first() {
    // A later leader re-applying the same entry must not change what the
    // client was told it saw.
    let mut h = History::new();
    h.invoke(1, 0, KvCommand::Get { key: "a".into() }, 10);
    h.complete(1, 0, 20, KvResult::Value(Some("first".into())));
    h.complete(1, 0, 30, KvResult::Value(Some("second".into())));
    assert_eq!(
        h.operations()[0].result(),
        Some(&KvResult::Value(Some("first".into())))
    );
}

#[test]
fn a_rejection_is_not_the_same_as_silence() {
    let mut h = History::new();
    h.invoke(1, 0, put("a", "1"), 10);
    h.refuse(1, 0);
    h.abandon(1, 0, 12);
    h.invoke(1, 1, put("a", "2"), 20);
    assert_eq!(h.rejected(), 1);
    assert_eq!(h.pending(), 1);
}

#[test]
fn a_retry_extends_the_operation_rather_than_creating_one() {
    let mut h = History::new();
    h.invoke(1, 0, put("a", "1"), 10);
    h.invoke(1, 0, put("a", "1"), 50);
    h.invoke(1, 0, put("a", "1"), 90);
    assert_eq!(h.len(), 1, "a retry is the same logical operation");
    assert_eq!(
        h.operations()[0].invoked,
        10,
        "invoked at the FIRST attempt"
    );
    assert_eq!(h.operations()[0].attempts, 3);

    h.complete(1, 0, 120, KvResult::Done);
    assert_eq!(h.operations()[0].responded(), Some(120));
}

#[test]
fn abandoning_after_a_silent_attempt_stays_pending() {
    let mut h = History::new();
    h.invoke(1, 0, put("a", "1"), 10);
    h.refuse(1, 0);
    // A second attempt went unanswered: it may have committed after all.
    h.invoke(1, 0, put("a", "1"), 50);
    h.abandon(1, 0, 90);
    assert_eq!(h.pending(), 1, "silence is not a refusal");
    assert_eq!(h.rejected(), 0);
}

#[test]
fn a_new_sequence_number_after_completion_is_a_new_operation() {
    let mut h = History::new();
    h.invoke(1, 0, put("a", "1"), 10);
    h.complete(1, 0, 20, KvResult::Done);
    h.invoke(1, 1, put("a", "2"), 30);
    assert_eq!(h.len(), 2);
}

#[test]
fn responses_to_unknown_requests_are_ignored() {
    let mut h = History::new();
    h.complete(9, 9, 5, KvResult::Done);
    assert!(h.is_empty());
}

#[test]
fn keys_split_into_independent_sub_histories() {
    let mut h = History::new();
    h.invoke(1, 0, put("a", "1"), 1);
    h.invoke(1, 1, put("b", "2"), 2);
    h.invoke(2, 0, put("a", "3"), 3);
    let by_key: BTreeMap<String, Vec<&Operation>> = h.by_key().into_iter().collect();
    assert_eq!(by_key.len(), 2);
    assert_eq!(by_key["a"].len(), 2);
    assert_eq!(by_key["b"].len(), 1);
}
