//! The key-value store.
use raft_sim::kv::{KvCommand, KvResult, KvStore};

#[test]
fn put_then_get() {
    let mut kv = KvStore::new();
    assert_eq!(
        kv.apply(&KvCommand::Get { key: "a".into() }),
        KvResult::Value(None)
    );
    assert_eq!(
        kv.apply(&KvCommand::Put {
            key: "a".into(),
            value: "1".into()
        }),
        KvResult::Done
    );
    assert_eq!(
        kv.apply(&KvCommand::Get { key: "a".into() }),
        KvResult::Value(Some("1".into()))
    );
}

#[test]
fn cas_reports_the_actual_value_on_failure() {
    let mut kv = KvStore::new();
    kv.apply(&KvCommand::Put {
        key: "a".into(),
        value: "1".into(),
    });
    assert_eq!(
        kv.apply(&KvCommand::Cas {
            key: "a".into(),
            expect: Some("2".into()),
            value: "3".into()
        }),
        KvResult::CasFailed {
            actual: Some("1".into())
        }
    );
    assert_eq!(
        kv.apply(&KvCommand::Cas {
            key: "a".into(),
            expect: Some("1".into()),
            value: "3".into()
        }),
        KvResult::Done
    );
    assert_eq!(kv.get("a"), Some(&"3".to_string()));
}

#[test]
fn encoding_round_trips_and_is_stable() {
    let cmd = KvCommand::Put {
        key: "k".into(),
        value: "v".into(),
    };
    let a = cmd.encode();
    let b = cmd.encode();
    assert_eq!(a, b, "encoding must be byte-stable across calls");
    assert_eq!(KvCommand::decode(&a).unwrap(), cmd);
}

#[test]
fn a_retried_request_is_not_applied_twice() {
    let mut kv = KvStore::new();
    let cas = KvCommand::Cas {
        key: "a".into(),
        expect: None,
        value: "1".into(),
    };
    // First attempt succeeds.
    assert_eq!(kv.apply_for(Some((7, 0)), &cas), KvResult::Done);
    // The client never heard back and retries with the same sequence
    // number. Applied twice, this compare-and-set would fail the second
    // time and the client would be told something that never happened.
    assert_eq!(kv.apply_for(Some((7, 0)), &cas), KvResult::Done);
    assert_eq!(kv.get("a"), Some(&"1".to_string()));
}

#[test]
fn a_new_sequence_number_is_applied_normally() {
    let mut kv = KvStore::new();
    kv.apply_for(
        Some((7, 0)),
        &KvCommand::Put {
            key: "a".into(),
            value: "1".into(),
        },
    );
    kv.apply_for(
        Some((7, 1)),
        &KvCommand::Put {
            key: "a".into(),
            value: "2".into(),
        },
    );
    assert_eq!(kv.get("a"), Some(&"2".to_string()));
    assert_eq!(kv.last_seq(7), Some(1));
}

#[test]
fn clients_are_deduplicated_independently() {
    let mut kv = KvStore::new();
    let put = |v: &str| KvCommand::Put {
        key: "a".into(),
        value: v.into(),
    };
    kv.apply_for(Some((1, 0)), &put("from-1"));
    kv.apply_for(Some((2, 0)), &put("from-2"));
    assert_eq!(kv.get("a"), Some(&"from-2".to_string()));
    assert_eq!(kv.last_seq(1), Some(0));
    assert_eq!(kv.last_seq(2), Some(0));
}

#[test]
fn an_older_sequence_number_is_never_re_applied() {
    let mut kv = KvStore::new();
    let put = |v: &str| KvCommand::Put {
        key: "a".into(),
        value: v.into(),
    };
    kv.apply_for(Some((1, 5)), &put("five"));
    kv.apply_for(Some((1, 3)), &put("three"));
    assert_eq!(
        kv.get("a"),
        Some(&"five".to_string()),
        "a stale retry must not overwrite a newer write"
    );
}

#[test]
fn reads_do_not_consume_a_session_slot() {
    let mut kv = KvStore::new();
    kv.apply_for(
        Some((1, 0)),
        &KvCommand::Put {
            key: "a".into(),
            value: "1".into(),
        },
    );
    kv.apply_for(Some((1, 1)), &KvCommand::Get { key: "a".into() });
    // The write's dedup entry must survive its own client's reads.
    assert_eq!(kv.last_seq(1), Some(0));
    assert_eq!(
        kv.apply_for(
            Some((1, 0)),
            &KvCommand::Put {
                key: "a".into(),
                value: "z".into()
            }
        ),
        KvResult::Done
    );
    assert_eq!(
        kv.get("a"),
        Some(&"1".to_string()),
        "the retry was deduplicated"
    );
}

#[test]
fn commands_without_a_client_are_never_deduplicated() {
    let mut kv = KvStore::new();
    let put = KvCommand::Put {
        key: "a".into(),
        value: "1".into(),
    };
    assert_eq!(kv.apply_for(None, &put), KvResult::Done);
    assert_eq!(kv.apply_for(None, &put), KvResult::Done);
    assert!(kv.last_seq(0).is_none());
}

#[test]
fn replaying_the_same_commands_gives_the_same_state() {
    let cmds = vec![
        KvCommand::Put {
            key: "b".into(),
            value: "2".into(),
        },
        KvCommand::Put {
            key: "a".into(),
            value: "1".into(),
        },
        KvCommand::Delete { key: "b".into() },
        KvCommand::Cas {
            key: "a".into(),
            expect: Some("1".into()),
            value: "9".into(),
        },
    ];
    let mut x = KvStore::new();
    let mut y = KvStore::new();
    for c in &cmds {
        x.apply(c);
        y.apply(c);
    }
    assert_eq!(x, y);
    assert_eq!(x.snapshot().keys(), vec!["a"]);
}
