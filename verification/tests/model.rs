//! The single-key model.
use raft_sim::kv::{KvCommand, KvStore};
use raft_sim::linearizability::{apply, State};
use raft_sim::Rng;

/// The single-key model must agree with the real store, or the checker is
/// grading against the wrong answer key.
#[test]
fn agrees_with_the_real_store() {
    let mut rng = Rng::new(4);
    let mut model: State = None;
    let mut real = KvStore::new();
    for i in 0..5_000u64 {
        let cmd = match rng.gen_range(0, 4) {
            0 => KvCommand::Get { key: "k".into() },
            1 => KvCommand::Put {
                key: "k".into(),
                value: format!("v{i}"),
            },
            2 => KvCommand::Delete { key: "k".into() },
            _ => KvCommand::Cas {
                key: "k".into(),
                expect: if rng.chance(1, 2) {
                    None
                } else {
                    Some(format!("v{}", rng.gen_range(0, i.max(1))))
                },
                value: format!("w{i}"),
            },
        };
        assert_eq!(
            apply(&mut model, &cmd),
            real.apply(&cmd),
            "diverged at step {i}"
        );
        assert_eq!(model.as_ref(), real.get("k"), "state diverged at step {i}");
    }
}
