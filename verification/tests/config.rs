//! Cluster membership and quorums.
use raft_sim::{ClusterConfig, NodeId};
use std::collections::BTreeSet;

fn set(ids: &[NodeId]) -> BTreeSet<NodeId> {
    ids.iter().copied().collect()
}

#[test]
fn simple_quorums() {
    let cfg = ClusterConfig::new(&[0, 1, 2]);
    assert!(!cfg.is_quorum(&set(&[0])));
    assert!(cfg.is_quorum(&set(&[0, 1])));
    assert!(cfg.is_quorum(&set(&[0, 1, 2])));
}

#[test]
fn a_single_node_is_its_own_majority() {
    assert!(ClusterConfig::new(&[0]).is_quorum(&set(&[0])));
}

#[test]
fn votes_from_outside_the_configuration_do_not_count() {
    let cfg = ClusterConfig::new(&[0, 1, 2]);
    assert!(!cfg.is_quorum(&set(&[0, 7, 8])));
}

/// The heart of §6: a joint configuration needs both halves, separately.
#[test]
fn a_joint_configuration_needs_a_majority_of_each_half() {
    // Moving from {0,1,2} to {2,3,4}: the halves overlap only at node 2.
    let cfg = ClusterConfig::joint(&[0, 1, 2], &[2, 3, 4]);

    // A majority of C_old alone is not enough.
    assert!(!cfg.is_quorum(&set(&[0, 1])));
    // Nor a majority of C_new alone.
    assert!(!cfg.is_quorum(&set(&[3, 4])));
    // Both halves, separately, is what works.
    assert!(cfg.is_quorum(&set(&[0, 1, 3, 4])));
    assert!(cfg.is_quorum(&set(&[0, 2, 3])));
}

#[test]
fn a_lopsided_union_majority_is_not_a_joint_quorum() {
    // Growing {0,1,2} to {0,1,2,3,4,5,6}. Five of the nine distinct voters
    // is a union majority, but if they are all from C_old it is only 3 of 7
    // in C_new.
    let cfg = ClusterConfig::joint(&[0, 1, 2], &[0, 1, 2, 3, 4, 5, 6]);
    assert!(
        !cfg.is_quorum(&set(&[0, 1, 2])),
        "3 of 7 in C_new is not a majority"
    );
    assert!(cfg.is_quorum(&set(&[0, 1, 2, 3, 4])));
}

#[test]
fn a_joint_configuration_spans_both_halves() {
    let cfg = ClusterConfig::joint(&[0, 1, 2], &[2, 3, 4]);
    assert_eq!(cfg.voters(), set(&[0, 1, 2, 3, 4]));
    // A node joining votes from the moment the joint entry is appended.
    assert!(cfg.contains(4));
    // And a node leaving keeps voting until C_new commits.
    assert!(cfg.contains(0));
    assert!(!cfg.contains(9));
}

#[test]
fn transitioning_drops_the_old_half() {
    let cfg = ClusterConfig::joint(&[0, 1, 2], &[2, 3, 4]);
    let new = cfg.to_new().expect("joint configurations transition");
    assert!(!new.is_joint());
    assert_eq!(new.voters(), set(&[2, 3, 4]));
    assert!(!new.contains(0), "the departing node is gone");
}

#[test]
fn a_simple_configuration_has_nothing_to_transition_to() {
    assert!(ClusterConfig::new(&[0, 1, 2]).to_new().is_none());
}

#[test]
fn disjoint_halves_still_need_both() {
    // The worst case for the naive approach: no overlap at all.
    let cfg = ClusterConfig::joint(&[0, 1, 2], &[3, 4, 5]);
    assert!(!cfg.is_quorum(&set(&[0, 1, 2])));
    assert!(!cfg.is_quorum(&set(&[3, 4, 5])));
    assert!(cfg.is_quorum(&set(&[0, 1, 3, 4])));
}
