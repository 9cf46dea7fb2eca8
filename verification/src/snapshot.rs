//! Snapshots.
//!
//! Compaction discards a prefix that the state machine has already absorbed,
//! but the leader still has to answer for the entry immediately before whatever
//! it sends next. That is what `last_included` remembers.
use crate::config::ConfigView;
use crate::{ClusterConfig, Index, LogId, Term};
use vstd::prelude::*;

verus! {

/// The state machine's state as of `last_included`, plus what Raft needs to
/// keep talking about the log after the prefix is gone.
#[derive(Debug, PartialEq, Eq)]
pub struct Snapshot {
    /// The last entry this snapshot accounts for.
    pub last_included: LogId,
    /// The membership in force at `last_included`. A node recovering from a
    /// snapshot has discarded every config entry below the boundary.
    pub config: ClusterConfig,
    /// Opaque state machine bytes.
    pub data: Vec<u8>,
}

pub struct SnapshotView {
    pub last_included: LogId,
    pub config: ConfigView,
    pub data: Seq<u8>,
}

impl View for Snapshot {
    type V = SnapshotView;

    open spec fn view(&self) -> SnapshotView {
        SnapshotView {
            last_included: self.last_included,
            config: self.config@,
            data: self.data@,
        }
    }
}

/// An optional snapshot, by its view.
pub open spec fn snapshot_view(s: Option<Snapshot>) -> Option<SnapshotView> {
    match s {
        None => None,
        Some(s) => Some(s@),
    }
}

impl Clone for Snapshot {
    fn clone(&self) -> (r: Self)
        ensures
            r@ == self@,
    {
        Snapshot {
            last_included: self.last_included,
            config: self.config.clone(),
            data: crate::copy_bytes(&self.data),
        }
    }
}

impl Snapshot {
    pub fn new(last_included: LogId, config: ClusterConfig, data: Vec<u8>) -> (r: Self)
        ensures
            r@ == (SnapshotView { last_included, config: config@, data: data@ }),
    {
        Snapshot { last_included, config, data }
    }

    pub fn index(&self) -> (r: Index)
        ensures
            r == self@.last_included.index,
    {
        self.last_included.index
    }

    pub fn term(&self) -> (r: Term)
        ensures
            r == self@.last_included.term,
    {
        self.last_included.term
    }

    pub fn len(&self) -> (r: usize)
        ensures
            r == self@.data.len(),
    {
        self.data.len()
    }

    pub fn is_empty(&self) -> (r: bool)
        ensures
            r == (self@.data.len() == 0),
    {
        self.data.len() == 0
    }
}

} // verus!
