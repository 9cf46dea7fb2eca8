use vstd::prelude::*;

pub mod agenda;
pub mod args;
pub mod books;
pub mod checker_laws;
pub mod checker_memory;
pub mod chronicle;
pub mod clients;
pub mod cluster;
pub mod cluster_laws;
pub mod cluster_model;
pub mod config;
pub mod dimensions;
pub mod disk_laws;
pub mod disturbance;
pub mod duties;
pub mod event;
pub mod faults;
pub mod fingerprint;
pub mod fuzz;
pub mod happenings;
pub mod history;
pub mod invariants;
pub mod json;
pub mod kv;
pub mod kvmap;
pub mod linearizability;
pub mod locality;
pub mod log;
pub mod longest;
pub mod member;
pub mod message;
pub mod model;
pub mod network;
pub mod node;
pub mod node_laws;
pub mod observation;
pub mod order;
pub mod pace;
pub mod pages;
pub mod plain;
pub mod rand;
pub mod record;
pub mod remarks;
pub mod replay;
pub mod report;
pub mod safety;
pub mod same;
pub mod snapshot;
pub mod storage;
pub mod story;
pub mod survey;
pub mod switches;
pub mod text;
pub mod timeline;
pub mod totals;
pub mod trace;
pub mod trace_json;
pub mod tree;
pub mod verdicts;
pub mod watch;
pub mod watching;
pub mod workload;

pub use cluster::{
    AppliedEntry, ClientOutcome, Cluster, NodeStatus, OutcomeKind, RunStats, SimConfig,
};
pub use config::ClusterConfig;
pub use event::{Event, EventQueue};
pub use faults::{DiskConfig, Fault, FaultConfig, Partitions};
pub use history::{History, Operation, Outcome};
pub use invariants::{Invariant, Invariants, Violation};
pub use kv::{KvCommand, KvResult, KvStore};
pub use linearizability::Verdict;
pub use log::{EntryPayload, Log, LogEntry};
pub use message::{
    AppendEntriesReq, AppendEntriesResp, ConflictHint, InstallSnapshotReq, InstallSnapshotResp,
    RaftMessage, RequestVoteReq, RequestVoteResp,
};
pub use network::{LatencyModel, Network, NetworkConfig, NetworkStats, Routed};
pub use node::{
    BugSwitches, ClientRequest, ClientResult, Input, Output, PersistOp, RaftConfig, RaftNode, Role,
};
pub use rand::Rng;
pub use snapshot::Snapshot;
pub use storage::Storage;
pub use timeline::{Moment, Timeline};
pub use trace::{Trace, TraceKind, TraceRecord};
pub use workload::{ClientDriver, Request, Workload, WorkloadConfig};

verus! {

/// Identifies a node within a cluster. Small and ordered, so that it can key
/// an ordered map.
pub type NodeId = u32;

/// Raft term. Monotonically increasing; the logical clock of the algorithm.
pub type Term = u64;

/// 1-based log position. Index 0 is the "before the beginning" sentinel and
/// always has term 0, which lets the very first consistency check succeed
/// without a special case.
pub type Index = u64;

/// Virtual time, supplied by the simulator. Never derived from a wall clock.
pub type Tick = u64;

/// Identifies a logical client issuing requests.
pub type ClientId = u32;

/// A command handed to the replicated state machine. Opaque to the consensus
/// core, which must not know what is being agreed upon.
#[derive(Debug, PartialEq, Eq, PartialOrd, Ord, Hash)]
pub struct Command(pub Vec<u8>);

impl View for Command {
    type V = Seq<u8>;

    open spec fn view(&self) -> Seq<u8> {
        self.0@
    }
}

/// A copy of `bytes`.
pub(crate) fn copy_bytes(bytes: &Vec<u8>) -> (r: Vec<u8>)
    ensures
        r@ == bytes@,
{
    let r = bytes.clone();
    assert(r@ =~= bytes@);
    r
}

impl Clone for Command {
    fn clone(&self) -> (r: Self)
        ensures
            r@ == self@,
    {
        Command(copy_bytes(&self.0))
    }
}

/// A position in the log: an (index, term) pair.
///
/// A struct rather than a loose tuple because the election restriction
/// compares term first and index second, and swapping them is a silent safety
/// bug. The comparison is made in exactly one place.
#[derive(Clone, Copy, Debug, PartialEq, Eq, Structural)]
pub struct LogId {
    pub index: Index,
    pub term: Term,
}

impl Default for LogId {
    fn default() -> (r: Self)
        ensures
            r == LogId::zero(),
    {
        LogId { index: 0, term: 0 }
    }
}

impl LogId {
    /// The position before the beginning.
    #[verifier::allow_in_spec]
    pub fn zero() -> (r: LogId)
        returns
            (LogId { index: 0, term: 0 }),
    {
        LogId { index: 0, term: 0 }
    }

    pub fn new(index: Index, term: Term) -> (r: Self)
        ensures
            r == (LogId { index, term }),
    {
        LogId { index, term }
    }

    /// A log ending here could stand in for one ending at `other`: it ends in a
    /// later term, or in the same term and no earlier.
    pub open spec fn up_to_date_with(self, other: LogId) -> bool {
        self.term > other.term || (self.term == other.term && self.index >= other.index)
    }

    /// The election restriction: of two logs, the one whose last entry has the
    /// later term is more up-to-date; with equal terms, the longer one is.
    ///
    /// A voter refuses any candidate whose log could be missing a committed
    /// entry, so every leader's log contains all committed entries.
    pub fn at_least_as_up_to_date_as(&self, other: &LogId) -> (r: bool)
        ensures
            r == self.up_to_date_with(*other),
    {
        self.term > other.term || (self.term == other.term && self.index >= other.index)
    }
}

/// Up-to-date-ness is a total order: any two positions compare, and two that
/// compare both ways are the same position.
pub proof fn law_up_to_date_is_total(a: LogId, b: LogId, c: LogId)
    ensures
        a.up_to_date_with(b) || b.up_to_date_with(a),
        a.up_to_date_with(b) && b.up_to_date_with(a) ==> a == b,
        a.up_to_date_with(b) && b.up_to_date_with(c) ==> a.up_to_date_with(c),
{
}

} // verus!
