//! Simulated durable storage.
//!
//! One of these per node. It is the *only* thing that survives a crash, which
//! is what makes crash tests meaningful.
use crate::log::LogView;
use crate::model::PersistView;
use crate::snapshot::SnapshotView;
use crate::{Index, Log, NodeId, PersistOp, Snapshot, Term};
use vstd::prelude::*;

verus! {

#[derive(Debug, PartialEq, Eq)]
pub struct Storage {
    pub current_term: Term,
    pub voted_for: Option<NodeId>,
    pub log: Log,
    /// The most recent state machine snapshot. Durable, because after
    /// compaction it is the only record of everything below the log's start.
    pub snapshot: Option<Snapshot>,
    /// How many persist operations have hit this disk.
    pub writes: u64,
}

/// A disk as a mathematical value.
pub struct DiskView {
    pub current_term: u64,
    pub voted_for: Option<u32>,
    pub log: LogView,
    pub snapshot: Option<SnapshotView>,
    pub writes: u64,
}

impl View for Storage {
    type V = DiskView;

    open spec fn view(&self) -> DiskView {
        DiskView {
            current_term: self.current_term,
            voted_for: self.voted_for,
            log: self.log@,
            snapshot: crate::snapshot::snapshot_view(self.snapshot),
            writes: self.writes,
        }
    }
}

impl DiskView {
    pub open spec fn empty() -> DiskView {
        DiskView {
            current_term: 0,
            voted_for: None,
            log: LogView::empty(),
            snapshot: None,
            writes: 0,
        }
    }

    pub open spec fn wf(self) -> bool {
        &&& self.log.wf()
        &&& self.snapshot matches Some(s) ==> s.last_included.index < u64::MAX
    }

    /// The write fits: what it appends continues the log.
    pub open spec fn takes(self, op: PersistView) -> bool {
        match op {
            PersistView::Append(entries) => self.log.appendable(entries),
            PersistView::Snapshot(s) => s.last_included.index < u64::MAX,
            PersistView::Compact(through) => through.index < u64::MAX,
            PersistView::ResetLog(through) => through.index < u64::MAX,
            _ => true,
        }
    }

    /// The disk after one write.
    pub open spec fn written(self, op: PersistView) -> DiskView {
        let counted = DiskView { writes: self.writes.saturating_add(1), ..self };
        match op {
            PersistView::HardState { current_term, voted_for } => DiskView {
                current_term,
                voted_for,
                ..counted
            },
            PersistView::Append(entries) => DiskView { log: self.log.append(entries), ..counted },
            PersistView::TruncateFrom(index) => DiskView {
                log: self.log.truncate_from(index),
                ..counted
            },
            PersistView::Snapshot(s) => DiskView { snapshot: Some(s), ..counted },
            PersistView::Compact(through) => DiskView {
                log: self.log.compact(through),
                ..counted
            },
            PersistView::ResetLog(through) => DiskView {
                log: self.log.reset_to(through),
                ..counted
            },
        }
    }

    /// The disk after startup: the log fixed up against the snapshot.
    pub open spec fn recovered(self, reconcile: bool) -> DiskView {
        match self.snapshot {
            Some(s) if reconcile => DiskView { log: self.log.reconcile(s.last_included), ..self },
            _ => self,
        }
    }
}

/// Recovering twice is recovering once: a crash during recovery does no harm.
pub proof fn law_recovery_is_idempotent(disk: DiskView, reconcile: bool)
    requires
        disk.wf(),
    ensures
        disk.recovered(reconcile).wf(),
        disk.recovered(reconcile).recovered(reconcile) == disk.recovered(reconcile),
{
    match disk.snapshot {
        Some(s) => {
            if reconcile {
                crate::log::lemma_reconcile_idempotent(disk.log, s.last_included);
            }
        },
        None => {},
    }
}

/// A copy of an optional snapshot.
pub(crate) fn copy_snapshot(s: &Option<Snapshot>) -> (r: Option<Snapshot>)
    ensures
        crate::snapshot::snapshot_view(r) == crate::snapshot::snapshot_view(*s),
{
    match s {
        Some(snapshot) => Some(snapshot.clone()),
        None => None,
    }
}

impl Clone for Storage {
    fn clone(&self) -> (r: Self)
        ensures
            r@ == self@,
    {
        Storage {
            current_term: self.current_term,
            voted_for: self.voted_for,
            log: self.log.clone(),
            snapshot: copy_snapshot(&self.snapshot),
            writes: self.writes,
        }
    }
}

impl Default for Storage {
    fn default() -> (r: Self)
        ensures
            r@ == DiskView::empty(),
    {
        Storage::new()
    }
}

impl Storage {
    pub fn new() -> (r: Self)
        ensures
            r@ == DiskView::empty(),
            r@.wf(),
    {
        Storage { current_term: 0, voted_for: None, log: Log::new(), snapshot: None, writes: 0 }
    }

    /// Can this write be made?
    pub fn takes(&self, op: &PersistOp) -> (r: bool)
        requires
            self@.wf(),
        ensures
            r == self@.takes(op@),
    {
        match op {
            PersistOp::HardState { current_term: _, voted_for: _ } => true,
            PersistOp::Append(entries) => self.log.takes(entries.as_slice()),
            PersistOp::TruncateFrom(_) => true,
            PersistOp::Snapshot(snapshot) => snapshot.last_included.index < u64::MAX,
            PersistOp::Compact(through) => through.index < u64::MAX,
            PersistOp::ResetLog(through) => through.index < u64::MAX,
        }
    }

    pub fn apply(&mut self, op: &PersistOp)
        requires
            old(self)@.wf(),
            old(self)@.takes(op@),
        ensures
            final(self)@ == old(self)@.written(op@),
            final(self)@.wf(),
    {
        self.writes = self.writes.saturating_add(1);
        match op {
            PersistOp::HardState { current_term, voted_for } => {
                self.current_term = *current_term;
                self.voted_for = *voted_for;
            },
            PersistOp::Append(entries) => self.log.append(entries.as_slice()),
            PersistOp::TruncateFrom(index) => self.log.truncate_from(*index),
            PersistOp::Snapshot(snapshot) => self.snapshot = Some(snapshot.clone()),
            PersistOp::Compact(through) => self.log.compact(*through),
            PersistOp::ResetLog(through) => self.log.reset_to(*through),
        }
    }

    /// Fix the durable log up against the durable snapshot, the way a real
    /// implementation does on startup.
    ///
    /// These are two separate artifacts and a crash can land between writing
    /// them. Doing this on the disk rather than only on the recovered node
    /// matters: the node's log and this one have to stay in step, or the very
    /// next append lands at an index the durable log is not expecting.
    pub fn recover(&mut self, reconcile: bool)
        requires
            old(self)@.wf(),
        ensures
            final(self)@ == old(self)@.recovered(reconcile),
            final(self)@.wf(),
    {
        if !reconcile {
            return;
        }
        let boundary = match &self.snapshot {
            Some(snapshot) => Some(snapshot.last_included),
            None => None,
        };
        match boundary {
            Some(b) => self.log.reconcile_with_snapshot(b),
            None => {},
        }
    }

    pub fn last_index(&self) -> (r: Index)
        requires
            self@.wf(),
        ensures
            r == self@.log.last_index(),
    {
        self.log.last_index()
    }
}

} // verus!
