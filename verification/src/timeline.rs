//! A record of the moments worth looking at.
//!
//! The full trace holds everything, which is exactly what a determinism check
//! needs and exactly what a scrubbable timeline does not. This is the other
//! view: the handful of events a person would point at, with the tick to jump
//! to. Bounded on purpose.
use crate::{Index, NodeId, Term, Tick};
use std::collections::{BTreeMap, VecDeque};
use vstd::prelude::*;

verus! {

broadcast use {vstd::laws_cmp::group_laws_cmp, vstd::std_specs::btree::group_btree_axioms};

/// The most entries kept. Older ones are dropped, except that violations are
/// also mirrored into a list of their own so a failure is never scrolled away.
pub const CAPACITY: usize = 2_000;

/// A commit index is worth a moment when it crosses a multiple of this.
pub const COMMIT_STEP: u64 = 5;

#[derive(Debug, PartialEq, Eq)]
pub enum Moment {
    ElectionStarted { node: NodeId, term: Term },
    LeaderElected { node: NodeId, term: Term },
    /// A leader's commit index moved. Recorded sparsely: every commit would
    /// swamp everything else.
    Committed { node: NodeId, index: Index },
    LogTruncated { node: NodeId, from: Index, entries: u64 },
    Fault { description: String },
    Crashed { node: NodeId },
    Restarted { node: NodeId },
    SnapshotTaken { node: NodeId, through: Index },
    SnapshotInstalled { node: NodeId, through: Index },
    MembershipChanged { voters: Vec<NodeId> },
    /// A safety violation. Always kept.
    Violation { property: String, detail: String },
}

pub enum MomentView {
    ElectionStarted { node: u32, term: u64 },
    LeaderElected { node: u32, term: u64 },
    Committed { node: u32, index: u64 },
    LogTruncated { node: u32, from: u64, entries: u64 },
    Fault { description: Seq<char> },
    Crashed { node: u32 },
    Restarted { node: u32 },
    SnapshotTaken { node: u32, through: u64 },
    SnapshotInstalled { node: u32, through: u64 },
    MembershipChanged { voters: Seq<u32> },
    Violation { property: Seq<char>, detail: Seq<char> },
}

impl View for Moment {
    type V = MomentView;

    open spec fn view(&self) -> MomentView {
        match *self {
            Moment::ElectionStarted { node, term } => MomentView::ElectionStarted { node, term },
            Moment::LeaderElected { node, term } => MomentView::LeaderElected { node, term },
            Moment::Committed { node, index } => MomentView::Committed { node, index },
            Moment::LogTruncated { node, from, entries } => MomentView::LogTruncated {
                node,
                from,
                entries,
            },
            Moment::Fault { description } => MomentView::Fault { description: description@ },
            Moment::Crashed { node } => MomentView::Crashed { node },
            Moment::Restarted { node } => MomentView::Restarted { node },
            Moment::SnapshotTaken { node, through } => MomentView::SnapshotTaken { node, through },
            Moment::SnapshotInstalled { node, through } => MomentView::SnapshotInstalled {
                node,
                through,
            },
            Moment::MembershipChanged { voters } => MomentView::MembershipChanged {
                voters: voters@,
            },
            Moment::Violation { property, detail } => MomentView::Violation {
                property: property@,
                detail: detail@,
            },
        }
    }
}

impl Clone for Moment {
    fn clone(&self) -> (r: Self)
        ensures
            r@ == self@,
    {
        match self {
            Moment::ElectionStarted { node, term } => Moment::ElectionStarted {
                node: *node,
                term: *term,
            },
            Moment::LeaderElected { node, term } => Moment::LeaderElected {
                node: *node,
                term: *term,
            },
            Moment::Committed { node, index } => Moment::Committed { node: *node, index: *index },
            Moment::LogTruncated { node, from, entries } => Moment::LogTruncated {
                node: *node,
                from: *from,
                entries: *entries,
            },
            Moment::Fault { description } => Moment::Fault { description: description.clone() },
            Moment::Crashed { node } => Moment::Crashed { node: *node },
            Moment::Restarted { node } => Moment::Restarted { node: *node },
            Moment::SnapshotTaken { node, through } => Moment::SnapshotTaken {
                node: *node,
                through: *through,
            },
            Moment::SnapshotInstalled { node, through } => Moment::SnapshotInstalled {
                node: *node,
                through: *through,
            },
            Moment::MembershipChanged { voters } => Moment::MembershipChanged {
                voters: crate::faults::copy_ids(voters.as_slice()),
            },
            Moment::Violation { property, detail } => Moment::Violation {
                property: property.clone(),
                detail: detail.clone(),
            },
        }
    }
}

impl MomentView {
    pub open spec fn severity(self) -> Seq<char> {
        match self {
            MomentView::Violation { property, detail } => "violation"@,
            MomentView::LogTruncated { node, from, entries } => "fault"@,
            MomentView::Crashed { node } => "fault"@,
            MomentView::Fault { description } => "fault"@,
            MomentView::LeaderElected { node, term } => "leadership"@,
            MomentView::MembershipChanged { voters } => "leadership"@,
            _ => "info"@,
        }
    }
}

impl Moment {
    /// Rough importance, to decide what to show when space is tight.
    pub fn severity(&self) -> (r: &'static str)
        ensures
            r@ == self@.severity(),
    {
        match self {
            Moment::Violation { property: _, detail: _ } => "violation",
            Moment::LogTruncated { node: _, from: _, entries: _ } => "fault",
            Moment::Crashed { node: _ } => "fault",
            Moment::Fault { description: _ } => "fault",
            Moment::LeaderElected { node: _, term: _ } => "leadership",
            Moment::MembershipChanged { voters: _ } => "leadership",
            _ => "info",
        }
    }
}

#[derive(Debug, PartialEq, Eq)]
pub struct Entry {
    pub tick: Tick,
    pub moment: Moment,
}

pub struct MarkView {
    pub tick: u64,
    pub moment: MomentView,
}

impl View for Entry {
    type V = MarkView;

    open spec fn view(&self) -> MarkView {
        MarkView { tick: self.tick, moment: self.moment@ }
    }
}

impl Clone for Entry {
    fn clone(&self) -> (r: Self)
        ensures
            r@ == self@,
    {
        Entry { tick: self.tick, moment: self.moment.clone() }
    }
}

/// A timeline as a mathematical value.
#[verifier::ext_equal]
pub struct TimelineView {
    pub entries: Seq<MarkView>,
    pub violations: Seq<MarkView>,
    /// The last commit index seen per node.
    pub last_commit: Map<u32, u64>,
    pub dropped: u64,
}

pub open spec fn marks_view(s: Seq<Entry>) -> Seq<MarkView> {
    Seq::new(s.len(), |i: int| s[i]@)
}

impl TimelineView {
    pub open spec fn empty() -> TimelineView {
        TimelineView {
            entries: Seq::empty(),
            violations: Seq::empty(),
            last_commit: Map::empty(),
            dropped: 0,
        }
    }

    /// No more than the capacity is kept.
    pub open spec fn bounded(self) -> bool {
        self.entries.len() <= CAPACITY
    }

    pub open spec fn push(self, tick: u64, moment: MomentView) -> TimelineView {
        let mark = MarkView { tick, moment };
        let entries = self.entries.push(mark);
        TimelineView {
            entries: if entries.len() > CAPACITY {
                entries.skip(1)
            } else {
                entries
            },
            violations: if moment is Violation {
                self.violations.push(mark)
            } else {
                self.violations
            },
            dropped: if entries.len() > CAPACITY {
                self.dropped.saturating_add(1)
            } else {
                self.dropped
            },
            ..self
        }
    }

    pub open spec fn committed(self, node: u32) -> u64 {
        if self.last_commit.contains_key(node) {
            self.last_commit[node]
        } else {
            0
        }
    }

    /// A commit index counts only when it advances, and is recorded only when
    /// it crosses a step.
    pub open spec fn note_commit(self, tick: u64, node: u32, index: u64) -> TimelineView {
        let last = self.committed(node);
        if index <= last {
            self
        } else {
            let noted = TimelineView { last_commit: self.last_commit.insert(node, index), ..self };
            if index / COMMIT_STEP > last / COMMIT_STEP || index - last >= COMMIT_STEP {
                noted.push(tick, MomentView::Committed { node, index })
            } else {
                noted
            }
        }
    }
}

/// A violation is never scrolled away, and the newest moment is always there.
pub proof fn law_violations_are_kept(t: TimelineView, tick: u64, moment: MomentView)
    requires
        t.bounded(),
    ensures
        t.push(tick, moment).bounded(),
        t.push(tick, moment).entries.last() == (MarkView { tick, moment }),
        t.push(tick, moment).violations.len() >= t.violations.len(),
        forall|i: int|
            0 <= i < t.violations.len() ==> #[trigger] t.push(tick, moment).violations[i]
                == t.violations[i],
        moment is Violation ==> t.push(tick, moment).violations.last() == (MarkView {
            tick,
            moment,
        }),
{
}

/// A commit that does not advance records nothing.
pub proof fn law_commits_only_advance(t: TimelineView, tick: u64, node: u32, index: u64)
    ensures
        index <= t.committed(node) ==> t.note_commit(tick, node, index) == t,
        t.note_commit(tick, node, index).committed(node) >= t.committed(node),
        t.note_commit(tick, node, index).entries.len() <= t.entries.len() + 1,
{
}

#[derive(Debug)]
pub struct Timeline {
    entries: VecDeque<Entry>,
    violations: Vec<Entry>,
    last_commit: BTreeMap<NodeId, Index>,
    dropped: u64,
}

impl View for Timeline {
    type V = TimelineView;

    closed spec fn view(&self) -> TimelineView {
        TimelineView {
            entries: marks_view(self.entries@),
            violations: marks_view(self.violations@),
            last_commit: self.last_commit@,
            dropped: self.dropped,
        }
    }
}

impl Default for Timeline {
    fn default() -> (r: Self)
        ensures
            r@ == TimelineView::empty(),
    {
        Timeline::new()
    }
}

impl Timeline {
    pub fn new() -> (r: Self)
        ensures
            r@ == TimelineView::empty(),
    {
        let r = Timeline {
            entries: VecDeque::new(),
            violations: Vec::new(),
            last_commit: BTreeMap::new(),
            dropped: 0,
        };
        assert(r@ =~= TimelineView::empty());
        r
    }

    pub fn push(&mut self, tick: Tick, moment: Moment)
        ensures
            final(self)@ == old(self)@.push(tick, moment@),
    {
        let ghost was = *self;
        let ghost mark = MarkView { tick, moment: moment@ };
        let is_violation = match &moment {
            Moment::Violation { property: _, detail: _ } => true,
            _ => false,
        };
        if is_violation {
            self.violations.push(Entry { tick, moment: moment.clone() });
            assert(marks_view(self.violations@) =~= marks_view(was.violations@).push(mark));
        }
        self.entries.push_back(Entry { tick, moment });
        let ghost grown = self.entries@;
        assert(marks_view(grown) =~= marks_view(was.entries@).push(mark));
        if self.entries.len() > CAPACITY {
            let _ = self.entries.pop_front();
            self.dropped = self.dropped.saturating_add(1);
            assert(marks_view(self.entries@) =~= marks_view(grown).skip(1));
        }
        assert(self@ =~= old(self)@.push(tick, mark.moment));
    }

    /// Record a commit only when it advances, and only in steps, so a busy
    /// leader does not bury everything else.
    pub fn note_commit(&mut self, tick: Tick, node: NodeId, index: Index)
        ensures
            final(self)@ == old(self)@.note_commit(tick, node, index),
    {
        let last: u64 = match self.last_commit.get(&node) {
            Some(l) => *l,
            None => 0,
        };
        if index <= last {
            return;
        }
        self.last_commit.insert(node, index);
        if index / COMMIT_STEP > last / COMMIT_STEP || index - last >= COMMIT_STEP {
            self.push(tick, Moment::Committed { node, index });
        }
    }

    /// What is kept, oldest first.
    pub fn entries(&self) -> (r: &VecDeque<Entry>)
        ensures
            marks_view(r@) == self@.entries,
    {
        &self.entries
    }

    pub fn violations(&self) -> (r: &[Entry])
        ensures
            marks_view(r@) == self@.violations,
    {
        self.violations.as_slice()
    }

    pub fn len(&self) -> (r: usize)
        ensures
            r == self@.entries.len(),
    {
        self.entries.len()
    }

    pub fn is_empty(&self) -> (r: bool)
        ensures
            r == (self@.entries.len() == 0),
    {
        self.entries.len() == 0
    }

    pub fn dropped(&self) -> (r: u64)
        ensures
            r == self@.dropped,
    {
        self.dropped
    }
}

} // verus!
