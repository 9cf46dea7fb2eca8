//! Run traces.
//!
//! The trace records every input delivered to every node and every output that
//! node produced, tagged with the virtual time and the event sequence number.
//! Two runs of the same seed must produce byte-identical traces.
use crate::faults::{Fault, FaultView};
use crate::invariants::{fnv, FNV_OFFSET};
use crate::json::{laid_out, Json};
use crate::kv::{CommandView, KvCommand, KvResult, ResultView};
use crate::model::{InputView, OutputView};
use crate::same::same_record;
use crate::trace_json::records_text;
use crate::{Index, Input, NodeId, Output, Term, Tick};
use vstd::prelude::*;

verus! {

#[allow(inconsistent_fields)]
#[derive(Debug, PartialEq, Eq)]
pub enum TraceKind {
    /// An input was delivered to a node.
    In(Input),
    /// A node produced an output.
    Out(Output),
    /// A message was created but the network swallowed it.
    Dropped { to: NodeId },
    /// The network delivered a copy of this message as well.
    Duplicated { to: NodeId },
    /// A message was blocked by a partition rather than randomly lost.
    Partitioned { to: NodeId },
    /// A message arrived for a node that was not there to receive it.
    LostToCrash { from: NodeId },
    /// A node replaced its state machine from a leader's snapshot.
    SnapshotInstalled { through: Index, bytes: usize },
    /// A node died. Everything not on its disk is gone.
    Crashed,
    /// A step was torn: some prefix of its writes landed and the process died
    /// before sending anything.
    TornStep,
    /// A node came back, rebuilt from its durable state alone.
    Restarted { current_term: Term, voted_for: Option<NodeId>, last_index: Index },
    /// The network was disturbed or repaired.
    Fault { fault: Fault },
    /// A membership change was requested.
    MembershipChange { voters: Vec<NodeId> },
    /// A read was answered without entering the log.
    ReadServed { read_index: Index, result: KvResult },
    /// An entry reached the replicated state machine.
    Applied {
        index: Index,
        term: Term,
        command: Option<KvCommand>,
        result: Option<KvResult>,
    },
}

#[allow(inconsistent_fields)]
pub enum KindView {
    In(InputView),
    Out(OutputView),
    Dropped { to: u32 },
    Duplicated { to: u32 },
    Partitioned { to: u32 },
    LostToCrash { from: u32 },
    SnapshotInstalled { through: u64, bytes: usize },
    Crashed,
    TornStep,
    Restarted { current_term: u64, voted_for: Option<u32>, last_index: u64 },
    Fault { fault: FaultView },
    MembershipChange { voters: Seq<u32> },
    ReadServed { read_index: u64, result: ResultView },
    Applied {
        index: u64,
        term: u64,
        command: Option<CommandView>,
        result: Option<ResultView>,
    },
}

impl View for TraceKind {
    type V = KindView;

    open spec fn view(&self) -> KindView {
        match *self {
            TraceKind::In(input) => KindView::In(input@),
            TraceKind::Out(output) => KindView::Out(output@),
            TraceKind::Dropped { to } => KindView::Dropped { to },
            TraceKind::Duplicated { to } => KindView::Duplicated { to },
            TraceKind::Partitioned { to } => KindView::Partitioned { to },
            TraceKind::LostToCrash { from } => KindView::LostToCrash { from },
            TraceKind::SnapshotInstalled { through, bytes } => KindView::SnapshotInstalled {
                through,
                bytes,
            },
            TraceKind::Crashed => KindView::Crashed,
            TraceKind::TornStep => KindView::TornStep,
            TraceKind::Restarted { current_term, voted_for, last_index } => KindView::Restarted {
                current_term,
                voted_for,
                last_index,
            },
            TraceKind::Fault { fault } => KindView::Fault { fault: fault@ },
            TraceKind::MembershipChange { voters } => KindView::MembershipChange {
                voters: voters@,
            },
            TraceKind::ReadServed { read_index, result } => KindView::ReadServed {
                read_index,
                result: result@,
            },
            TraceKind::Applied { index, term, command, result } => KindView::Applied {
                index,
                term,
                command: crate::kv::command_view(command),
                result: crate::kv::result_view(result),
            },
        }
    }
}

impl Clone for TraceKind {
    fn clone(&self) -> (r: Self)
        ensures
            r@ == self@,
    {
        match self {
            TraceKind::In(input) => TraceKind::In(input.clone()),
            TraceKind::Out(output) => TraceKind::Out(output.clone()),
            TraceKind::Dropped { to } => TraceKind::Dropped { to: *to },
            TraceKind::Duplicated { to } => TraceKind::Duplicated { to: *to },
            TraceKind::Partitioned { to } => TraceKind::Partitioned { to: *to },
            TraceKind::LostToCrash { from } => TraceKind::LostToCrash { from: *from },
            TraceKind::SnapshotInstalled { through, bytes } => TraceKind::SnapshotInstalled {
                through: *through,
                bytes: *bytes,
            },
            TraceKind::Crashed => TraceKind::Crashed,
            TraceKind::TornStep => TraceKind::TornStep,
            TraceKind::Restarted { current_term, voted_for, last_index } => TraceKind::Restarted {
                current_term: *current_term,
                voted_for: *voted_for,
                last_index: *last_index,
            },
            TraceKind::Fault { fault } => TraceKind::Fault { fault: fault.clone() },
            TraceKind::MembershipChange { voters } => TraceKind::MembershipChange {
                voters: crate::faults::copy_ids(voters.as_slice()),
            },
            TraceKind::ReadServed { read_index, result } => TraceKind::ReadServed {
                read_index: *read_index,
                result: result.clone(),
            },
            TraceKind::Applied { index, term, command, result } => TraceKind::Applied {
                index: *index,
                term: *term,
                command: crate::kv::copy_command(command),
                result: crate::kv::copy_result(result),
            },
        }
    }
}

#[derive(Debug, PartialEq, Eq)]
pub struct TraceRecord {
    pub tick: Tick,
    pub seq: u64,
    pub node: NodeId,
    pub kind: TraceKind,
}

impl Clone for TraceRecord {
    fn clone(&self) -> (r: Self)
        ensures
            r@ == self@,
    {
        TraceRecord { tick: self.tick, seq: self.seq, node: self.node, kind: self.kind.clone() }
    }
}

pub struct RecordView {
    pub tick: u64,
    pub seq: u64,
    pub node: u32,
    pub kind: KindView,
}

impl View for TraceRecord {
    type V = RecordView;

    open spec fn view(&self) -> RecordView {
        RecordView { tick: self.tick, seq: self.seq, node: self.node, kind: self.kind@ }
    }
}

pub open spec fn records_view(s: Seq<TraceRecord>) -> Seq<RecordView> {
    Seq::new(s.len(), |i: int| s[i]@)
}

/// A trace as a mathematical value.
#[verifier::ext_equal]
pub struct TraceView {
    pub records: Seq<RecordView>,
    pub enabled: bool,
}

impl TraceView {
    pub open spec fn push(self, tick: u64, seq: u64, node: u32, kind: KindView) -> TraceView {
        if self.enabled {
            TraceView {
                records: self.records.push(RecordView { tick, seq, node, kind }),
                ..self
            }
        } else {
            self
        }
    }

    /// The records as a JSON array.
    pub open spec fn json(self) -> Json {
        crate::trace_json::records_json(self.records)
    }

    /// The records as JSON laid out over several lines.
    pub open spec fn pretty(self) -> Seq<char> {
        self.json().lines()
    }

    /// FNV-1a over the records' JSON.
    pub open spec fn digest(self) -> u64 {
        crate::invariants::fnv_of(FNV_OFFSET, self.json().bytes())
    }

    /// One of the two has a record here, and the other has not the same.
    pub open spec fn differs_at(self, other: TraceView, i: int) -> bool {
        &&& 0 <= i
        &&& i < self.records.len() || i < other.records.len()
        &&& i >= self.records.len() || i >= other.records.len() || self.records[i]
            != other.records[i]
    }
}

#[derive(Debug, PartialEq, Eq)]
pub struct Trace {
    records: Vec<TraceRecord>,
    /// Recording can be switched off. A sweep over many seeds runs with it off
    /// and re-runs a failing seed with it on, which costs nothing because the
    /// run is perfectly reproducible.
    enabled: bool,
}

impl View for Trace {
    type V = TraceView;

    closed spec fn view(&self) -> TraceView {
        TraceView { records: records_view(self.records@), enabled: self.enabled }
    }
}

impl Clone for Trace {
    fn clone(&self) -> (r: Self)
        ensures
            r@ == self@,
    {
        let mut records: Vec<TraceRecord> = Vec::new();
        let n: usize = self.records.len();
        let mut i: usize = 0;
        while i < n
            invariant
                i <= n == self.records@.len(),
                records@.len() == i,
                forall|k: int| 0 <= k < i ==> (#[trigger] records@[k])@ == self.records@[k]@,
            decreases n - i,
        {
            records.push(self.records[i].clone());
            i = i + 1;
        }
        assert(records_view(records@) =~= records_view(self.records@));
        Trace { records, enabled: self.enabled }
    }
}

impl Default for Trace {
    fn default() -> (r: Self)
        ensures
            r@ == (TraceView { records: Seq::empty(), enabled: false }),
    {
        Trace::disabled()
    }
}

impl Trace {
    pub fn new() -> (r: Self)
        ensures
            r@ == (TraceView { records: Seq::empty(), enabled: true }),
    {
        let r = Trace { records: Vec::new(), enabled: true };
        assert(r@.records =~= Seq::empty());
        r
    }

    pub fn disabled() -> (r: Self)
        ensures
            r@ == (TraceView { records: Seq::empty(), enabled: false }),
    {
        let r = Trace { records: Vec::new(), enabled: false };
        assert(r@.records =~= Seq::empty());
        r
    }

    pub fn is_enabled(&self) -> (r: bool)
        ensures
            r == self@.enabled,
    {
        self.enabled
    }

    pub fn push(&mut self, tick: Tick, seq: u64, node: NodeId, kind: TraceKind)
        ensures
            final(self)@ == old(self)@.push(tick, seq, node, kind@),
    {
        if !self.enabled {
            return;
        }
        let ghost before = self.records@;
        let ghost new = RecordView { tick, seq, node, kind: kind@ };
        self.records.push(TraceRecord { tick, seq, node, kind });
        assert(records_view(self.records@) =~= records_view(before).push(new));
    }

    /// Record an input.
    pub(crate) fn push_input(&mut self, tick: Tick, seq: u64, node: NodeId, input: &Input)
        ensures
            final(self)@ == old(self)@.push(tick, seq, node, KindView::In(input@)),
    {
        if self.enabled {
            self.push(tick, seq, node, TraceKind::In(input.clone()));
        }
    }

    /// Record an output.
    pub(crate) fn push_output(&mut self, tick: Tick, seq: u64, node: NodeId, output: &Output)
        ensures
            final(self)@ == old(self)@.push(tick, seq, node, KindView::Out(output@)),
    {
        if self.enabled {
            self.push(tick, seq, node, TraceKind::Out(output.clone()));
        }
    }

    pub fn records(&self) -> (r: &[TraceRecord])
        ensures
            records_view(r@) == self@.records,
    {
        self.records.as_slice()
    }

    pub fn len(&self) -> (r: usize)
        ensures
            r == self@.records.len(),
    {
        self.records.len()
    }

    pub fn is_empty(&self) -> (r: bool)
        ensures
            r == (self@.records.len() == 0),
    {
        self.records.len() == 0
    }

    /// The records as JSON, on one line.
    pub fn to_json(&self) -> (r: String)
        ensures
            r@ == self@.json().text(),
    {
        records_text(&self.records)
    }

    /// The records as JSON, laid out over several lines.
    pub fn to_json_pretty(&self) -> (r: String)
        ensures
            r@ == self@.pretty(),
    {
        proof {
            crate::plain::law_traces_are_plain(self@.records, crate::json::LEVELS as nat);
        }
        let text = self.to_json();
        match laid_out(text.as_str()) {
            Some(pretty) => pretty,
            None => text,
        }
    }

    /// FNV-1a over the serialized trace. It only has to be a deterministic
    /// function of the bytes: cheap enough to compare thousands of runs, and
    /// when it differs the full JSON says exactly where.
    pub fn digest(&self) -> (r: u64)
        ensures
            r == self@.digest(),
    {
        let text = self.to_json();
        fnv(FNV_OFFSET, text.as_str().as_bytes())
    }

    /// Index of the first record where two traces differ, if any. Turns "the
    /// runs diverged" into "the runs diverged here".
    pub fn first_difference(&self, other: &Trace) -> (r: Option<usize>)
        ensures
            match r {
                Some(i) => self@.differs_at(other@, i as int) && forall|k: int|
                    0 <= k < i ==> !#[trigger] self@.differs_at(other@, k),
                None => self@.records == other@.records,
            },
    {
        let n: usize = self.records.len();
        let m: usize = other.records.len();
        let mut i: usize = 0;
        while i < n && i < m
            invariant
                i <= n == self.records@.len(),
                i <= m == other.records@.len(),
                forall|k: int| 0 <= k < i ==> !#[trigger] self@.differs_at(other@, k),
            decreases n - i,
        {
            assert(self@.records[i as int] == self.records@[i as int]@);
            assert(other@.records[i as int] == other.records@[i as int]@);
            if !same_record(&self.records[i], &other.records[i]) {
                return Some(i);
            }
            i = i + 1;
        }
        if n != m {
            return Some(i);
        }
        assert forall|k: int| 0 <= k < n implies self@.records[k] == other@.records[k] by {
            assert(!self@.differs_at(other@, k));
        }
        assert(self@.records =~= other@.records);
        None
    }
}

/// Two traces differ somewhere exactly when their records are not the same, and
/// traces with the same records have the same text and the same digest.
pub proof fn law_same_records_same_digest(a: TraceView, b: TraceView)
    ensures
        (exists|i: int| a.differs_at(b, i)) <==> a.records != b.records,
        a.records == b.records ==> a.json() == b.json() && a.digest() == b.digest(),
{
    if a.records != b.records {
        if a.records.len() == b.records.len() {
            let i = choose|i: int| 0 <= i < a.records.len() && a.records[i] != b.records[i];
            if !(0 <= i < a.records.len() && a.records[i] != b.records[i]) {
                assert(a.records =~= b.records);
            }
            assert(a.differs_at(b, i));
        } else if a.records.len() < b.records.len() {
            assert(a.differs_at(b, a.records.len() as int));
        } else {
            assert(a.differs_at(b, b.records.len() as int));
        }
    }
}

} // verus!
