//! The replicated log.
//!
//! A contiguous run of entries plus the index of its first entry. After
//! compaction the log still has to answer for the entry immediately before its
//! first live entry, which is what `last_included` remembers.
use crate::message::ConflictHint;
use crate::{ClientId, ClusterConfig, Command, Index, LogId, Term};
use vstd::prelude::*;

verus! {

/// What a log entry carries.
#[derive(Debug, PartialEq, Eq)]
pub enum EntryPayload {
    /// The empty entry a new leader appends to its own log on election, so that
    /// an entry of its own term can commit without waiting for a client write.
    Noop,
    /// An opaque command for the replicated state machine.
    Command(Command),
    /// A membership change. A node adopts the configuration the moment the
    /// entry is appended, not when it commits.
    Config(ClusterConfig),
}

/// What a log entry carries, as a mathematical value.
pub enum PayloadView {
    Noop,
    Command(Seq<u8>),
    Config(crate::config::ConfigView),
}

impl View for EntryPayload {
    type V = PayloadView;

    open spec fn view(&self) -> PayloadView {
        match *self {
            EntryPayload::Noop => PayloadView::Noop,
            EntryPayload::Command(c) => PayloadView::Command(c@),
            EntryPayload::Config(c) => PayloadView::Config(c@),
        }
    }
}

impl Clone for EntryPayload {
    fn clone(&self) -> (r: Self)
        ensures
            r@ == self@,
    {
        match self {
            EntryPayload::Noop => EntryPayload::Noop,
            EntryPayload::Command(c) => EntryPayload::Command(c.clone()),
            EntryPayload::Config(c) => EntryPayload::Config(c.clone()),
        }
    }
}

#[derive(Debug, PartialEq, Eq)]
pub struct LogEntry {
    pub term: Term,
    pub index: Index,
    pub payload: EntryPayload,
    /// Which client request produced this entry, if any. Carried in the entry
    /// so that after a leader change the new leader can still tell which
    /// request an applied entry corresponds to.
    pub client: Option<(ClientId, u64)>,
}

pub struct EntryView {
    pub term: u64,
    pub index: u64,
    pub payload: PayloadView,
    pub client: Option<(u32, u64)>,
}

impl EntryView {
    pub open spec fn log_id(self) -> LogId {
        LogId { index: self.index, term: self.term }
    }
}

impl View for LogEntry {
    type V = EntryView;

    open spec fn view(&self) -> EntryView {
        EntryView {
            term: self.term,
            index: self.index,
            payload: self.payload@,
            client: self.client,
        }
    }
}

impl Clone for LogEntry {
    fn clone(&self) -> (r: Self)
        ensures
            r@ == self@,
    {
        LogEntry {
            term: self.term,
            index: self.index,
            payload: self.payload.clone(),
            client: self.client,
        }
    }
}

impl LogEntry {
    pub fn log_id(&self) -> (r: LogId)
        ensures
            r == self@.log_id(),
    {
        LogId::new(self.index, self.term)
    }
}

/// A run of entries, each by its view.
pub open spec fn entries_view(s: Seq<LogEntry>) -> Seq<EntryView> {
    Seq::new(s.len(), |i: int| s[i]@)
}

/// Copies of `entries[from..to]`.
pub fn copy_entries(entries: &[LogEntry], from: usize, to: usize) -> (r: Vec<LogEntry>)
    requires
        from <= to <= entries@.len(),
    ensures
        entries_view(r@) == entries_view(entries@).subrange(from as int, to as int),
{
    let mut r: Vec<LogEntry> = Vec::new();
    let mut i: usize = from;
    assert(entries_view(r@) =~= entries_view(entries@).subrange(from as int, from as int));
    while i < to
        invariant
            from <= i <= to <= entries@.len(),
            entries_view(r@) == entries_view(entries@).subrange(from as int, i as int),
        decreases to - i,
    {
        let ghost before = r@;
        r.push(entries[i].clone());
        proof {
            assert(entries_view(r@) =~= entries_view(before).push(entries@[i as int]@));
            assert(entries_view(entries@).subrange(from as int, i + 1) =~= entries_view(
                entries@,
            ).subrange(from as int, i as int).push(entries@[i as int]@));
        }
        i = i + 1;
    }
    r
}

/// `entries` carry the indices that follow each other from `first` on.
pub open spec fn contiguous_from(entries: Seq<EntryView>, first: int) -> bool {
    forall|i: int| 0 <= i < entries.len() ==> (#[trigger] entries[i]).index == first + i
}

/// The log as a mathematical value.
#[verifier::ext_equal]
pub struct LogView {
    pub entries: Seq<EntryView>,
    /// Index of the first entry physically present.
    pub start: u64,
    /// The last entry discarded by compaction.
    pub last_included: LogId,
    /// Index 0 answers as an anchor even after compaction, and entries are
    /// appended without looking at their indices.
    pub zero_anchor: bool,
}

impl LogView {
    pub open spec fn empty() -> LogView {
        LogView {
            entries: Seq::empty(),
            start: 1,
            last_included: LogId::zero(),
            zero_anchor: false,
        }
    }

    /// The log starts right after what was compacted away, its indices fit, and
    /// (but for the deliberate regression) slot `i` holds the entry whose index
    /// is `start + i`.
    pub open spec fn wf(self) -> bool {
        &&& self.start == self.last_included.index + 1
        &&& self.start + self.entries.len() <= u64::MAX
        &&& self.zero_anchor || contiguous_from(self.entries, self.start as int)
        &&& forall|i: int| 0 <= i < self.entries.len() ==> (#[trigger] self.entries[i]).index
            < u64::MAX
    }

    pub open spec fn last_index(self) -> u64 {
        (self.start + self.entries.len() - 1) as u64
    }

    pub open spec fn last_log_id(self) -> LogId {
        if self.entries.len() > 0 {
            self.entries.last().log_id()
        } else {
            self.last_included
        }
    }

    /// There is an entry in the slot for `index`.
    pub open spec fn holds(self, index: u64) -> bool {
        self.start <= index < self.start + self.entries.len()
    }

    /// The entry in the slot for `index`.
    pub open spec fn at(self, index: u64) -> EntryView {
        self.entries[index - self.start]
    }

    pub open spec fn term_at(self, index: u64) -> Option<u64> {
        if index == self.last_included.index {
            Some(self.last_included.term)
        } else if self.zero_anchor && index == 0 {
            Some(0)
        } else if self.holds(index) {
            Some(self.at(index).term)
        } else {
            None
        }
    }

    /// At most `max` entries, from `index` on.
    pub open spec fn entries_from(self, index: u64, max: usize) -> Seq<EntryView> {
        if index > self.last_index() {
            Seq::empty()
        } else {
            let offset = if index < self.start {
                0
            } else {
                index - self.start
            };
            let end = if offset + max < self.entries.len() {
                offset + max
            } else {
                self.entries.len() as int
            };
            self.entries.subrange(offset, end)
        }
    }

    /// `more` may be appended: it fits, and it continues the log without a gap.
    pub open spec fn appendable(self, more: Seq<EntryView>) -> bool {
        &&& self.start + self.entries.len() + more.len() <= u64::MAX
        &&& self.zero_anchor || contiguous_from(more, self.start + self.entries.len())
        &&& forall|i: int| 0 <= i < more.len() ==> (#[trigger] more[i]).index < u64::MAX
    }

    pub open spec fn append(self, more: Seq<EntryView>) -> LogView {
        LogView { entries: self.entries + more, ..self }
    }

    /// Everything before `index`.
    pub open spec fn truncate_from(self, index: u64) -> LogView {
        if index <= self.start {
            LogView { entries: Seq::empty(), ..self }
        } else if index > self.last_index() {
            self
        } else {
            LogView { entries: self.entries.take(index - self.start), ..self }
        }
    }

    pub open spec fn compact(self, through: LogId) -> LogView {
        if through.index < self.start {
            self
        } else {
            LogView {
                entries: if through.index > self.last_index() {
                    Seq::empty()
                } else {
                    self.entries.skip(through.index + 1 - self.start)
                },
                start: (through.index + 1) as u64,
                last_included: through,
                zero_anchor: self.zero_anchor,
            }
        }
    }

    pub open spec fn reset_to(self, through: LogId) -> LogView {
        LogView {
            entries: Seq::empty(),
            start: (through.index + 1) as u64,
            last_included: through,
            zero_anchor: self.zero_anchor,
        }
    }

    pub open spec fn reconcile(self, boundary: LogId) -> LogView {
        if self.term_at(boundary.index) == Some(boundary.term) {
            self.compact(boundary)
        } else {
            self.reset_to(boundary)
        }
    }

    /// The first index of the unbroken run of `term` that ends at `index`.
    pub open spec fn run_start(self, index: u64, term: u64) -> u64
        decreases index,
    {
        if index > self.start && self.term_at((index - 1) as u64) == Some(term) {
            self.run_start((index - 1) as u64, term)
        } else {
            index
        }
    }

    pub open spec fn conflict_hint(self, prev: u64) -> ConflictHint {
        if prev > self.last_index() {
            ConflictHint { term: None, first_index: (self.last_index() + 1) as u64 }
        } else {
            match self.term_at(prev) {
                None => ConflictHint { term: None, first_index: self.start },
                Some(t) => ConflictHint { term: Some(t), first_index: self.run_start(prev, t) },
            }
        }
    }

    /// The index carried by the last of the first `n` entries whose term is
    /// `term`.
    pub open spec fn last_of_term(self, term: u64, n: int) -> Option<u64>
        decreases n,
    {
        if n <= 0 {
            None
        } else if self.entries[n - 1].term == term {
            Some(self.entries[n - 1].index)
        } else {
            self.last_of_term(term, n - 1)
        }
    }

    pub open spec fn last_index_of_term(self, term: u64) -> Option<u64> {
        self.last_of_term(term, self.entries.len() as int)
    }
}

impl LogView {
    /// The highest index up to `upto` whose slot holds a config entry.
    pub open spec fn latest_config(self, upto: u64) -> Option<u64>
        decreases upto,
    {
        if upto < self.start || upto == 0 {
            None
        } else if self.at(upto).payload is Config {
            Some(upto)
        } else {
            self.latest_config((upto - 1) as u64)
        }
    }

    /// The first of `entries`, from position `i` on, that this log does not
    /// hold with the same term.
    pub open spec fn first_difference(self, entries: Seq<EntryView>, i: int) -> int
        decreases entries.len() - i,
    {
        if i >= entries.len() {
            entries.len() as int
        } else if self.term_at(entries[i].index) != Some(entries[i].term) {
            i
        } else {
            self.first_difference(entries, i + 1)
        }
    }

    /// The log once `entries[i..]` can be appended: what conflicts is gone.
    pub open spec fn cleared_for(self, entry: EntryView) -> LogView {
        if self.term_at(entry.index) is Some {
            self.truncate_from(entry.index)
        } else {
            self
        }
    }

    /// Accepting `entries` appends nothing, or continues the log without a gap.
    pub open spec fn can_accept(self, entries: Seq<EntryView>) -> bool {
        let k = self.first_difference(entries, 0);
        k < entries.len() ==> self.cleared_for(entries[k]).appendable(entries.skip(k))
    }
}

/// The last entry of a term really is the last: no later entry has that term,
/// and `None` means that no entry has it.
pub proof fn lemma_last_of_term(log: LogView, term: u64, n: int)
    requires
        0 <= n <= log.entries.len(),
    ensures
        log.last_of_term(term, n) is None ==> forall|i: int|
            0 <= i < n ==> (#[trigger] log.entries[i]).term != term,
        log.last_of_term(term, n) matches Some(index) ==> exists|i: int|
            0 <= i < n && (#[trigger] log.entries[i]).index == index && log.entries[i].term == term
                && forall|j: int| i < j < n ==> (#[trigger] log.entries[j]).term != term,
    decreases n,
{
    if n > 0 && log.entries[n - 1].term != term {
        lemma_last_of_term(log, term, n - 1);
    }
}

/// Recovery may run twice: reconciling a log with a snapshot boundary a second
/// time changes nothing.
pub proof fn lemma_reconcile_idempotent(log: LogView, boundary: LogId)
    requires
        log.wf(),
        boundary.index < u64::MAX,
    ensures
        log.reconcile(boundary).reconcile(boundary) == log.reconcile(boundary),
{
}

/// After compacting through an entry the log holds, the boundary is still
/// answerable, nothing below it is, and everything above it is unchanged.
pub proof fn law_compaction_keeps_the_boundary(log: LogView, through: LogId, index: u64)
    requires
        log.wf(),
        !log.zero_anchor,
        log.holds(through.index),
        log.term_at(through.index) == Some(through.term),
    ensures
        log.compact(through).wf(),
        log.compact(through).last_index() == log.last_index(),
        log.compact(through).last_log_id() == log.last_log_id(),
        index == through.index ==> log.compact(through).term_at(index) == Some(through.term),
        index < through.index ==> log.compact(through).term_at(index) is None,
        index > through.index ==> log.compact(through).term_at(index) == log.term_at(index),
        log.compact(through).holds(index) == (log.holds(index) && index > through.index),
        log.compact(through).holds(index) ==> log.compact(through).at(index) == log.at(index),
{
}

/// An older snapshot never un-compacts a log.
pub proof fn law_compacting_backwards_is_a_noop(log: LogView, through: LogId)
    requires
        log.wf(),
        through.index <= log.last_included.index,
    ensures
        log.compact(through) == log,
{
}

/// Entries read back from a log are exactly those appended at their indices.
pub proof fn law_append_reads_back(log: LogView, more: Seq<EntryView>, i: int)
    requires
        log.wf(),
        log.appendable(more),
        0 <= i < more.len(),
    ensures
        log.append(more).wf(),
        log.append(more).last_index() == log.last_index() + more.len(),
        log.append(more).at((log.last_index() + 1 + i) as u64) == more[i],
        log.append(more).term_at((log.last_index() + 1 + i) as u64) == Some(more[i].term),
        log.append(more).truncate_from((log.last_index() + 1) as u64) == log,
{
    assert((log.entries + more).take(log.entries.len() as int) =~= log.entries);
    if log.entries.len() == 0 {
        assert(log.entries =~= Seq::empty());
    }
}

#[derive(Debug, PartialEq, Eq)]
pub struct Log {
    /// Entries with contiguous indices, the first of them `start_index`.
    entries: Vec<LogEntry>,
    /// Index of the first entry physically present. 1 when nothing has been
    /// compacted away.
    start_index: Index,
    /// The (index, term) of the last entry discarded by compaction.
    last_included: LogId,
    /// Deliberate regression, off by default.
    zero_anchor_bug: bool,
}

impl View for Log {
    type V = LogView;

    closed spec fn view(&self) -> LogView {
        LogView {
            entries: entries_view(self.entries@),
            start: self.start_index,
            last_included: self.last_included,
            zero_anchor: self.zero_anchor_bug,
        }
    }
}

impl Clone for Log {
    fn clone(&self) -> (r: Self)
        ensures
            r@ == self@,
    {
        let r = Log {
            entries: copy_entries(self.entries.as_slice(), 0, self.entries.len()),
            start_index: self.start_index,
            last_included: self.last_included,
            zero_anchor_bug: self.zero_anchor_bug,
        };
        assert(r@ =~= self@);
        r
    }
}

impl Log {
    pub fn new() -> (r: Self)
        ensures
            r@ == LogView::empty(),
            r@.wf(),
    {
        let r = Log {
            entries: Vec::new(),
            start_index: 1,
            last_included: LogId::new(0, 0),
            zero_anchor_bug: false,
        };
        assert(r@ =~= LogView::empty());
        r
    }

    /// Re-introduce the compaction anchor bug.
    pub fn set_zero_anchor_bug(&mut self, on: bool)
        ensures
            final(self)@ == (LogView { zero_anchor: on, ..old(self)@ }),
    {
        self.zero_anchor_bug = on;
    }

    pub fn first_index(&self) -> (r: Index)
        ensures
            r == self@.start,
    {
        self.start_index
    }

    pub fn last_index(&self) -> (r: Index)
        requires
            self@.wf(),
        ensures
            r == self@.last_index(),
            r < u64::MAX,
            r == self@.start + self@.entries.len() - 1,
    {
        self.start_index - 1 + self.entries.len() as u64
    }

    pub fn last_log_id(&self) -> (r: LogId)
        ensures
            r == self@.last_log_id(),
    {
        if self.entries.len() > 0 {
            let last = &self.entries[self.entries.len() - 1];
            assert(self@.entries.last() == last@);
            last.log_id()
        } else {
            self.last_included
        }
    }

    pub fn is_empty(&self) -> (r: bool)
        ensures
            r == (self@.entries.len() == 0),
    {
        self.entries.len() == 0
    }

    pub fn len(&self) -> (r: usize)
        ensures
            r == self@.entries.len(),
    {
        self.entries.len()
    }

    pub fn get(&self, index: Index) -> (r: Option<&LogEntry>)
        ensures
            r is Some == self@.holds(index),
            r matches Some(e) ==> e@ == self@.at(index),
    {
        if index < self.start_index {
            return None;
        }
        let offset: u64 = index - self.start_index;
        if offset < self.entries.len() as u64 {
            Some(&self.entries[offset as usize])
        } else {
            None
        }
    }

    /// Term of the entry at `index`, or `None` if this log cannot answer.
    ///
    /// The anchor is always `last_included`, which is `(0, 0)` for a log that
    /// has never been compacted; that is what makes index 0 answer on a fresh
    /// log. After compaction index 0 is not an anchor any more: treating it as
    /// one would let a leader probing there satisfy the consistency check
    /// against a follower that compacted long ago.
    pub fn term_at(&self, index: Index) -> (r: Option<Term>)
        requires
            self@.wf(),
        ensures
            r == self@.term_at(index),
    {
        if index == self.last_included.index {
            return Some(self.last_included.term);
        }
        if self.zero_anchor_bug && index == 0 {
            return Some(0);
        }
        match self.get(index) {
            Some(e) => Some(e.term),
            None => None,
        }
    }

    /// All entries at `index` and beyond, capped at `max` entries.
    pub fn entries_from(&self, index: Index, max: usize) -> (r: Vec<LogEntry>)
        requires
            self@.wf(),
        ensures
            entries_view(r@) == self@.entries_from(index, max),
    {
        if index > self.last_index() {
            let r: Vec<LogEntry> = Vec::new();
            assert(entries_view(r@) =~= Seq::empty());
            return r;
        }
        let offset: usize = if index < self.start_index {
            0
        } else {
            (index - self.start_index) as usize
        };
        let len: usize = self.entries.len();
        let end: usize = if max < len - offset {
            offset + max
        } else {
            len
        };
        copy_entries(self.entries.as_slice(), offset, end)
    }

    /// Append entries to the end of the log. The caller has already resolved
    /// any conflict; indices must be contiguous with what is present.
    pub fn append(&mut self, entries: &[LogEntry])
        requires
            old(self)@.wf(),
            old(self)@.appendable(entries_view(entries@)),
        ensures
            final(self)@ == old(self)@.append(entries_view(entries@)),
            final(self)@.wf(),
    {
        let mut i: usize = 0;
        let ghost start = self@;
        assert(self@.entries =~= start.entries + entries_view(entries@).take(0));
        while i < entries.len()
            invariant
                i <= entries.len(),
                self@ == (LogView {
                    entries: start.entries + entries_view(entries@).take(i as int),
                    ..start
                }),
            decreases entries.len() - i,
        {
            let ghost before = self.entries@;
            self.entries.push(entries[i].clone());
            proof {
                assert(entries_view(self.entries@) =~= entries_view(before).push(
                    entries@[i as int]@,
                ));
                assert(entries_view(entries@).take(i + 1) =~= entries_view(entries@).take(
                    i as int,
                ).push(entries@[i as int]@));
                assert(self@.entries =~= start.entries + entries_view(entries@).take(i + 1));
            }
            i = i + 1;
        }
        assert(entries_view(entries@).take(i as int) =~= entries_view(entries@));
        proof {
            let all = self@.entries;
            assert forall|k: int| 0 <= k < all.len() implies (#[trigger] all[k]).index
                < u64::MAX by {
                if k >= start.entries.len() {
                    assert(all[k] == entries_view(entries@)[k - start.entries.len()]);
                } else {
                    assert(all[k] == start.entries[k]);
                }
            }
            if !start.zero_anchor {
                assert forall|k: int| 0 <= k < all.len() implies (#[trigger] all[k]).index
                    == start.start + k by {
                    if k >= start.entries.len() {
                        assert(all[k] == entries_view(entries@)[k - start.entries.len()]);
                    } else {
                        assert(all[k] == start.entries[k]);
                    }
                }
            }
        }
    }

    /// Delete the entry at `index` and everything after it.
    ///
    /// Only ever called at the first position where a follower's log actually
    /// disagrees with the leader's: truncating on any weaker condition would
    /// let a delayed or duplicated message delete committed entries.
    pub fn truncate_from(&mut self, index: Index)
        requires
            old(self)@.wf(),
        ensures
            final(self)@ == old(self)@.truncate_from(index),
            final(self)@.wf(),
    {
        if index <= self.start_index {
            self.entries.clear();
            assert(self@ =~= old(self)@.truncate_from(index));
            return;
        }
        if index > self.last_index() {
            return;
        }
        let offset: usize = (index - self.start_index) as usize;
        self.entries.truncate(offset);
        assert(self@ =~= old(self)@.truncate_from(index));
    }

    /// The last entry discarded by compaction, or zero if nothing has been.
    pub fn last_included(&self) -> (r: LogId)
        ensures
            r == self@.last_included,
    {
        self.last_included
    }

    /// Is this index covered by a snapshot rather than held as an entry?
    pub fn is_compacted(&self, index: Index) -> (r: bool)
        ensures
            r == (0 < index <= self@.last_included.index),
    {
        index != 0 && index <= self.last_included.index
    }

    /// Discard everything up to and including `through`, keeping the suffix.
    ///
    /// The entry at `through` is remembered rather than kept, so `term_at` still
    /// answers there and a follower probing at exactly that index can still
    /// pass the consistency check.
    pub fn compact(&mut self, through: LogId)
        requires
            old(self)@.wf(),
            through.index < u64::MAX,
        ensures
            final(self)@ == old(self)@.compact(through),
            final(self)@.wf(),
    {
        if through.index < self.start_index {
            return;
        }
        if through.index > self.last_index() {
            self.entries.clear();
        } else {
            let len: usize = self.entries.len();
            assert(through.index + 1 - self.start_index <= len);
            let keep_from: usize = (through.index + 1 - self.start_index) as usize;
            let kept = self.entries.split_off(keep_from);
            assert(entries_view(kept@) =~= entries_view(old(self).entries@).skip(keep_from as int));
            self.entries = kept;
        }
        self.start_index = through.index + 1;
        self.last_included = through;
        assert(self@ =~= old(self)@.compact(through));
    }

    /// Throw the log away entirely and restart it after `through`.
    pub fn reset_to(&mut self, through: LogId)
        requires
            through.index < u64::MAX,
        ensures
            final(self)@ == old(self)@.reset_to(through),
            final(self)@.wf(),
    {
        self.entries.clear();
        self.start_index = through.index + 1;
        self.last_included = through;
        assert(self@ =~= old(self)@.reset_to(through));
    }

    /// Make this log consistent with a snapshot boundary.
    ///
    /// The snapshot and the log are separate durable artifacts, so a crash can
    /// land between writing one and writing the other. If the log can confirm
    /// the boundary entry, everything after it agrees and is kept; if it
    /// cannot, the log is stale and the snapshot wins.
    pub fn reconcile_with_snapshot(&mut self, boundary: LogId)
        requires
            old(self)@.wf(),
            boundary.index < u64::MAX,
        ensures
            final(self)@ == old(self)@.reconcile(boundary),
            final(self)@.wf(),
    {
        match self.term_at(boundary.index) {
            Some(t) if t == boundary.term => self.compact(boundary),
            _ => self.reset_to(boundary),
        }
    }

    /// Given a `prev_log_index` whose term did not match, produce the hint that
    /// lets the leader skip back a whole term at once instead of one entry per
    /// round trip.
    pub fn conflict_hint(&self, prev_log_index: Index) -> (r: ConflictHint)
        requires
            self@.wf(),
        ensures
            r == self@.conflict_hint(prev_log_index),
    {
        if prev_log_index > self.last_index() {
            return ConflictHint { term: None, first_index: self.last_index() + 1 };
        }
        let conflicting_term: u64 = match self.term_at(prev_log_index) {
            Some(t) => t,
            None => {
                return ConflictHint { term: None, first_index: self.start_index };
            },
        };
        let mut first: u64 = prev_log_index;
        while first > self.start_index
            invariant
                self@.wf(),
                first <= prev_log_index,
                self@.run_start(first, conflicting_term) == self@.run_start(
                    prev_log_index,
                    conflicting_term,
                ),
            ensures
                first == self@.run_start(prev_log_index, conflicting_term),
            decreases first,
        {
            match self.term_at(first - 1) {
                Some(t) if t == conflicting_term => {
                    first = first - 1;
                },
                _ => {
                    break;
                },
            }
        }
        ConflictHint { term: Some(conflicting_term), first_index: first }
    }

    /// The index of the last entry held for `term`, or `None` if there is none.
    pub fn last_index_of_term(&self, term: Term) -> (r: Option<Index>)
        requires
            self@.wf(),
        ensures
            r == self@.last_index_of_term(term),
            r matches Some(i) ==> i < u64::MAX,
    {
        let mut n: usize = self.entries.len();
        while n > 0
            invariant
                n <= self.entries.len(),
                self@.wf(),
                self@.last_of_term(term, n as int) == self@.last_index_of_term(term),
            decreases n,
        {
            let e = &self.entries[n - 1];
            assert(self@.entries[n - 1] == e@);
            if e.term == term {
                return Some(e.index);
            }
            n = n - 1;
        }
        None
    }

    /// The highest index up to `upto` whose slot holds a config entry.
    pub(crate) fn latest_config(&self, upto: Index) -> (r: Option<Index>)
        requires
            self@.wf(),
            upto <= self@.last_index(),
        ensures
            r == self@.latest_config(upto),
            r matches Some(i) ==> self@.holds(i) && self@.at(i).payload is Config,
    {
        let mut i: u64 = upto;
        while i >= self.start_index && i > 0
            invariant
                self@.wf(),
                i <= self@.last_index(),
                self@.latest_config(i) == self@.latest_config(upto),
            decreases i,
        {
            let offset: usize = (i - self.start_index) as usize;
            let len: usize = self.entries.len();
            assert(i - self.start_index < len);
            assert(self@.at(i) == self.entries@[offset as int]@);
            if let EntryPayload::Config(_) = &self.entries[offset].payload {
                return Some(i);
            }
            i = i - 1;
        }
        None
    }

    /// The configuration held at `index`.
    pub(crate) fn config_in_slot(&self, index: Index) -> (r: Option<ClusterConfig>)
        ensures
            self@.holds(index) && self@.at(index).payload is Config ==> r is Some
                && r->0@ == self@.at(index).payload->Config_0,
    {
        match self.get(index) {
            Some(e) => match &e.payload {
                EntryPayload::Config(c) => Some(c.clone()),
                _ => None,
            },
            None => None,
        }
    }

    /// The first of `entries` that this log does not hold with the same term.
    pub(crate) fn first_difference(&self, entries: &[LogEntry]) -> (r: usize)
        requires
            self@.wf(),
        ensures
            r == self@.first_difference(entries_view(entries@), 0),
            r <= entries@.len(),
            r < entries@.len() ==> self@.term_at(entries@[r as int].index) != Some(
                entries@[r as int].term,
            ),
    {
        let mut i: usize = 0;
        while i < entries.len()
            invariant
                i <= entries@.len(),
                self@.wf(),
                self@.first_difference(entries_view(entries@), i as int)
                    == self@.first_difference(entries_view(entries@), 0),
            decreases entries@.len() - i,
        {
            assert(entries_view(entries@)[i as int] == entries@[i as int]@);
            match self.term_at(entries[i].index) {
                Some(t) if t == entries[i].term => {},
                _ => {
                    return i;
                },
            }
            i = i + 1;
        }
        i
    }

    /// May these entries be appended?
    pub fn takes(&self, entries: &[LogEntry]) -> (r: bool)
        requires
            self@.wf(),
        ensures
            r == self@.appendable(entries_view(entries@)),
    {
        let end: u64 = self.last_index() + 1;
        let count: usize = entries.len();
        let ghost more = entries_view(entries@);
        assert(end == self@.start + self@.entries.len());
        assert(more.len() == count);
        if count as u64 > u64::MAX - end {
            return false;
        }
        let mut i: usize = 0;
        while i < entries.len()
            invariant
                i <= count == entries@.len(),
                count <= u64::MAX - end,
                more == entries_view(entries@),
                self@.start + self@.entries.len() == end,
                self@.zero_anchor == self.zero_anchor_bug,
                forall|j: int|
                    0 <= j < i ==> (#[trigger] more[j]).index < u64::MAX && (self.zero_anchor_bug
                        || more[j].index == end + j),
            decreases count - i,
        {
            assert(more[i as int] == entries@[i as int]@);
            if entries[i].index == u64::MAX {
                assert(!(more[i as int].index < u64::MAX));
                return false;
            }
            if !self.zero_anchor_bug && entries[i].index != end + i as u64 {
                assert(more[i as int].index != end + i);
                return false;
            }
            i = i + 1;
        }
        true
    }

    /// Would accepting `entries` append nothing, or continue the log without a
    /// gap?
    pub fn can_accept(&self, entries: &[LogEntry]) -> (r: bool)
        requires
            self@.wf(),
        ensures
            r == self@.can_accept(entries_view(entries@)),
    {
        let k: usize = self.first_difference(entries);
        if k == entries.len() {
            return true;
        }
        let index: u64 = entries[k].index;
        let last: u64 = self.last_index();
        let end: u64 = if self.term_at(index).is_none() || index > last {
            last + 1
        } else if index <= self.start_index {
            self.start_index
        } else {
            index
        };
        let ghost cleared = self@.cleared_for(entries@[k as int]@);
        let ghost rest = entries_view(entries@).skip(k as int);
        assert(cleared.start + cleared.entries.len() == end);
        assert(rest.len() == entries@.len() - k);
        let count: usize = entries.len() - k;
        if count as u64 > u64::MAX - end {
            return false;
        }
        let mut i: usize = k;
        while i < entries.len()
            invariant
                k <= i <= entries@.len(),
                entries@.len() - k <= u64::MAX - end,
                k < entries@.len(),
                k == self@.first_difference(entries_view(entries@), 0),
                cleared == self@.cleared_for(entries_view(entries@)[k as int]),
                rest == entries_view(entries@).skip(k as int),
                cleared.start + cleared.entries.len() == end,
                cleared.zero_anchor == self.zero_anchor_bug,
                forall|j: int|
                    0 <= j < i - k ==> (#[trigger] rest[j]).index < u64::MAX && (
                    self.zero_anchor_bug || rest[j].index == end + j),
            decreases entries@.len() - i,
        {
            assert(rest[i - k] == entries@[i as int]@);
            if entries[i].index == u64::MAX {
                assert(!(rest[i - k].index < u64::MAX));
                return false;
            }
            if !self.zero_anchor_bug && entries[i].index != end + (i - k) as u64 {
                assert(rest[i - k].index != end + (i - k));
                return false;
            }
            i = i + 1;
        }
        true
    }
}

} // verus!
