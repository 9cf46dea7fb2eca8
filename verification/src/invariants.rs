//! Raft's safety properties, checked continuously during a run.
//!
//! These are the cheap checks. They run after every single event, they catch
//! most bugs long before a linearizability check would, and they say *which*
//! property broke and *why*.
//!
//! Everything here is incremental: the scan touches only the entries that a
//! step changed.
use crate::kv::{CommandView, KvCommand};
use crate::log::{EntryView, PayloadView};
use crate::model::NodeView;
use crate::text::{push_decimal, push_shown_option, show_text};
use crate::{EntryPayload, Index, LogEntry, NodeId, RaftNode, Role, Term, Tick};
use std::collections::BTreeMap;
use vstd::prelude::*;

verus! {

broadcast use {vstd::laws_cmp::group_laws_cmp, vstd::std_specs::btree::group_btree_axioms};

/// Cheap content hash of a log entry, so two nodes' entries can be compared
/// without storing every payload twice.
pub type Digest = u64;

pub const FNV_OFFSET: u64 = 0xcbf2_9ce4_8422_2325;

pub const FNV_PRIME: u64 = 0x0000_0100_0000_01b3;

// ---------------------------------------------------------------------------
// Digests
// ---------------------------------------------------------------------------

/// One byte absorbed.
pub open spec fn fnv_step(hash: u64, byte: u8) -> u64 {
    (hash ^ byte as u64).wrapping_mul(FNV_PRIME)
}

/// FNV-1a over the first `n` of these bytes.
pub open spec fn fnv_prefix(hash: u64, bytes: Seq<u8>, n: int) -> u64
    decreases n,
{
    if n <= 0 {
        hash
    } else {
        fnv_step(fnv_prefix(hash, bytes, n - 1), bytes[n - 1])
    }
}

/// FNV-1a.
pub open spec fn fnv_of(hash: u64, bytes: Seq<u8>) -> u64 {
    fnv_prefix(hash, bytes, bytes.len() as int)
}

/// FNV-1a over the `n` low bytes of a number, the lowest first.
pub open spec fn fnv_number(hash: u64, x: u64, n: nat) -> u64
    decreases n,
{
    if n == 0 {
        hash
    } else {
        fnv_number(fnv_step(hash, (x % 256) as u8), x / 256, (n - 1) as nat)
    }
}

pub(crate) fn fnv(hash: u64, bytes: &[u8]) -> (r: u64)
    ensures
        r == fnv_of(hash, bytes@),
{
    let mut h: u64 = hash;
    let mut i: usize = 0;
    while i < bytes.len()
        invariant
            i <= bytes@.len(),
            h == fnv_prefix(hash, bytes@, i as int),
        decreases bytes@.len() - i,
    {
        h = (h ^ bytes[i] as u64).wrapping_mul(FNV_PRIME);
        i = i + 1;
    }
    h
}

fn fnv_le(hash: u64, x: u64, n: u64) -> (r: u64)
    ensures
        r == fnv_number(hash, x, n as nat),
{
    let mut h: u64 = hash;
    let mut rest: u64 = x;
    let mut left: u64 = n;
    while left > 0
        invariant
            fnv_number(h, rest, left as nat) == fnv_number(hash, x, n as nat),
        decreases left,
    {
        let byte: u8 = (rest % 256) as u8;
        h = (h ^ byte as u64).wrapping_mul(FNV_PRIME);
        rest = rest / 256;
        left = left - 1;
    }
    h
}

/// Content digest of an entry, excluding its index and term.
pub open spec fn digest_of(e: EntryView) -> u64 {
    let body = match e.payload {
        PayloadView::Noop => fnv_step(FNV_OFFSET, 0),
        PayloadView::Command(bytes) => fnv_of(fnv_step(FNV_OFFSET, 1), bytes),
        PayloadView::Config(cfg) => fnv_of(
            fnv_step(FNV_OFFSET, 2),
            vstd::utf8::encode_utf8(cfg.describe()),
        ),
    };
    match e.client {
        Some((client, seq)) => fnv_number(fnv_number(body, client as u64, 4), seq, 8),
        None => body,
    }
}

/// Content digest of an entry, excluding its index and term: those are
/// compared directly, and keeping them out means the digest answers exactly the
/// question "is this the same entry?".
pub fn entry_digest(e: &LogEntry) -> (r: Digest)
    ensures
        r == digest_of(e@),
{
    let body: u64 = match &e.payload {
        EntryPayload::Noop => (FNV_OFFSET ^ 0u8 as u64).wrapping_mul(FNV_PRIME),
        EntryPayload::Command(c) => {
            let tagged: u64 = (FNV_OFFSET ^ 1u8 as u64).wrapping_mul(FNV_PRIME);
            fnv(tagged, c.0.as_slice())
        },
        EntryPayload::Config(cfg) => {
            let tagged: u64 = (FNV_OFFSET ^ 2u8 as u64).wrapping_mul(FNV_PRIME);
            let text = cfg.describe();
            fnv(tagged, text.as_str().as_bytes())
        },
    };
    match e.client {
        Some((client, seq)) => {
            let with_client: u64 = fnv_le(body, client as u64, 4);
            fnv_le(with_client, seq, 8)
        },
        None => body,
    }
}

// ---------------------------------------------------------------------------
// The properties
// ---------------------------------------------------------------------------

#[derive(Clone, Copy, Debug, PartialEq, Eq, PartialOrd, Ord, Structural)]
pub enum Invariant {
    ElectionSafety,
    LogMatching,
    LeaderCompleteness,
    StateMachineSafety,
    CommittedEntriesStable,
    CommittedPrefixNeverTruncated,
    CommitIndexMonotonic,
    CommitIndexWithinLog,
    AppliedInOrder,
    SingleVotePerTerm,
    TermMonotonic,
}

impl Invariant {
    pub open spec fn name_spec(self) -> Seq<char> {
        match self {
            Invariant::ElectionSafety => "Election Safety"@,
            Invariant::LogMatching => "Log Matching"@,
            Invariant::LeaderCompleteness => "Leader Completeness"@,
            Invariant::StateMachineSafety => "State Machine Safety"@,
            Invariant::CommittedEntriesStable => "Committed Entries Are Stable"@,
            Invariant::CommittedPrefixNeverTruncated => "Committed Prefix Never Truncated"@,
            Invariant::CommitIndexMonotonic => "Commit Index Monotonic"@,
            Invariant::CommitIndexWithinLog => "Commit Index Within Log"@,
            Invariant::AppliedInOrder => "Applied In Order"@,
            Invariant::SingleVotePerTerm => "Single Vote Per Term"@,
            Invariant::TermMonotonic => "Term Monotonic"@,
        }
    }

    pub open spec fn paper_ref_spec(self) -> Seq<char> {
        match self {
            Invariant::ElectionSafety => "§5.2"@,
            Invariant::LogMatching => "§5.3"@,
            Invariant::LeaderCompleteness => "§5.4"@,
            Invariant::StateMachineSafety => "§5.4.3"@,
            Invariant::CommittedEntriesStable => "§5.3"@,
            Invariant::CommittedPrefixNeverTruncated => "§5.3"@,
            Invariant::CommitIndexMonotonic => "Figure 2"@,
            Invariant::CommitIndexWithinLog => "Figure 2"@,
            Invariant::AppliedInOrder => "§5.4.3"@,
            Invariant::SingleVotePerTerm => "§5.2"@,
            Invariant::TermMonotonic => "§5.1"@,
        }
    }

    pub open spec fn usual_cause_spec(self) -> Seq<char> {
        match self {
            Invariant::ElectionSafety => "a quorum voted twice in one term: check the one-vote-per-term rule, that the vote is persisted before the reply is sent, and that duplicate vote responses are not counted twice"@,
            Invariant::LogMatching => "a follower appended without the prevLogIndex/prevLogTerm check passing, or truncated somewhere other than the first genuinely conflicting entry"@,
            Invariant::LeaderCompleteness => "the election restriction (§5.4.1) is wrong — most often comparing last log index before last log term instead of term first"@,
            Invariant::StateMachineSafety => "usually downstream of a Leader Completeness or commit-rule break; check §5.4.2 first"@,
            Invariant::CommittedEntriesStable => "two nodes committed different entries at one index: the classic cause is a leader committing a previous-term entry by counting replicas (§5.4.2)"@,
            Invariant::CommittedPrefixNeverTruncated => "a follower discarded entries it had already committed, which means the prevLogIndex/prevLogTerm check let it accept a conflicting entry below its commit index"@,
            Invariant::CommitIndexMonotonic => "commitIndex was assigned rather than advanced — check for a missing max()"@,
            Invariant::CommitIndexWithinLog => "a follower took leaderCommit without capping it at the last entry it actually holds"@,
            Invariant::AppliedInOrder => "the apply loop skipped or repeated an index"@,
            Invariant::SingleVotePerTerm => "votedFor was not checked, or was lost across a term change"@,
            Invariant::TermMonotonic => "currentTerm went backwards — check persistence"@,
        }
    }

    pub fn name(self) -> (r: &'static str)
        ensures
            r@ == self.name_spec(),
    {
        match self {
            Invariant::ElectionSafety => "Election Safety",
            Invariant::LogMatching => "Log Matching",
            Invariant::LeaderCompleteness => "Leader Completeness",
            Invariant::StateMachineSafety => "State Machine Safety",
            Invariant::CommittedEntriesStable => "Committed Entries Are Stable",
            Invariant::CommittedPrefixNeverTruncated => "Committed Prefix Never Truncated",
            Invariant::CommitIndexMonotonic => "Commit Index Monotonic",
            Invariant::CommitIndexWithinLog => "Commit Index Within Log",
            Invariant::AppliedInOrder => "Applied In Order",
            Invariant::SingleVotePerTerm => "Single Vote Per Term",
            Invariant::TermMonotonic => "Term Monotonic",
        }
    }

    pub fn paper_ref(self) -> (r: &'static str)
        ensures
            r@ == self.paper_ref_spec(),
    {
        match self {
            Invariant::ElectionSafety => "§5.2",
            Invariant::LogMatching => "§5.3",
            Invariant::LeaderCompleteness => "§5.4",
            Invariant::StateMachineSafety => "§5.4.3",
            Invariant::CommittedEntriesStable => "§5.3",
            Invariant::CommittedPrefixNeverTruncated => "§5.3",
            Invariant::CommitIndexMonotonic => "Figure 2",
            Invariant::CommitIndexWithinLog => "Figure 2",
            Invariant::AppliedInOrder => "§5.4.3",
            Invariant::SingleVotePerTerm => "§5.2",
            Invariant::TermMonotonic => "§5.1",
        }
    }

    /// What a violation of this property usually means, so a failure report
    /// points at the code rather than just at the symptom.
    pub fn usual_cause(self) -> (r: &'static str)
        ensures
            r@ == self.usual_cause_spec(),
    {
        match self {
            Invariant::ElectionSafety => "a quorum voted twice in one term: check the one-vote-per-term rule, that the vote is persisted before the reply is sent, and that duplicate vote responses are not counted twice",
            Invariant::LogMatching => "a follower appended without the prevLogIndex/prevLogTerm check passing, or truncated somewhere other than the first genuinely conflicting entry",
            Invariant::LeaderCompleteness => "the election restriction (§5.4.1) is wrong — most often comparing last log index before last log term instead of term first",
            Invariant::StateMachineSafety => "usually downstream of a Leader Completeness or commit-rule break; check §5.4.2 first",
            Invariant::CommittedEntriesStable => "two nodes committed different entries at one index: the classic cause is a leader committing a previous-term entry by counting replicas (§5.4.2)",
            Invariant::CommittedPrefixNeverTruncated => "a follower discarded entries it had already committed, which means the prevLogIndex/prevLogTerm check let it accept a conflicting entry below its commit index",
            Invariant::CommitIndexMonotonic => "commitIndex was assigned rather than advanced — check for a missing max()",
            Invariant::CommitIndexWithinLog => "a follower took leaderCommit without capping it at the last entry it actually holds",
            Invariant::AppliedInOrder => "the apply loop skipped or repeated an index",
            Invariant::SingleVotePerTerm => "votedFor was not checked, or was lost across a term change",
            Invariant::TermMonotonic => "currentTerm went backwards — check persistence",
        }
    }

    /// Where a property stands in the list.
    pub open spec fn rank(self) -> int {
        match self {
            Invariant::ElectionSafety => 0,
            Invariant::LogMatching => 1,
            Invariant::LeaderCompleteness => 2,
            Invariant::StateMachineSafety => 3,
            Invariant::CommittedEntriesStable => 4,
            Invariant::CommittedPrefixNeverTruncated => 5,
            Invariant::CommitIndexMonotonic => 6,
            Invariant::CommitIndexWithinLog => 7,
            Invariant::AppliedInOrder => 8,
            Invariant::SingleVotePerTerm => 9,
            Invariant::TermMonotonic => 10,
        }
    }

    /// The property at a place in the list; the last one from there on.
    fn at(rank: u64) -> (r: Invariant)
        ensures
            rank <= 10 ==> r.rank() == rank,
    {
        if rank == 0 {
            Invariant::ElectionSafety
        } else if rank == 1 {
            Invariant::LogMatching
        } else if rank == 2 {
            Invariant::LeaderCompleteness
        } else if rank == 3 {
            Invariant::StateMachineSafety
        } else if rank == 4 {
            Invariant::CommittedEntriesStable
        } else if rank == 5 {
            Invariant::CommittedPrefixNeverTruncated
        } else if rank == 6 {
            Invariant::CommitIndexMonotonic
        } else if rank == 7 {
            Invariant::CommitIndexWithinLog
        } else if rank == 8 {
            Invariant::AppliedInOrder
        } else if rank == 9 {
            Invariant::SingleVotePerTerm
        } else {
            Invariant::TermMonotonic
        }
    }
}

#[derive(Debug, PartialEq, Eq)]
pub struct Violation {
    pub tick: Tick,
    /// Which property broke.
    pub property: Invariant,
    /// The specifics: which nodes, which index, what each of them had.
    pub detail: String,
}

pub struct ViolationView {
    pub tick: u64,
    pub property: Invariant,
    pub detail: Seq<char>,
}

impl View for Violation {
    type V = ViolationView;

    open spec fn view(&self) -> ViolationView {
        ViolationView { tick: self.tick, property: self.property, detail: self.detail@ }
    }
}

impl Clone for Violation {
    fn clone(&self) -> (r: Self)
        ensures
            r@ == self@,
    {
        Violation { tick: self.tick, property: self.property, detail: self.detail.clone() }
    }
}

impl ViolationView {
    /// The whole report on one violation.
    pub open spec fn report(self) -> Seq<char> {
        Seq::<char>::empty() + "[tick "@ + crate::text::decimal(self.tick as nat) + "] "@
            + self.property.name_spec() + " ("@ + self.property.paper_ref_spec() + ") violated: "@
            + self.detail + "\n    likely cause: "@ + self.property.usual_cause_spec()
    }
}

impl Violation {
    /// The property, where to read about it, what happened, and the usual
    /// cause.
    pub fn report(&self) -> (r: String)
        ensures
            r@ == self@.report(),
    {
        let mut r = String::new();
        r.append("[tick ");
        push_decimal(&mut r, self.tick);
        r.append("] ");
        r.append(self.property.name());
        r.append(" (");
        r.append(self.property.paper_ref());
        r.append(") violated: ");
        r.append(self.detail.as_str());
        r.append("\n    likely cause: ");
        r.append(self.property.usual_cause());
        r
    }
}

pub open spec fn violations_view(s: Seq<Violation>) -> Seq<ViolationView> {
    Seq::new(s.len(), |i: int| s[i]@)
}

// ---------------------------------------------------------------------------
// What is known about the run
// ---------------------------------------------------------------------------

/// What is known of an `(index, term)` ever observed anywhere.
#[derive(Clone, Copy, Debug, PartialEq, Eq, Structural)]
pub struct LogFact {
    pub prev_term: Term,
    pub digest: Digest,
    pub node: NodeId,
}

#[derive(Clone, Copy, Debug, PartialEq, Eq, Structural)]
pub struct CommittedFact {
    /// The term the entry was created in.
    pub term: Term,
    /// The term it was *committed* in, which is not the same thing: an entry of
    /// an earlier term is committed indirectly, by committing one of the
    /// leader's own on top. Leader Completeness is about the commit term.
    pub commit_term: Term,
    pub digest: Digest,
    pub node: NodeId,
    pub tick: Tick,
}

#[derive(Debug, PartialEq, Eq)]
struct AppliedFact {
    term: Term,
    command: Option<KvCommand>,
    node: NodeId,
}

pub struct AppliedFactView {
    pub term: u64,
    pub command: Option<CommandView>,
    pub node: u32,
}

impl View for AppliedFact {
    type V = AppliedFactView;

    closed spec fn view(&self) -> AppliedFactView {
        AppliedFactView {
            term: self.term,
            command: crate::kv::command_view(self.command),
            node: self.node,
        }
    }
}

/// Accumulated knowledge about the run, and the violations found so far.
#[verifier::ext_equal]
pub struct CheckerView {
    /// Which node was leader of each term.
    pub leader_of_term: Map<u64, u32>,
    /// What each node voted, per term.
    pub vote_of_term: Map<(u32, u64), u32>,
    /// Highest term seen per node.
    pub max_term: Map<u32, u64>,
    /// For each `(index, term)` ever observed anywhere, what the entry was and
    /// what preceded it.
    pub log_facts: Map<(u64, u64), LogFact>,
    /// Every entry any node has ever considered committed.
    pub committed: Map<u64, CommittedFact>,
    /// How far each node's commit index has been checked.
    pub commit_watermark: Map<u32, u64>,
    /// What was applied at each index, by whom.
    pub applied: Map<u64, AppliedFactView>,
    pub applied_watermark: Map<u32, u64>,
    /// Terms whose leader has already been checked for completeness.
    pub completeness_checked: Map<u64, u32>,
    pub violations: Seq<ViolationView>,
    pub checks: u64,
    pub restarts: u64,
    pub snapshots_installed: u64,
}

/// What a map holds for a key, or zero.
pub open spec fn or_zero(m: Map<u32, u64>, key: u32) -> u64 {
    if m.contains_key(key) {
        m[key]
    } else {
        0
    }
}

fn lookup(m: &BTreeMap<u32, u64>, key: u32) -> (r: u64)
    ensures
        r == or_zero(m@, key),
{
    match m.get(&key) {
        Some(v) => *v,
        None => 0,
    }
}

// --- the details, in words --------------------------------------------------

pub open spec fn num(n: u64) -> Seq<char> {
    crate::text::decimal(n as nat)
}

pub open spec fn term_fell(id: u32, before: u64, after: u64) -> Seq<char> {
    Seq::<char>::empty() + "node "@ + num(id as u64) + " was in term "@ + num(before)
        + " and is now in term "@ + num(after)
}

fn term_fell_text(id: NodeId, before: Term, after: Term) -> (r: String)
    ensures
        r@ == term_fell(id, before, after),
{
    let mut r = String::new();
    r.append("node ");
    push_decimal(&mut r, id as u64);
    r.append(" was in term ");
    push_decimal(&mut r, before);
    r.append(" and is now in term ");
    push_decimal(&mut r, after);
    r
}

pub open spec fn two_leaders(other: u32, id: u32, term: u64) -> Seq<char> {
    Seq::<char>::empty() + "nodes "@ + num(other as u64) + " and "@ + num(id as u64)
        + " are both leader of term "@ + num(term)
}

fn two_leaders_text(other: NodeId, id: NodeId, term: Term) -> (r: String)
    ensures
        r@ == two_leaders(other, id, term),
{
    let mut r = String::new();
    r.append("nodes ");
    push_decimal(&mut r, other as u64);
    r.append(" and ");
    push_decimal(&mut r, id as u64);
    r.append(" are both leader of term ");
    push_decimal(&mut r, term);
    r
}

pub open spec fn voted_twice(id: u32, previous: u32, candidate: u32, term: u64) -> Seq<char> {
    Seq::<char>::empty() + "node "@ + num(id as u64) + " voted for "@ + num(previous as u64)
        + " and then for "@ + num(candidate as u64) + " in term "@ + num(term)
}

fn voted_twice_text(id: NodeId, previous: NodeId, candidate: NodeId, term: Term) -> (r: String)
    ensures
        r@ == voted_twice(id, previous, candidate, term),
{
    let mut r = String::new();
    r.append("node ");
    push_decimal(&mut r, id as u64);
    r.append(" voted for ");
    push_decimal(&mut r, previous as u64);
    r.append(" and then for ");
    push_decimal(&mut r, candidate as u64);
    r.append(" in term ");
    push_decimal(&mut r, term);
    r
}

pub open spec fn commit_fell(id: u32, before: u64, after: u64) -> Seq<char> {
    Seq::<char>::empty() + "node "@ + num(id as u64) + " commitIndex fell from "@ + num(before)
        + " to "@ + num(after)
}

fn commit_fell_text(id: NodeId, before: Index, after: Index) -> (r: String)
    ensures
        r@ == commit_fell(id, before, after),
{
    let mut r = String::new();
    r.append("node ");
    push_decimal(&mut r, id as u64);
    r.append(" commitIndex fell from ");
    push_decimal(&mut r, before);
    r.append(" to ");
    push_decimal(&mut r, after);
    r
}

pub open spec fn commit_beyond(id: u32, commit: u64, last: u64) -> Seq<char> {
    Seq::<char>::empty() + "node "@ + num(id as u64) + " has commitIndex "@ + num(commit)
        + " but its log ends at "@ + num(last)
}

fn commit_beyond_text(id: NodeId, commit: Index, last: Index) -> (r: String)
    ensures
        r@ == commit_beyond(id, commit, last),
{
    let mut r = String::new();
    r.append("node ");
    push_decimal(&mut r, id as u64);
    r.append(" has commitIndex ");
    push_decimal(&mut r, commit);
    r.append(" but its log ends at ");
    push_decimal(&mut r, last);
    r
}

pub open spec fn absent(index: u64, fact: CommittedFact) -> Seq<char> {
    Seq::<char>::empty() + "index "@ + num(index) + " (term "@ + num(fact.term)
        + ", committed by node "@ + num(fact.node as u64) + ") is absent"@
}

fn absent_text(index: Index, fact: CommittedFact) -> (r: String)
    ensures
        r@ == absent(index, fact),
{
    let mut r = String::new();
    r.append("index ");
    push_decimal(&mut r, index);
    r.append(" (term ");
    push_decimal(&mut r, fact.term);
    r.append(", committed by node ");
    push_decimal(&mut r, fact.node as u64);
    r.append(") is absent");
    r
}

pub open spec fn wrong_term(index: u64, fact: CommittedFact, term: u64) -> Seq<char> {
    Seq::<char>::empty() + "index "@ + num(index) + " should be term "@ + num(fact.term)
        + " (committed by node "@ + num(fact.node as u64) + ") but is term "@ + num(term)
}

fn wrong_term_text(index: Index, fact: CommittedFact, term: Term) -> (r: String)
    ensures
        r@ == wrong_term(index, fact, term),
{
    let mut r = String::new();
    r.append("index ");
    push_decimal(&mut r, index);
    r.append(" should be term ");
    push_decimal(&mut r, fact.term);
    r.append(" (committed by node ");
    push_decimal(&mut r, fact.node as u64);
    r.append(") but is term ");
    push_decimal(&mut r, term);
    r
}

pub open spec fn wrong_contents(index: u64, fact: CommittedFact) -> Seq<char> {
    Seq::<char>::empty() + "index "@ + num(index) + " term "@ + num(fact.term)
        + " has different contents than the entry node "@ + num(fact.node as u64) + " committed"@
}

fn wrong_contents_text(index: Index, fact: CommittedFact) -> (r: String)
    ensures
        r@ == wrong_contents(index, fact),
{
    let mut r = String::new();
    r.append("index ");
    push_decimal(&mut r, index);
    r.append(" term ");
    push_decimal(&mut r, fact.term);
    r.append(" has different contents than the entry node ");
    push_decimal(&mut r, fact.node as u64);
    r.append(" committed");
    r
}

/// The complaints, with semicolons between them.
pub open spec fn joined(parts: Seq<Seq<char>>, n: int) -> Seq<char>
    decreases n,
{
    if n <= 0 {
        Seq::empty()
    } else if n == 1 {
        parts[0]
    } else {
        joined(parts, n - 1) + "; "@ + parts[n - 1]
    }
}

pub open spec fn incomplete(id: u32, term: u64, complaints: Seq<Seq<char>>) -> Seq<char> {
    Seq::<char>::empty() + "node "@ + num(id as u64) + " became leader of term "@ + num(term)
        + " without every committed entry: "@ + joined(complaints, complaints.len() as int)
}

/// The views of these strings.
pub open spec fn texts_view(s: Seq<String>) -> Seq<Seq<char>> {
    Seq::new(s.len(), |i: int| s[i]@)
}

fn joined_text(parts: &Vec<String>) -> (r: String)
    ensures
        r@ == joined(texts_view(parts@), parts@.len() as int),
{
    let mut r = String::new();
    let mut i: usize = 0;
    while i < parts.len()
        invariant
            i <= parts@.len(),
            r@ == joined(texts_view(parts@), i as int),
        decreases parts@.len() - i,
    {
        let ghost before = r@;
        if i > 0 {
            r.append("; ");
        }
        r.append(parts[i].as_str());
        proof {
            assert(texts_view(parts@)[i as int] == parts@[i as int]@);
            if i == 0 {
                assert(r@ =~= parts@[0]@);
            }
        }
        i = i + 1;
    }
    r
}

fn incomplete_text(id: NodeId, term: Term, complaints: &Vec<String>) -> (r: String)
    ensures
        r@ == incomplete(id, term, texts_view(complaints@)),
{
    let mut r = String::new();
    r.append("node ");
    push_decimal(&mut r, id as u64);
    r.append(" became leader of term ");
    push_decimal(&mut r, term);
    r.append(" without every committed entry: ");
    let list = joined_text(complaints);
    r.append(list.as_str());
    r
}

pub open spec fn contents_differ(other: u32, id: u32, index: u64, term: u64) -> Seq<char> {
    Seq::<char>::empty() + "nodes "@ + num(other as u64) + " and "@ + num(id as u64)
        + " both have an entry at index "@ + num(index) + " in term "@ + num(term)
        + " but with different contents"@
}

fn contents_differ_text(other: NodeId, id: NodeId, index: Index, term: Term) -> (r: String)
    ensures
        r@ == contents_differ(other, id, index, term),
{
    let mut r = String::new();
    r.append("nodes ");
    push_decimal(&mut r, other as u64);
    r.append(" and ");
    push_decimal(&mut r, id as u64);
    r.append(" both have an entry at index ");
    push_decimal(&mut r, index);
    r.append(" in term ");
    push_decimal(&mut r, term);
    r.append(" but with different contents");
    r
}

pub open spec fn histories_differ(
    other: u32,
    id: u32,
    index: u64,
    term: u64,
    other_prev: u64,
    prev: u64,
) -> Seq<char> {
    Seq::<char>::empty() + "nodes "@ + num(other as u64) + " and "@ + num(id as u64)
        + " agree at index "@ + num(index) + " (term "@ + num(term) + ") but disagree about index "@
        + num(crate::model::one_less(index)) + ": term "@ + num(other_prev) + " vs term "@ + num(
        prev,
    )
}

fn histories_differ_text(
    other: NodeId,
    id: NodeId,
    index: Index,
    term: Term,
    other_prev: Term,
    prev: Term,
) -> (r: String)
    requires
        index > 0,
    ensures
        r@ == histories_differ(other, id, index, term, other_prev, prev),
{
    let mut r = String::new();
    r.append("nodes ");
    push_decimal(&mut r, other as u64);
    r.append(" and ");
    push_decimal(&mut r, id as u64);
    r.append(" agree at index ");
    push_decimal(&mut r, index);
    r.append(" (term ");
    push_decimal(&mut r, term);
    r.append(") but disagree about index ");
    push_decimal(&mut r, index - 1);
    r.append(": term ");
    push_decimal(&mut r, other_prev);
    r.append(" vs term ");
    push_decimal(&mut r, prev);
    r
}

pub open spec fn truncated_committed(node: u32, from: u64, commit_index: u64) -> Seq<char> {
    Seq::<char>::empty() + "node "@ + num(node as u64) + " truncated from index "@ + num(from)
        + ", discarding entries it had already committed (its commitIndex was "@ + num(commit_index)
        + ")"@
}

fn truncated_committed_text(node: NodeId, from: Index, commit_index: Index) -> (r: String)
    ensures
        r@ == truncated_committed(node, from, commit_index),
{
    let mut r = String::new();
    r.append("node ");
    push_decimal(&mut r, node as u64);
    r.append(" truncated from index ");
    push_decimal(&mut r, from);
    r.append(", discarding entries it had already committed (its commitIndex was ");
    push_decimal(&mut r, commit_index);
    r.append(")");
    r
}

pub open spec fn committed_differently(
    id: u32,
    term: u64,
    index: u64,
    other: u32,
    other_term: u64,
) -> Seq<char> {
    Seq::<char>::empty() + "node "@ + num(id as u64) + " committed a term "@ + num(term)
        + " entry at index "@ + num(index) + ", but node "@ + num(other as u64)
        + " had already committed a term "@ + num(other_term) + " entry there"@
}

fn committed_differently_text(
    id: NodeId,
    term: Term,
    index: Index,
    other: NodeId,
    other_term: Term,
) -> (r: String)
    ensures
        r@ == committed_differently(id, term, index, other, other_term),
{
    let mut r = String::new();
    r.append("node ");
    push_decimal(&mut r, id as u64);
    r.append(" committed a term ");
    push_decimal(&mut r, term);
    r.append(" entry at index ");
    push_decimal(&mut r, index);
    r.append(", but node ");
    push_decimal(&mut r, other as u64);
    r.append(" had already committed a term ");
    push_decimal(&mut r, other_term);
    r.append(" entry there");
    r
}

pub open spec fn out_of_order(node: u32, index: u64, expected: u64) -> Seq<char> {
    Seq::<char>::empty() + "node "@ + num(node as u64) + " applied index "@ + num(index)
        + " when it should have applied "@ + num(expected)
}

fn out_of_order_text(node: NodeId, index: Index, expected: Index) -> (r: String)
    ensures
        r@ == out_of_order(node, index, expected),
{
    let mut r = String::new();
    r.append("node ");
    push_decimal(&mut r, node as u64);
    r.append(" applied index ");
    push_decimal(&mut r, index);
    r.append(" when it should have applied ");
    push_decimal(&mut r, expected);
    r
}

/// How `{:?}` shows a command.
pub open spec fn shown_command(c: Option<CommandView>) -> Seq<char> {
    match c {
        None => "None"@,
        Some(c) => "Some("@ + (match c {
            CommandView::Get { key } => "Get { key: "@ + crate::text::shown(key) + " }"@,
            CommandView::Put { key, value } => "Put { key: "@ + crate::text::shown(key)
                + ", value: "@ + crate::text::shown(value) + " }"@,
            CommandView::Delete { key } => "Delete { key: "@ + crate::text::shown(key) + " }"@,
            CommandView::Cas { key, expect, value } => "Cas { key: "@ + crate::text::shown(key)
                + ", expect: "@ + crate::text::shown_option(expect) + ", value: "@
                + crate::text::shown(value) + " }"@,
        }) + ")"@,
    }
}

fn push_command(out: &mut String, c: &Option<KvCommand>)
    ensures
        final(out)@ == old(out)@ + shown_command(crate::kv::command_view(*c)),
{
    match c {
        None => out.append("None"),
        Some(c) => {
            out.append("Some(");
            match c {
                KvCommand::Get { key } => {
                    out.append("Get { key: ");
                    out.append(show_text(key.as_str()).as_str());
                },
                KvCommand::Put { key, value } => {
                    out.append("Put { key: ");
                    out.append(show_text(key.as_str()).as_str());
                    out.append(", value: ");
                    out.append(show_text(value.as_str()).as_str());
                },
                KvCommand::Delete { key } => {
                    out.append("Delete { key: ");
                    out.append(show_text(key.as_str()).as_str());
                },
                KvCommand::Cas { key, expect, value } => {
                    out.append("Cas { key: ");
                    out.append(show_text(key.as_str()).as_str());
                    out.append(", expect: ");
                    push_shown_option(out, expect);
                    out.append(", value: ");
                    out.append(show_text(value.as_str()).as_str());
                },
            }
            out.append(" }");
            out.append(")");
        },
    }
    assert(out@ =~= old(out)@ + shown_command(crate::kv::command_view(*c)));
}

pub open spec fn applied_differently(
    index: u64,
    fact: AppliedFactView,
    node: u32,
    command: Option<CommandView>,
    term: u64,
) -> Seq<char> {
    Seq::<char>::empty() + "at index "@ + num(index) + ", node "@ + num(fact.node as u64)
        + " applied "@ + shown_command(fact.command) + " (term "@ + num(fact.term) + ") but node "@
        + num(node as u64) + " applied "@ + shown_command(command) + " (term "@ + num(term) + ")"@
}

fn applied_differently_text(
    index: Index,
    fact: &AppliedFact,
    node: NodeId,
    command: &Option<KvCommand>,
    term: Term,
) -> (r: String)
    ensures
        r@ == applied_differently(index, fact@, node, crate::kv::command_view(*command), term),
{
    let mut r = String::new();
    r.append("at index ");
    push_decimal(&mut r, index);
    r.append(", node ");
    push_decimal(&mut r, fact.node as u64);
    r.append(" applied ");
    push_command(&mut r, &fact.command);
    r.append(" (term ");
    push_decimal(&mut r, fact.term);
    r.append(") but node ");
    push_decimal(&mut r, node as u64);
    r.append(" applied ");
    push_command(&mut r, command);
    r.append(" (term ");
    push_decimal(&mut r, term);
    r.append(")");
    r
}

// ---------------------------------------------------------------------------
// The checks
// ---------------------------------------------------------------------------

/// How many missing entries one report lists.
pub const LISTED: usize = 4;

impl CheckerView {
    pub open spec fn empty() -> CheckerView {
        CheckerView {
            leader_of_term: Map::empty(),
            vote_of_term: Map::empty(),
            max_term: Map::empty(),
            log_facts: Map::empty(),
            committed: Map::empty(),
            commit_watermark: Map::empty(),
            applied: Map::empty(),
            applied_watermark: Map::empty(),
            completeness_checked: Map::empty(),
            violations: Seq::empty(),
            checks: 0,
            restarts: 0,
            snapshots_installed: 0,
        }
    }

    pub open spec fn fail(self, tick: u64, property: Invariant, detail: Seq<char>) -> CheckerView {
        CheckerView {
            violations: self.violations.push(ViolationView { tick, property, detail }),
            ..self
        }
    }

    pub open spec fn fail_if(
        self,
        broken: bool,
        tick: u64,
        property: Invariant,
        detail: Seq<char>,
    ) -> CheckerView {
        if broken {
            self.fail(tick, property, detail)
        } else {
            self
        }
    }

    /// A node came back from a crash: what is volatile starts again.
    pub open spec fn note_restart(self, node: u32, applied_from: u64) -> CheckerView {
        CheckerView {
            commit_watermark: if applied_from == 0 {
                self.commit_watermark.remove(node)
            } else {
                self.commit_watermark.insert(node, applied_from)
            },
            applied_watermark: if applied_from == 0 {
                self.applied_watermark.remove(node)
            } else {
                self.applied_watermark.insert(node, applied_from)
            },
            restarts: self.restarts.saturating_add(1),
            ..self
        }
    }

    pub open spec fn note_snapshot_installed(self, node: u32, through: u64) -> CheckerView {
        CheckerView {
            applied_watermark: self.applied_watermark.insert(
                node,
                crate::model::max_of(or_zero(self.applied_watermark, node), through),
            ),
            commit_watermark: self.commit_watermark.insert(
                node,
                crate::model::max_of(or_zero(self.commit_watermark, node), through),
            ),
            snapshots_installed: self.snapshots_installed.saturating_add(1),
            ..self
        }
    }

    /// Terms never go backwards.
    pub open spec fn check_term(self, tick: u64, id: u32, term: u64) -> CheckerView {
        let before = or_zero(self.max_term, id);
        let checked = self.fail_if(
            term < before,
            tick,
            Invariant::TermMonotonic,
            term_fell(id, before, term),
        );
        CheckerView {
            max_term: self.max_term.insert(id, crate::model::max_of(term, before)),
            ..checked
        }
    }

    /// At most one leader per term.
    pub open spec fn check_leader(self, tick: u64, id: u32, term: u64) -> CheckerView {
        let noted = CheckerView { leader_of_term: self.leader_of_term.insert(term, id), ..self };
        if self.leader_of_term.contains_key(term) {
            let other = self.leader_of_term[term];
            noted.fail_if(
                other != id,
                tick,
                Invariant::ElectionSafety,
                two_leaders(other, id, term),
            )
        } else {
            noted
        }
    }

    /// One vote per term.
    pub open spec fn check_vote(
        self,
        tick: u64,
        id: u32,
        term: u64,
        vote: Option<u32>,
    ) -> CheckerView {
        match vote {
            None => self,
            Some(candidate) => {
                let noted = CheckerView {
                    vote_of_term: self.vote_of_term.insert((id, term), candidate),
                    ..self
                };
                if self.vote_of_term.contains_key((id, term)) {
                    let previous = self.vote_of_term[(id, term)];
                    noted.fail_if(
                        previous != candidate,
                        tick,
                        Invariant::SingleVotePerTerm,
                        voted_twice(id, previous, candidate, term),
                    )
                } else {
                    noted
                }
            },
        }
    }

    /// The commit index is monotone and within the log.
    pub open spec fn check_commit(self, tick: u64, id: u32, commit: u64, last: u64) -> CheckerView {
        let watermark = or_zero(self.commit_watermark, id);
        self.fail_if(
            commit < watermark,
            tick,
            Invariant::CommitIndexMonotonic,
            commit_fell(id, watermark, commit),
        ).fail_if(
            commit > last,
            tick,
            Invariant::CommitIndexWithinLog,
            commit_beyond(id, commit, last),
        )
    }

    /// What is wrong with a new leader's log at `index`, if anything.
    ///
    /// Only entries committed in an earlier term count: a leader elected before
    /// the commit happened owes nothing to it. An index below the start of the
    /// log is not missing: it is inside the node's snapshot.
    pub open spec fn complaint(self, node: NodeView, index: u64) -> Option<Seq<char>> {
        let fact = self.committed[index];
        if !self.committed.contains_key(index) || fact.commit_term >= node.current_term || index
            < node.log.start {
            None
        } else if !node.log.holds(index) {
            Some(absent(index, fact))
        } else if node.log.at(index).term != fact.term {
            Some(wrong_term(index, fact, node.log.at(index).term))
        } else if digest_of(node.log.at(index)) != fact.digest {
            Some(wrong_contents(index, fact))
        } else {
            None
        }
    }

    /// The first few complaints about the indices below `n`.
    pub open spec fn complaints(self, node: NodeView, n: nat) -> Seq<Seq<char>>
        decreases n,
    {
        if n == 0 {
            Seq::empty()
        } else {
            let before = self.complaints(node, (n - 1) as nat);
            match self.complaint(node, (n - 1) as u64) {
                Some(text) if before.len() < LISTED => before.push(text),
                _ => before,
            }
        }
    }

    /// A new leader holds every committed entry. Checked once per term.
    pub open spec fn check_completeness(self, tick: u64, node: NodeView) -> CheckerView {
        let missing = self.complaints(node, (u64::MAX + 1) as nat);
        self.fail_if(
            missing.len() > 0,
            tick,
            Invariant::LeaderCompleteness,
            incomplete(node.id, node.current_term, missing),
        )
    }

    pub open spec fn check_new_leader(self, tick: u64, node: NodeView) -> CheckerView {
        if node.role == Role::Leader && !self.completeness_checked.contains_key(node.current_term) {
            CheckerView {
                completeness_checked: self.completeness_checked.insert(
                    node.current_term,
                    node.id,
                ),
                ..self
            }.check_completeness(tick, node)
        } else {
            self
        }
    }

    /// The same `(index, term)` anywhere means the same entry, and the same
    /// history before it.
    pub open spec fn check_slot(self, tick: u64, node: NodeView, index: u64) -> CheckerView {
        if !node.log.holds(index) {
            self
        } else {
            let entry = node.log.at(index);
            let digest = digest_of(entry);
            let prev_term = match node.log.term_at(crate::model::one_less(index)) {
                Some(t) => t,
                None => 0,
            };
            let key = (index, entry.term);
            if self.log_facts.contains_key(key) {
                let fact = self.log_facts[key];
                if fact.digest != digest {
                    self.fail(
                        tick,
                        Invariant::LogMatching,
                        contents_differ(fact.node, node.id, index, entry.term),
                    )
                } else if fact.prev_term != prev_term {
                    self.fail(
                        tick,
                        Invariant::LogMatching,
                        histories_differ(
                            fact.node,
                            node.id,
                            index,
                            entry.term,
                            fact.prev_term,
                            prev_term,
                        ),
                    )
                } else {
                    self
                }
            } else {
                CheckerView {
                    log_facts: self.log_facts.insert(
                        key,
                        LogFact { prev_term, digest, node: node.id },
                    ),
                    ..self
                }
            }
        }
    }

    /// Log Matching over the slots from `from` up to but not including `to`.
    pub open spec fn check_slots(self, tick: u64, node: NodeView, from: int, to: int) -> CheckerView
        decreases to - from,
    {
        if to <= from {
            self
        } else {
            self.check_slots(tick, node, from, to - 1).check_slot(tick, node, (to - 1) as u64)
        }
    }

    pub open spec fn check_log(
        self,
        tick: u64,
        node: NodeView,
        dirty_from: Option<u64>,
    ) -> CheckerView {
        match dirty_from {
            None => self,
            Some(from) => self.check_slots(
                tick,
                node,
                crate::model::max_of(from, node.log.start) as int,
                node.log.last_index() + 1,
            ),
        }
    }

    /// One index that a node now considers committed.
    pub open spec fn record_commit(self, tick: u64, node: NodeView, index: u64) -> CheckerView {
        if !node.log.holds(index) {
            self
        } else {
            let entry = node.log.at(index);
            let digest = digest_of(entry);
            let fact = self.committed[index];
            if !self.committed.contains_key(index) {
                CheckerView {
                    committed: self.committed.insert(
                        index,
                        CommittedFact {
                            term: entry.term,
                            commit_term: node.current_term,
                            digest,
                            node: node.id,
                            tick,
                        },
                    ),
                    ..self
                }
            } else if fact.term != entry.term || fact.digest != digest {
                self.fail(
                    tick,
                    Invariant::CommittedEntriesStable,
                    committed_differently(node.id, entry.term, index, fact.node, fact.term),
                )
            } else if node.current_term < fact.commit_term {
                // Another node reporting the same commitment in an earlier term
                // tightens the bound.
                CheckerView {
                    committed: self.committed.insert(
                        index,
                        CommittedFact { commit_term: node.current_term, ..fact },
                    ),
                    ..self
                }
            } else {
                self
            }
        }
    }

    pub open spec fn record_range(
        self,
        tick: u64,
        node: NodeView,
        from: int,
        to: int,
    ) -> CheckerView
        decreases to - from,
    {
        if to <= from {
            self
        } else {
            self.record_range(tick, node, from, to - 1).record_commit(tick, node, (to - 1) as u64)
        }
    }

    /// Every index the node committed since it was last looked at.
    pub open spec fn record_commits(self, tick: u64, node: NodeView) -> CheckerView {
        let watermark = or_zero(self.commit_watermark, node.id);
        let recorded = self.record_range(
            tick,
            node,
            watermark + 1,
            node.commit_index + 1,
        );
        CheckerView {
            commit_watermark: recorded.commit_watermark.insert(
                node.id,
                crate::model::max_of(node.commit_index, watermark),
            ),
            ..recorded
        }
    }

    /// Everything observable about one node after it has taken a step.
    #[verifier::opaque]
    pub open spec fn observe_node(
        self,
        tick: u64,
        node: NodeView,
        dirty_from: Option<u64>,
    ) -> CheckerView {
        let counted = CheckerView { checks: self.checks.saturating_add(1), ..self }.check_term(
            tick,
            node.id,
            node.current_term,
        );
        let led = if node.role == Role::Leader {
            counted.check_leader(tick, node.id, node.current_term)
        } else {
            counted
        };
        led.check_vote(tick, node.id, node.current_term, node.voted_for).check_commit(
            tick,
            node.id,
            node.commit_index,
            node.log.last_index(),
        ).check_new_leader(tick, node).check_log(tick, node, dirty_from).record_commits(tick, node)
    }

    /// A node is about to discard the entry at `from` and everything after it.
    pub open spec fn observe_truncation(
        self,
        tick: u64,
        node: u32,
        from: u64,
        commit_index: u64,
    ) -> CheckerView {
        CheckerView { checks: self.checks.saturating_add(1), ..self }.fail_if(
            from <= commit_index,
            tick,
            Invariant::CommittedPrefixNeverTruncated,
            truncated_committed(node, from, commit_index),
        )
    }

    /// An entry reaches a state machine.
    #[verifier::opaque]
    pub open spec fn observe_apply(
        self,
        tick: u64,
        node: u32,
        index: u64,
        term: u64,
        command: Option<CommandView>,
    ) -> CheckerView {
        let expected = or_zero(self.applied_watermark, node).saturating_add(1);
        let ordered = CheckerView {
            checks: self.checks.saturating_add(1),
            applied_watermark: self.applied_watermark.insert(node, index),
            ..self
        }.fail_if(
            index != expected,
            tick,
            Invariant::AppliedInOrder,
            out_of_order(node, index, expected),
        );
        if self.applied.contains_key(index) {
            let fact = self.applied[index];
            ordered.fail_if(
                fact.command != command || fact.term != term,
                tick,
                Invariant::StateMachineSafety,
                applied_differently(index, fact, node, command, term),
            )
        } else {
            CheckerView {
                applied: self.applied.insert(index, AppliedFactView { term, command, node }),
                ..ordered
            }
        }
    }
}

/// Below the last index that was ever committed nothing else can be said.
proof fn lemma_complaints_skip(c: CheckerView, node: NodeView, from: nat, to: nat)
    requires
        from <= to <= u64::MAX + 1,
        forall|k: u64| from <= k < to ==> !c.committed.contains_key(k),
    ensures
        c.complaints(node, to) == c.complaints(node, from),
    decreases to,
{
    if from < to {
        lemma_complaints_skip(c, node, from, (to - 1) as nat);
        assert(!c.committed.contains_key((to - 1) as u64));
    }
}

/// The checker's knowledge, and what it found.
#[derive(Debug)]
pub struct Invariants {
    leader_of_term: BTreeMap<Term, NodeId>,
    vote_of_term: BTreeMap<(NodeId, Term), NodeId>,
    max_term: BTreeMap<NodeId, Term>,
    log_facts: BTreeMap<(Index, Term), LogFact>,
    committed: BTreeMap<Index, CommittedFact>,
    commit_watermark: BTreeMap<NodeId, Index>,
    applied: BTreeMap<Index, AppliedFact>,
    applied_watermark: BTreeMap<NodeId, Index>,
    completeness_checked: BTreeMap<Term, NodeId>,
    violations: Vec<Violation>,
    checks: u64,
    restarts: u64,
    snapshots_installed: u64,
}

spec fn applied_facts(m: Map<u64, AppliedFact>) -> Map<u64, AppliedFactView> {
    m.map_values(|f: AppliedFact| f@)
}

impl View for Invariants {
    type V = CheckerView;

    closed spec fn view(&self) -> CheckerView {
        CheckerView {
            leader_of_term: self.leader_of_term@,
            vote_of_term: self.vote_of_term@,
            max_term: self.max_term@,
            log_facts: self.log_facts@,
            committed: self.committed@,
            commit_watermark: self.commit_watermark@,
            applied: applied_facts(self.applied@),
            applied_watermark: self.applied_watermark@,
            completeness_checked: self.completeness_checked@,
            violations: violations_view(self.violations@),
            checks: self.checks,
            restarts: self.restarts,
            snapshots_installed: self.snapshots_installed,
        }
    }
}

impl Default for Invariants {
    fn default() -> (r: Self)
        ensures
            r@ == CheckerView::empty(),
    {
        Invariants::new()
    }
}

impl Invariants {
    pub fn new() -> (r: Self)
        ensures
            r@ == CheckerView::empty(),
    {
        let r = Invariants {
            leader_of_term: BTreeMap::new(),
            vote_of_term: BTreeMap::new(),
            max_term: BTreeMap::new(),
            log_facts: BTreeMap::new(),
            committed: BTreeMap::new(),
            commit_watermark: BTreeMap::new(),
            applied: BTreeMap::new(),
            applied_watermark: BTreeMap::new(),
            completeness_checked: BTreeMap::new(),
            violations: Vec::new(),
            checks: 0,
            restarts: 0,
            snapshots_installed: 0,
        };
        assert(r@ =~= CheckerView::empty());
        r
    }

    pub fn violations(&self) -> (r: &[Violation])
        ensures
            violations_view(r@) == self@.violations,
    {
        self.violations.as_slice()
    }

    pub fn checks(&self) -> (r: u64)
        ensures
            r == self@.checks,
    {
        self.checks
    }

    pub fn is_clean(&self) -> (r: bool)
        ensures
            r == (self@.violations.len() == 0),
    {
        self.violations.len() == 0
    }

    /// Is this property among those that were violated?
    fn is_broken(&self, property: Invariant) -> (r: bool)
        ensures
            r == exists|i: int|
                0 <= i < self@.violations.len() && (#[trigger] self@.violations[i]).property
                    == property,
    {
        let mut i: usize = 0;
        while i < self.violations.len()
            invariant
                i <= self.violations@.len(),
                forall|k: int|
                    0 <= k < i ==> (#[trigger] self@.violations[k]).property != property,
            decreases self.violations@.len() - i,
        {
            if self.violations[i].property == property {
                assert(self@.violations[i as int].property == property);
                return true;
            }
            i = i + 1;
        }
        false
    }

    /// Which invariants are currently violated, each once, in their order.
    pub fn broken(&self) -> (r: Vec<Invariant>)
        ensures
            forall|i: int, j: int|
                0 <= i < j < r@.len() ==> (#[trigger] r@[i]).rank() < (#[trigger] r@[j]).rank(),
            forall|p: Invariant|
                #[trigger] r@.contains(p) <==> exists|i: int|
                    0 <= i < self@.violations.len() && (#[trigger] self@.violations[i]).property
                        == p,
    {
        let mut r: Vec<Invariant> = Vec::new();
        let mut rank: u64 = 0;
        while rank < 11
            invariant
                rank <= 11,
                forall|i: int, j: int|
                    0 <= i < j < r@.len() ==> (#[trigger] r@[i]).rank() < (#[trigger] r@[j]).rank(),
                forall|i: int| 0 <= i < r@.len() ==> (#[trigger] r@[i]).rank() < rank,
                forall|p: Invariant|
                    p.rank() < rank ==> (#[trigger] r@.contains(p) <==> exists|i: int|
                        0 <= i < self@.violations.len() && (
                        #[trigger] self@.violations[i]).property == p),
            decreases 11 - rank,
        {
            let property = Invariant::at(rank);
            let ghost before = r@;
            let there = self.is_broken(property);
            if there {
                r.push(property);
            }
            proof {
                assert forall|p: Invariant| p.rank() < rank + 1 implies (#[trigger] r@.contains(p)
                    <==> exists|i: int|
                    0 <= i < self@.violations.len() && (#[trigger] self@.violations[i]).property
                        == p) by {
                    if p.rank() == rank {
                        assert(p == property);
                        if there {
                            assert(r@[before.len() as int] == p);
                        } else if r@.contains(p) {
                            let k = choose|k: int| 0 <= k < r@.len() && r@[k] == p;
                            assert(before[k].rank() < rank);
                        }
                    } else {
                        assert(before.contains(p) == r@.contains(p)) by {
                            if before.contains(p) {
                                let k = choose|k: int| 0 <= k < before.len() && before[k] == p;
                                assert(r@[k] == p);
                            }
                            if r@.contains(p) {
                                let k = choose|k: int| 0 <= k < r@.len() && r@[k] == p;
                                assert(before[k] == p);
                            }
                        }
                    }
                }
            }
            rank = rank + 1;
        }
        assert forall|p: Invariant| #[trigger] r@.contains(p) <==> exists|i: int|
            0 <= i < self@.violations.len() && (#[trigger] self@.violations[i]).property == p by {
            assert(p.rank() < 11);
        }
        r
    }

    fn fail(&mut self, tick: Tick, property: Invariant, detail: String)
        ensures
            final(self)@ == old(self)@.fail(tick, property, detail@),
    {
        let ghost before = self.violations@;
        let ghost text = detail@;
        self.violations.push(Violation { tick, property, detail });
        assert(violations_view(self.violations@) =~= violations_view(before).push(
            ViolationView { tick, property, detail: text },
        ));
    }

    /// A node came back from a crash.
    ///
    /// The commit index and what was applied are volatile, so those watermarks
    /// are cleared. The term and the vote are persistent, so theirs are not: a
    /// node that comes back in a lower term, or votes again in a term it already
    /// voted in, has failed to persist something.
    ///
    /// `applied_from` is the index a snapshot already accounts for, or 0.
    pub fn note_restart(&mut self, node: NodeId, applied_from: Index)
        ensures
            final(self)@ == old(self)@.note_restart(node, applied_from),
    {
        if applied_from == 0 {
            self.commit_watermark.remove(&node);
            self.applied_watermark.remove(&node);
        } else {
            self.commit_watermark.insert(node, applied_from);
            self.applied_watermark.insert(node, applied_from);
        }
        self.restarts = self.restarts.saturating_add(1);
    }

    /// A node installed a snapshot from the leader, jumping its state machine
    /// forward without applying the entries in between.
    pub fn note_snapshot_installed(&mut self, node: NodeId, through: Index)
        ensures
            final(self)@ == old(self)@.note_snapshot_installed(node, through),
    {
        let applied: u64 = lookup(&self.applied_watermark, node);
        self.applied_watermark.insert(
            node,
            if applied < through {
                through
            } else {
                applied
            },
        );
        let commit: u64 = lookup(&self.commit_watermark, node);
        self.commit_watermark.insert(
            node,
            if commit < through {
                through
            } else {
                commit
            },
        );
        self.snapshots_installed = self.snapshots_installed.saturating_add(1);
    }

    pub fn snapshots_installed(&self) -> (r: u64)
        ensures
            r == self@.snapshots_installed,
    {
        self.snapshots_installed
    }

    pub fn restarts(&self) -> (r: u64)
        ensures
            r == self@.restarts,
    {
        self.restarts
    }

    fn check_term(&mut self, tick: Tick, id: NodeId, term: Term)
        ensures
            final(self)@ == old(self)@.check_term(tick, id, term),
    {
        let before: u64 = lookup(&self.max_term, id);
        if term < before {
            self.fail(tick, Invariant::TermMonotonic, term_fell_text(id, before, term));
        }
        self.max_term.insert(
            id,
            if term < before {
                before
            } else {
                term
            },
        );
    }

    fn check_leader(&mut self, tick: Tick, id: NodeId, term: Term)
        ensures
            final(self)@ == old(self)@.check_leader(tick, id, term),
    {
        match self.leader_of_term.insert(term, id) {
            Some(other) => {
                if other != id {
                    self.fail(tick, Invariant::ElectionSafety, two_leaders_text(other, id, term));
                }
            },
            None => {},
        }
    }

    fn check_vote(&mut self, tick: Tick, id: NodeId, term: Term, vote: Option<NodeId>)
        ensures
            final(self)@ == old(self)@.check_vote(tick, id, term, vote),
    {
        match vote {
            Some(candidate) => {
                match self.vote_of_term.insert((id, term), candidate) {
                    Some(previous) => {
                        if previous != candidate {
                            self.fail(
                                tick,
                                Invariant::SingleVotePerTerm,
                                voted_twice_text(id, previous, candidate, term),
                            );
                        }
                    },
                    None => {},
                }
            },
            None => {},
        }
    }

    fn check_commit(&mut self, tick: Tick, id: NodeId, commit: Index, last: Index)
        ensures
            final(self)@ == old(self)@.check_commit(tick, id, commit, last),
    {
        let watermark: u64 = lookup(&self.commit_watermark, id);
        if commit < watermark {
            self.fail(
                tick,
                Invariant::CommitIndexMonotonic,
                commit_fell_text(id, watermark, commit),
            );
        }
        if commit > last {
            self.fail(
                tick,
                Invariant::CommitIndexWithinLog,
                commit_beyond_text(id, commit, last),
            );
        }
    }

    /// What is wrong with a new leader's log at an index that was committed.
    fn complaint(&self, node: &RaftNode, index: Index) -> (r: Option<String>)
        ensures
            r is Some == self@.complaint(node@, index) is Some,
            r matches Some(text) ==> self@.complaint(node@, index) == Some(text@),
    {
        let fact: CommittedFact = match self.committed.get(&index) {
            Some(f) => *f,
            None => return None,
        };
        if fact.commit_term >= node.current_term() || index < node.log().first_index() {
            return None;
        }
        match node.log().get(index) {
            None => Some(absent_text(index, fact)),
            Some(entry) => {
                if entry.term != fact.term {
                    Some(wrong_term_text(index, fact, entry.term))
                } else if entry_digest(entry) != fact.digest {
                    Some(wrong_contents_text(index, fact))
                } else {
                    None
                }
            },
        }
    }

    fn check_leader_completeness(&mut self, tick: Tick, node: &RaftNode)
        ensures
            final(self)@ == old(self)@.check_completeness(tick, node@),
    {
        let indices = crate::order::indices_in_order(&self.committed);
        let mut missing: Vec<String> = Vec::new();
        let mut i: usize = 0;
        let ghost mut below: nat = 0;
        let ghost dom = self@.committed.dom();
        assert(texts_view(missing@) =~= Seq::empty());
        proof {
            assert forall|k: u64| below <= k && dom.contains(k) implies exists|j: int|
                i <= j < indices@.len() && #[trigger] indices@[j] == k by {
                assert(indices@.to_set().contains(k));
            }
        }
        while i < indices.len() && missing.len() < LISTED
            invariant
                *self == *old(self),
                i <= indices@.len(),
                crate::order::climbing(indices@),
                dom == self@.committed.dom(),
                below <= u64::MAX + 1,
                i < indices@.len() ==> below <= indices@[i as int],
                missing@.len() <= LISTED,
                forall|k: u64|
                    below <= k && dom.contains(k) ==> exists|j: int|
                        i <= j < indices@.len() && #[trigger] indices@[j] == k,
                texts_view(missing@) == self@.complaints(node@, below),
            decreases indices@.len() - i,
        {
            let index: u64 = indices[i];
            proof {
                assert forall|k: u64| below <= k < index implies !self@.committed.contains_key(
                    k,
                ) by {
                    if dom.contains(k) {
                        let j = choose|j: int|
                            i <= j < indices@.len() && #[trigger] indices@[j] == k;
                        assert(indices@[i as int] <= indices@[j]);
                    }
                }
                lemma_complaints_skip(self@, node@, below, index as nat);
            }
            let ghost so_far = missing@;
            match self.complaint(node, index) {
                Some(text) => {
                    missing.push(text);
                    assert(texts_view(missing@) =~= texts_view(so_far).push(text@));
                },
                None => {},
            }
            proof {
                let next = (index + 1) as nat;
                assert(self@.complaints(node@, next) == texts_view(missing@));
                assert forall|k: u64| next <= k && dom.contains(k) implies exists|j: int|
                    i + 1 <= j < indices@.len() && #[trigger] indices@[j] == k by {
                    let j = choose|j: int| i <= j < indices@.len() && #[trigger] indices@[j] == k;
                    assert(j != i);
                }
                below = next;
            }
            i = i + 1;
        }
        proof {
            let all = (u64::MAX + 1) as nat;
            if missing@.len() < LISTED {
                assert forall|k: u64| below <= k < all implies !self@.committed.contains_key(k) by {
                    if dom.contains(k) {
                        let j = choose|j: int|
                            i <= j < indices@.len() && #[trigger] indices@[j] == k;
                    }
                }
                lemma_complaints_skip(self@, node@, below, all);
            } else {
                lemma_complaints_full(self@, node@, below, all);
            }
        }
        if missing.len() > 0 {
            self.fail(
                tick,
                Invariant::LeaderCompleteness,
                incomplete_text(node.id(), node.current_term(), &missing),
            );
        }
    }

    fn check_new_leader(&mut self, tick: Tick, node: &RaftNode)
        ensures
            final(self)@ == old(self)@.check_new_leader(tick, node@),
    {
        let term: u64 = node.current_term();
        if node.role() == Role::Leader && !self.completeness_checked.contains_key(&term) {
            self.completeness_checked.insert(term, node.id());
            self.check_leader_completeness(tick, node);
        }
    }

    fn check_slot(&mut self, tick: Tick, node: &RaftNode, index: Index)
        requires
            node@.wf(),
            index > 0,
        ensures
            final(self)@ == old(self)@.check_slot(tick, node@, index),
    {
        let entry = match node.log().get(index) {
            Some(e) => e,
            None => return,
        };
        let digest: u64 = entry_digest(entry);
        let term: u64 = entry.term;
        let prev_term: u64 = match node.log().term_at(index - 1) {
            Some(t) => t,
            None => 0,
        };
        let known: Option<LogFact> = match self.log_facts.get(&(index, term)) {
            Some(f) => Some(*f),
            None => None,
        };
        match known {
            Some(fact) => {
                if fact.digest != digest {
                    self.fail(
                        tick,
                        Invariant::LogMatching,
                        contents_differ_text(fact.node, node.id(), index, term),
                    );
                } else if fact.prev_term != prev_term {
                    self.fail(
                        tick,
                        Invariant::LogMatching,
                        histories_differ_text(
                            fact.node,
                            node.id(),
                            index,
                            term,
                            fact.prev_term,
                            prev_term,
                        ),
                    );
                }
            },
            None => {
                self.log_facts.insert(
                    (index, term),
                    LogFact { prev_term, digest, node: node.id() },
                );
            },
        }
    }

    fn check_log(&mut self, tick: Tick, node: &RaftNode, dirty_from: Option<Index>)
        requires
            node@.wf(),
        ensures
            final(self)@ == old(self)@.check_log(tick, node@, dirty_from),
    {
        let from: u64 = match dirty_from {
            Some(f) => f,
            None => return,
        };
        let first: u64 = node.log().first_index();
        let start: u64 = if from < first {
            first
        } else {
            from
        };
        let end: u64 = node.log().last_index() + 1;
        let mut index: u64 = start;
        let ghost was = self@;
        while index < end
            invariant
                start <= index,
                start > 0,
                index <= end || index == start,
                node@.wf(),
                self@ == was.check_slots(tick, node@, start as int, index as int),
            decreases end - index,
        {
            self.check_slot(tick, node, index);
            index = index + 1;
        }
        proof {
            if index > end {
                assert(index == start);
                assert(was.check_slots(tick, node@, start as int, end as int) == was);
            }
        }
    }

    /// A node is about to discard the entry at `from` and everything after it.
    ///
    /// Truncating at or below the node's own commit index means it is throwing
    /// away entries it had already concluded were committed. This is about what
    /// a node does to itself, so a lagging replica does not trip it.
    pub fn observe_truncation(&mut self, tick: Tick, node: NodeId, from: Index, commit_index: Index)
        ensures
            final(self)@ == old(self)@.observe_truncation(tick, node, from, commit_index),
    {
        self.checks = self.checks.saturating_add(1);
        if from <= commit_index {
            self.fail(
                tick,
                Invariant::CommittedPrefixNeverTruncated,
                truncated_committed_text(node, from, commit_index),
            );
        }
    }

    fn record_commit(&mut self, tick: Tick, node: &RaftNode, index: Index)
        ensures
            final(self)@ == old(self)@.record_commit(tick, node@, index),
    {
        let entry = match node.log().get(index) {
            Some(e) => e,
            None => return,
        };
        let digest: u64 = entry_digest(entry);
        let term: u64 = entry.term;
        let commit_term: u64 = node.current_term();
        let known: Option<CommittedFact> = match self.committed.get(&index) {
            Some(f) => Some(*f),
            None => None,
        };
        match known {
            Some(fact) => {
                if fact.term != term || fact.digest != digest {
                    self.fail(
                        tick,
                        Invariant::CommittedEntriesStable,
                        committed_differently_text(node.id(), term, index, fact.node, fact.term),
                    );
                } else if commit_term < fact.commit_term {
                    self.committed.insert(index, CommittedFact { commit_term, ..fact });
                }
            },
            None => {
                self.committed.insert(
                    index,
                    CommittedFact { term, commit_term, digest, node: node.id(), tick },
                );
            },
        }
    }

    fn record_commits(&mut self, tick: Tick, node: &RaftNode)
        ensures
            final(self)@ == old(self)@.record_commits(tick, node@),
    {
        let id: u32 = node.id();
        let commit: u64 = node.commit_index();
        let watermark: u64 = lookup(&self.commit_watermark, id);
        let ghost was = self@;
        let mut done: u64 = watermark;
        while done < commit
            invariant
                commit == node@.commit_index,
                watermark <= done,
                done <= commit || done == watermark,
                self@ == was.record_range(tick, node@, watermark + 1, done + 1),
            decreases commit - done,
        {
            done = done + 1;
            self.record_commit(tick, node, done);
        }
        proof {
            if done > commit {
                assert(was.record_range(tick, node@, watermark + 1, commit + 1) == was);
            }
        }
        self.commit_watermark.insert(
            id,
            if commit < watermark {
                watermark
            } else {
                commit
            },
        );
    }

    /// Check everything observable about one node after it has taken a step.
    ///
    /// Only the node that stepped can have changed, so this is called for that
    /// node alone. `dirty_from` is the lowest log index the step touched, or
    /// `None` if the log did not change.
    pub fn observe_node(&mut self, tick: Tick, node: &RaftNode, dirty_from: Option<Index>)
        requires
            node@.wf(),
        ensures
            final(self)@ == old(self)@.observe_node(tick, node@, dirty_from),
    {
        proof {
            reveal(CheckerView::observe_node);
        }
        self.checks = self.checks.saturating_add(1);
        let id: u32 = node.id();
        let term: u64 = node.current_term();
        self.check_term(tick, id, term);
        if node.role() == Role::Leader {
            self.check_leader(tick, id, term);
        }
        self.check_vote(tick, id, term, node.voted_for());
        self.check_commit(tick, id, node.commit_index(), node.log().last_index());
        self.check_new_leader(tick, node);
        self.check_log(tick, node, dirty_from);
        self.record_commits(tick, node);
    }

    /// Check an entry as it reaches a state machine.
    pub fn observe_apply(
        &mut self,
        tick: Tick,
        node: NodeId,
        index: Index,
        term: Term,
        command: &Option<KvCommand>,
    )
        ensures
            final(self)@ == old(self)@.observe_apply(
                tick,
                node,
                index,
                term,
                crate::kv::command_view(*command),
            ),
    {
        proof {
            reveal(CheckerView::observe_apply);
        }
        self.checks = self.checks.saturating_add(1);
        let watermark: u64 = lookup(&self.applied_watermark, node);
        let expected: u64 = watermark.saturating_add(1);
        if index != expected {
            self.fail(tick, Invariant::AppliedInOrder, out_of_order_text(node, index, expected));
        }
        self.applied_watermark.insert(node, index);
        let complaint: Option<String> = match self.applied.get(&index) {
            Some(fact) => {
                if fact.term != term || !crate::kv::same_command(&fact.command, command) {
                    Some(applied_differently_text(index, fact, node, command, term))
                } else {
                    None
                }
            },
            None => None,
        };
        if self.applied.contains_key(&index) {
            match complaint {
                Some(detail) => self.fail(tick, Invariant::StateMachineSafety, detail),
                None => {},
            }
        } else {
            let ghost before = self.applied@;
            let fact = AppliedFact { term, command: crate::kv::copy_command(command), node };
            self.applied.insert(index, fact);
            assert(applied_facts(self.applied@) =~= applied_facts(before).insert(index, fact@));
        }
    }
}

/// A full list stays as it is.
proof fn lemma_complaints_full(c: CheckerView, node: NodeView, from: nat, to: nat)
    requires
        from <= to,
        c.complaints(node, from).len() >= LISTED,
    ensures
        c.complaints(node, to) == c.complaints(node, from),
    decreases to,
{
    if from < to {
        lemma_complaints_full(c, node, from, (to - 1) as nat);
    }
}

} // verus!
