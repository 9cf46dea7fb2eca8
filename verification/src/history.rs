//! Recording what clients asked for and what they were told.
//!
//! The whole value of this file is in one distinction. An operation that never
//! received a response is **not** a failed operation. It may have committed and
//! been applied; the client simply never found out. The ambiguity is recorded
//! explicitly and carried all the way into the linearizability search.
use crate::kv::{CommandView, KvCommand, KvResult, ResultView};
use crate::kvmap::KvMap;
use crate::text::{push_decimal, push_shown_option};
use crate::{ClientId, Tick};
use std::collections::BTreeMap;
use vstd::prelude::*;

verus! {

broadcast use {vstd::laws_cmp::group_laws_cmp, vstd::std_specs::btree::group_btree_axioms};

pub type OpId = u32;

/// What became of an operation.
#[derive(Debug, PartialEq, Eq)]
pub enum Outcome {
    /// The client got an answer. It definitely took effect, with this result.
    Completed { at: Tick, result: KvResult },
    /// The node refused it outright, so the command never entered any log. This
    /// one really did not happen: a refusal is information, silence is not.
    Rejected { at: Tick },
    /// No response ever arrived. The operation may or may not have taken
    /// effect, at any point after it was invoked.
    Pending,
}

pub enum OutcomeView {
    Completed { at: u64, result: ResultView },
    Rejected { at: u64 },
    Pending,
}

impl View for Outcome {
    type V = OutcomeView;

    open spec fn view(&self) -> OutcomeView {
        match *self {
            Outcome::Completed { at, result } => OutcomeView::Completed { at, result: result@ },
            Outcome::Rejected { at } => OutcomeView::Rejected { at },
            Outcome::Pending => OutcomeView::Pending,
        }
    }
}

impl Clone for Outcome {
    fn clone(&self) -> (r: Self)
        ensures
            r@ == self@,
    {
        match self {
            Outcome::Completed { at, result } => Outcome::Completed {
                at: *at,
                result: result.clone(),
            },
            Outcome::Rejected { at } => Outcome::Rejected { at: *at },
            Outcome::Pending => Outcome::Pending,
        }
    }
}

#[derive(Debug, PartialEq, Eq)]
pub struct Operation {
    pub id: OpId,
    /// The client that issued it.
    pub process: ClientId,
    pub seq: u64,
    pub command: KvCommand,
    pub invoked: Tick,
    pub outcome: Outcome,
    /// How many times the client sent this request. A retry is not a new
    /// operation: the logical operation spans from the first attempt to
    /// whenever the client finally hears.
    pub attempts: u32,
    /// How many attempts came back explicitly refused.
    pub refusals: u32,
}

pub struct OpView {
    pub id: u32,
    pub process: u32,
    pub seq: u64,
    pub command: CommandView,
    pub invoked: u64,
    pub outcome: OutcomeView,
    pub attempts: u32,
    pub refusals: u32,
}

impl View for Operation {
    type V = OpView;

    open spec fn view(&self) -> OpView {
        OpView {
            id: self.id,
            process: self.process,
            seq: self.seq,
            command: self.command@,
            invoked: self.invoked,
            outcome: self.outcome@,
            attempts: self.attempts,
            refusals: self.refusals,
        }
    }
}

impl Clone for Operation {
    fn clone(&self) -> (r: Self)
        ensures
            r@ == self@,
    {
        Operation {
            id: self.id,
            process: self.process,
            seq: self.seq,
            command: self.command.clone(),
            invoked: self.invoked,
            outcome: self.outcome.clone(),
            attempts: self.attempts,
            refusals: self.refusals,
        }
    }
}

/// How a command is shown in a report.
pub open spec fn command_words(c: CommandView) -> Seq<char> {
    let none = Seq::<char>::empty();
    match c {
        CommandView::Get { key } => none + "get("@ + key + ")"@,
        CommandView::Put { key, value } => none + "put("@ + key + ", "@ + value + ")"@,
        CommandView::Delete { key } => none + "del("@ + key + ")"@,
        CommandView::Cas { key, expect, value } => none + "cas("@ + key + ", "@
            + crate::text::shown_option(expect) + " -> "@ + value + ")"@,
    }
}

/// How a result is shown in a report.
pub open spec fn result_words(r: ResultView) -> Seq<char> {
    match r {
        ResultView::Value(Some(v)) => v,
        ResultView::Value(None) => "nil"@,
        ResultView::Done => "ok"@,
        ResultView::CasFailed { actual: Some(v) } => "cas-failed(actual "@ + v + ")"@,
        ResultView::CasFailed { actual: None } => "cas-failed(actual nil)"@,
    }
}

impl OpView {
    pub open spec fn responded(self) -> Option<u64> {
        match self.outcome {
            OutcomeView::Completed { at, result } => Some(at),
            OutcomeView::Rejected { at } => Some(at),
            OutcomeView::Pending => None,
        }
    }

    pub open spec fn result(self) -> Option<ResultView> {
        match self.outcome {
            OutcomeView::Completed { at, result } => Some(result),
            _ => None,
        }
    }

    pub open spec fn describe(self) -> Seq<char> {
        let none = Seq::<char>::empty();
        let invoked = crate::text::decimal(self.invoked as nat);
        let who = crate::text::decimal(self.process as nat);
        match self.outcome {
            OutcomeView::Completed { at, result } => none + "["@ + invoked + ".."@
                + crate::text::decimal(at as nat) + "] c"@ + who + " "@ + command_words(
                self.command,
            ) + " = "@ + result_words(result),
            OutcomeView::Rejected { at } => none + "["@ + invoked + ".."@ + crate::text::decimal(
                at as nat,
            ) + "] c"@ + who + " "@ + command_words(self.command) + " = "@ + "rejected"@,
            OutcomeView::Pending => none + "["@ + invoked + "..?] c"@ + who + " "@ + command_words(
                self.command,
            ) + " = "@ + "NO RESPONSE"@,
        }
    }
}

fn command_text(command: &KvCommand) -> (r: String)
    ensures
        r@ == command_words(command@),
{
    let mut r = String::new();
    match command {
        KvCommand::Get { key } => {
            r.append("get(");
            r.append(key.as_str());
        },
        KvCommand::Put { key, value } => {
            r.append("put(");
            r.append(key.as_str());
            r.append(", ");
            r.append(value.as_str());
        },
        KvCommand::Delete { key } => {
            r.append("del(");
            r.append(key.as_str());
        },
        KvCommand::Cas { key, expect, value } => {
            r.append("cas(");
            r.append(key.as_str());
            r.append(", ");
            push_shown_option(&mut r, expect);
            r.append(" -> ");
            r.append(value.as_str());
        },
    }
    r.append(")");
    r
}

/// A result, in words.
pub fn show(result: &KvResult) -> (r: String)
    ensures
        r@ == result_words(result@),
{
    match result {
        KvResult::Value(v) => match v {
            Some(v) => v.clone(),
            None => "nil".to_owned(),
        },
        KvResult::Done => "ok".to_owned(),
        KvResult::CasFailed { actual } => match actual {
            Some(v) => {
                let mut r = "cas-failed(actual ".to_owned();
                r.append(v.as_str());
                r.append(")");
                r
            },
            None => "cas-failed(actual nil)".to_owned(),
        },
    }
}

impl Operation {
    pub fn key(&self) -> (r: &str)
        ensures
            r@ == self@.command.key(),
    {
        self.command.key()
    }

    pub fn is_read_only(&self) -> (r: bool)
        ensures
            r == self@.command.is_read_only(),
    {
        self.command.is_read_only()
    }

    /// When the client learned the answer, or `None` while it is still in
    /// flight. A pending operation has no response time: not an infinitely late
    /// one and not the moment it was invoked.
    pub fn responded(&self) -> (r: Option<Tick>)
        ensures
            r == self@.responded(),
    {
        match &self.outcome {
            Outcome::Completed { at, result: _ } => Some(*at),
            Outcome::Rejected { at } => Some(*at),
            Outcome::Pending => None,
        }
    }

    pub fn result(&self) -> (r: Option<&KvResult>)
        ensures
            r is Some == self@.result() is Some,
            r matches Some(x) ==> self@.result() == Some(x@),
    {
        match &self.outcome {
            Outcome::Completed { at: _, result } => Some(result),
            _ => None,
        }
    }

    /// A short description for reports.
    pub fn describe(&self) -> (r: String)
        ensures
            r@ == self@.describe(),
    {
        let mut r = String::new();
        r.append("[");
        push_decimal(&mut r, self.invoked);
        match &self.outcome {
            Outcome::Completed { at, result: _ } => {
                r.append("..");
                push_decimal(&mut r, *at);
                r.append("] c");
            },
            Outcome::Rejected { at } => {
                r.append("..");
                push_decimal(&mut r, *at);
                r.append("] c");
            },
            Outcome::Pending => {
                r.append("..?] c");
            },
        }
        push_decimal(&mut r, self.process as u64);
        r.append(" ");
        r.append(command_text(&self.command).as_str());
        r.append(" = ");
        match &self.outcome {
            Outcome::Completed { at: _, result } => {
                r.append(show(result).as_str());
            },
            Outcome::Rejected { at: _ } => {
                r.append("rejected");
            },
            Outcome::Pending => {
                r.append("NO RESPONSE");
            },
        }
        r
    }
}

// ---------------------------------------------------------------------------
// The history
// ---------------------------------------------------------------------------

/// A history as a mathematical value.
#[verifier::ext_equal]
pub struct HistoryView {
    pub ops: Seq<OpView>,
    /// Where each request lives, so a response can find it.
    pub index: Map<(u32, u64), usize>,
}

pub open spec fn ops_view(s: Seq<Operation>) -> Seq<OpView> {
    Seq::new(s.len(), |i: int| s[i]@)
}

/// How many of the first `n` operations satisfy `test`.
pub open spec fn count_ops(ops: Seq<OpView>, n: int, test: spec_fn(OpView) -> bool) -> nat
    decreases n,
{
    if n <= 0 {
        0
    } else {
        count_ops(ops, n - 1, test) + if test(ops[n - 1]) {
            1nat
        } else {
            0nat
        }
    }
}

impl HistoryView {
    pub open spec fn empty() -> HistoryView {
        HistoryView { ops: Seq::empty(), index: Map::empty() }
    }

    /// The place of a request.
    pub open spec fn find(self, process: u32, seq: u64) -> Option<int> {
        if self.index.contains_key((process, seq)) && self.index[(process, seq)] < self.ops.len() {
            Some(self.index[(process, seq)] as int)
        } else {
            None
        }
    }

    /// The operation that a request which is still in flight belongs to.
    pub open spec fn in_flight(self, process: u32, seq: u64) -> Option<int> {
        match self.find(process, seq) {
            Some(i) if self.ops[i].outcome is Pending => Some(i),
            _ => None,
        }
    }

    /// An attempt at a request: a retry of what is in flight, or an operation of
    /// its own.
    pub open spec fn invoke(
        self,
        process: u32,
        seq: u64,
        command: CommandView,
        at: u64,
    ) -> HistoryView {
        match self.in_flight(process, seq) {
            Some(i) => HistoryView {
                ops: self.ops.update(
                    i,
                    OpView {
                        attempts: self.ops[i].attempts.saturating_add(1),
                        ..self.ops[i]
                    },
                ),
                ..self
            },
            None => HistoryView {
                ops: self.ops.push(
                    OpView {
                        id: self.ops.len() as u32,
                        process,
                        seq,
                        command,
                        invoked: at,
                        outcome: OutcomeView::Pending,
                        attempts: 1,
                        refusals: 0,
                    },
                ),
                index: self.index.insert((process, seq), self.ops.len() as usize),
            },
        }
    }

    pub open spec fn invoke_id(self, process: u32, seq: u64) -> u32 {
        match self.in_flight(process, seq) {
            Some(i) => self.ops[i].id,
            None => self.ops.len() as u32,
        }
    }

    pub open spec fn complete(
        self,
        process: u32,
        seq: u64,
        at: u64,
        result: ResultView,
    ) -> HistoryView {
        match self.in_flight(process, seq) {
            Some(i) => HistoryView {
                ops: self.ops.update(
                    i,
                    OpView {
                        outcome: OutcomeView::Completed { at, result },
                        ..self.ops[i]
                    },
                ),
                ..self
            },
            None => self,
        }
    }

    pub open spec fn refuse(self, process: u32, seq: u64) -> HistoryView {
        match self.in_flight(process, seq) {
            Some(i) => HistoryView {
                ops: self.ops.update(
                    i,
                    OpView {
                        refusals: self.ops[i].refusals.saturating_add(1),
                        ..self.ops[i]
                    },
                ),
                ..self
            },
            None => self,
        }
    }

    pub open spec fn abandon(self, process: u32, seq: u64, at: u64) -> HistoryView {
        match self.in_flight(process, seq) {
            Some(i) if self.ops[i].refusals >= self.ops[i].attempts => HistoryView {
                ops: self.ops.update(
                    i,
                    OpView { outcome: OutcomeView::Rejected { at }, ..self.ops[i] },
                ),
                ..self
            },
            _ => self,
        }
    }

    pub open spec fn outcome_of(self, process: u32, seq: u64) -> Option<OutcomeView> {
        match self.find(process, seq) {
            Some(i) => Some(self.ops[i].outcome),
            None => None,
        }
    }

    pub open spec fn is_answered(self, process: u32, seq: u64) -> bool {
        match self.outcome_of(process, seq) {
            None => false,
            Some(outcome) => !(outcome is Pending),
        }
    }

    /// The keys that operations touch.
    pub open spec fn keys(self) -> Set<Seq<char>> {
        keys_of(self.ops, self.ops.len() as int)
    }

    /// The operations on one key, in the order they were invoked.
    pub open spec fn on_key(self, key: Seq<char>) -> Seq<OpView> {
        ops_on(self.ops, self.ops.len() as int, key)
    }
}

pub open spec fn keys_of(ops: Seq<OpView>, n: int) -> Set<Seq<char>>
    decreases n,
{
    if n <= 0 {
        Set::empty()
    } else {
        keys_of(ops, n - 1).insert(ops[n - 1].command.key())
    }
}

pub open spec fn ops_on(ops: Seq<OpView>, n: int, key: Seq<char>) -> Seq<OpView>
    decreases n,
{
    if n <= 0 {
        Seq::empty()
    } else if ops[n - 1].command.key() == key {
        ops_on(ops, n - 1, key).push(ops[n - 1])
    } else {
        ops_on(ops, n - 1, key)
    }
}

/// A retry is the same logical operation: it keeps the time of the first
/// attempt and adds none. A new request is one more, invoked now.
pub proof fn law_retries_extend(
    h: HistoryView,
    process: u32,
    seq: u64,
    command: CommandView,
    at: u64,
)
    requires
        h.ops.len() < usize::MAX,
    ensures
        ({
            let after = h.invoke(process, seq, command, at);
            &&& after.in_flight(process, seq) is Some
            &&& h.in_flight(process, seq) matches Some(i) ==> after.ops.len() == h.ops.len()
                && after.in_flight(process, seq) == Some(i) && after.ops[i].invoked
                == h.ops[i].invoked
            &&& h.in_flight(process, seq) is None ==> after.ops.len() == h.ops.len() + 1
                && after.ops.last().invoked == at
        }),
{
}

/// What a client was told stays what it was told: a second response, a refusal
/// or an abandonment after it changes nothing.
pub proof fn law_first_answer_stands(
    h: HistoryView,
    process: u32,
    seq: u64,
    at: u64,
    result: ResultView,
)
    requires
        h.is_answered(process, seq),
    ensures
        h.complete(process, seq, at, result) == h,
        h.refuse(process, seq) == h,
        h.abandon(process, seq, at) == h,
{
}

/// A request that was never sent cannot be answered.
pub proof fn law_unknown_requests_are_ignored(
    h: HistoryView,
    process: u32,
    seq: u64,
    at: u64,
    result: ResultView,
)
    requires
        h.find(process, seq) is None,
    ensures
        h.complete(process, seq, at, result) == h,
        h.refuse(process, seq) == h,
        h.abandon(process, seq, at) == h,
{
}

/// Silence is not a refusal: an operation is rejected only once every attempt
/// at it was refused.
pub proof fn law_silence_is_not_refusal(h: HistoryView, process: u32, seq: u64, at: u64)
    ensures
        ({
            let after = h.abandon(process, seq, at);
            h.in_flight(process, seq) matches Some(i) ==> (after.ops[i].outcome is Rejected
                <==> h.ops[i].refusals >= h.ops[i].attempts) && (h.ops[i].refusals
                < h.ops[i].attempts ==> after == h)
        }),
{
}

#[derive(Debug, PartialEq, Eq)]
pub struct History {
    ops: Vec<Operation>,
    index: BTreeMap<(ClientId, u64), usize>,
}

impl View for History {
    type V = HistoryView;

    closed spec fn view(&self) -> HistoryView {
        HistoryView { ops: ops_view(self.ops@), index: self.index@ }
    }
}

impl Clone for History {
    fn clone(&self) -> (r: Self)
        ensures
            r@ == self@,
    {
        let mut ops: Vec<Operation> = Vec::new();
        let mut i: usize = 0;
        while i < self.ops.len()
            invariant
                i <= self.ops@.len(),
                ops@.len() == i,
                forall|k: int| 0 <= k < i ==> (#[trigger] ops@[k])@ == self.ops@[k]@,
            decreases self.ops@.len() - i,
        {
            ops.push(self.ops[i].clone());
            i = i + 1;
        }
        let r = History { ops, index: self.index.clone() };
        assert(r@ =~= self@);
        r
    }
}

impl Default for History {
    fn default() -> (r: Self)
        ensures
            r@ == HistoryView::empty(),
    {
        History::new()
    }
}

impl History {
    pub fn new() -> (r: Self)
        ensures
            r@ == HistoryView::empty(),
    {
        let r = History { ops: Vec::new(), index: BTreeMap::new() };
        assert(r@ =~= HistoryView::empty());
        r
    }

    fn find(&self, process: ClientId, seq: u64) -> (r: Option<usize>)
        ensures
            r is Some == self@.find(process, seq) is Some,
            r matches Some(i) ==> self@.find(process, seq) == Some(i as int),
    {
        match self.index.get(&(process, seq)) {
            Some(i) => if *i < self.ops.len() {
                Some(*i)
            } else {
                None
            },
            None => None,
        }
    }

    fn in_flight(&self, process: ClientId, seq: u64) -> (r: Option<usize>)
        ensures
            r is Some == self@.in_flight(process, seq) is Some,
            r matches Some(i) ==> self@.in_flight(process, seq) == Some(i as int) && i
                < self.ops@.len(),
    {
        match self.find(process, seq) {
            Some(i) => match &self.ops[i].outcome {
                Outcome::Pending => Some(i),
                _ => None,
            },
            None => None,
        }
    }

    /// Put an operation in the place of another.
    fn replace(&mut self, i: usize, op: Operation)
        requires
            i < old(self)@.ops.len(),
        ensures
            final(self)@.ops == old(self)@.ops.update(i as int, op@),
            final(self)@.index == old(self)@.index,
    {
        let ghost before = self.ops@;
        let ghost new = op@;
        self.ops.set(i, op);
        assert(ops_view(self.ops@) =~= ops_view(before).update(i as int, new));
    }

    /// Record an attempt at a request.
    ///
    /// A repeat of a `(client, seq)` that is still in flight is a *retry*, not a
    /// new operation: the invocation time stays at the first attempt and only
    /// the attempt count moves. Recording retries as separate operations would
    /// invent concurrency that never existed.
    pub fn invoke(&mut self, process: ClientId, seq: u64, command: KvCommand, at: Tick) -> (r: OpId)
        ensures
            final(self)@ == old(self)@.invoke(process, seq, command@, at),
            r == old(self)@.invoke_id(process, seq),
    {
        match self.in_flight(process, seq) {
            Some(i) => {
                let mut op = self.ops[i].clone();
                op.attempts = op.attempts.saturating_add(1);
                let id: u32 = op.id;
                self.replace(i, op);
                id
            },
            None => {
                let place: usize = self.ops.len();
                let id: u32 = place as u32;
                self.index.insert((process, seq), place);
                let ghost before = self.ops@;
                let op = Operation {
                    id,
                    process,
                    seq,
                    command,
                    invoked: at,
                    outcome: Outcome::Pending,
                    attempts: 1,
                    refusals: 0,
                };
                let ghost new = op@;
                self.ops.push(op);
                assert(ops_view(self.ops@) =~= ops_view(before).push(new));
                id
            },
        }
    }

    /// Record a response. Ignored if this request already has one: a second
    /// leader re-applying the same entry must not overwrite what the client was
    /// originally told.
    pub fn complete(&mut self, process: ClientId, seq: u64, at: Tick, result: KvResult)
        ensures
            final(self)@ == old(self)@.complete(process, seq, at, result@),
    {
        match self.in_flight(process, seq) {
            Some(i) => {
                let mut op = self.ops[i].clone();
                op.outcome = Outcome::Completed { at, result };
                self.replace(i, op);
            },
            None => {},
        }
    }

    /// One attempt was refused outright.
    ///
    /// This does not close the operation: the client is expected to try
    /// somewhere else with the same sequence number.
    pub fn refuse(&mut self, process: ClientId, seq: u64)
        ensures
            final(self)@ == old(self)@.refuse(process, seq),
    {
        match self.in_flight(process, seq) {
            Some(i) => {
                let mut op = self.ops[i].clone();
                op.refusals = op.refusals.saturating_add(1);
                self.replace(i, op);
            },
            None => {},
        }
    }

    /// The client stopped trying.
    ///
    /// If *every* attempt was explicitly refused, the command never entered any
    /// log and definitely did not happen. If any attempt simply went
    /// unanswered, it may have committed anyway, and the operation stays
    /// pending.
    pub fn abandon(&mut self, process: ClientId, seq: u64, at: Tick)
        ensures
            final(self)@ == old(self)@.abandon(process, seq, at),
    {
        match self.in_flight(process, seq) {
            Some(i) => {
                if self.ops[i].refusals >= self.ops[i].attempts {
                    let mut op = self.ops[i].clone();
                    op.outcome = Outcome::Rejected { at };
                    self.replace(i, op);
                }
            },
            None => {},
        }
    }

    pub fn outcome_of(&self, process: ClientId, seq: u64) -> (r: Option<&Outcome>)
        ensures
            r is Some == self@.outcome_of(process, seq) is Some,
            r matches Some(o) ==> self@.outcome_of(process, seq) == Some(o@),
    {
        match self.find(process, seq) {
            Some(i) => Some(&self.ops[i].outcome),
            None => None,
        }
    }

    pub fn is_answered(&self, process: ClientId, seq: u64) -> (r: bool)
        ensures
            r == self@.is_answered(process, seq),
    {
        match self.outcome_of(process, seq) {
            Some(o) => match o {
                Outcome::Pending => false,
                _ => true,
            },
            None => false,
        }
    }

    pub fn operations(&self) -> (r: &[Operation])
        ensures
            ops_view(r@) == self@.ops,
    {
        self.ops.as_slice()
    }

    pub fn len(&self) -> (r: usize)
        ensures
            r == self@.ops.len(),
    {
        self.ops.len()
    }

    pub fn is_empty(&self) -> (r: bool)
        ensures
            r == (self@.ops.len() == 0),
    {
        self.ops.len() == 0
    }

    pub fn completed(&self) -> (r: usize)
        ensures
            r == count_ops(
                self@.ops,
                self@.ops.len() as int,
                |o: OpView| o.outcome is Completed,
            ),
    {
        let mut n: usize = 0;
        let mut i: usize = 0;
        let ghost test = |o: OpView| o.outcome is Completed;
        while i < self.ops.len()
            invariant
                i <= self.ops@.len(),
                n <= i,
                test == (|o: OpView| o.outcome is Completed),
                n == count_ops(self@.ops, i as int, test),
            decreases self.ops@.len() - i,
        {
            assert(self@.ops[i as int] == self.ops@[i as int]@);
            match &self.ops[i].outcome {
                Outcome::Completed { at: _, result: _ } => {
                    n = n + 1;
                },
                _ => {},
            }
            i = i + 1;
        }
        n
    }

    pub fn pending(&self) -> (r: usize)
        ensures
            r == count_ops(self@.ops, self@.ops.len() as int, |o: OpView| o.outcome is Pending),
    {
        let mut n: usize = 0;
        let mut i: usize = 0;
        let ghost test = |o: OpView| o.outcome is Pending;
        while i < self.ops.len()
            invariant
                i <= self.ops@.len(),
                n <= i,
                test == (|o: OpView| o.outcome is Pending),
                n == count_ops(self@.ops, i as int, test),
            decreases self.ops@.len() - i,
        {
            assert(self@.ops[i as int] == self.ops@[i as int]@);
            match &self.ops[i].outcome {
                Outcome::Pending => {
                    n = n + 1;
                },
                _ => {},
            }
            i = i + 1;
        }
        n
    }

    /// Operations that had at least one attempt explicitly refused.
    ///
    /// Distinct from `rejected`: a refusal is a failed attempt, and the
    /// operation is only *rejected* once the client gives up having been
    /// refused every time.
    pub fn refused(&self) -> (r: usize)
        ensures
            r == count_ops(self@.ops, self@.ops.len() as int, |o: OpView| o.refusals > 0),
    {
        let mut n: usize = 0;
        let mut i: usize = 0;
        let ghost test = |o: OpView| o.refusals > 0;
        while i < self.ops.len()
            invariant
                i <= self.ops@.len(),
                n <= i,
                test == (|o: OpView| o.refusals > 0),
                n == count_ops(self@.ops, i as int, test),
            decreases self.ops@.len() - i,
        {
            assert(self@.ops[i as int] == self.ops@[i as int]@);
            if self.ops[i].refusals > 0 {
                n = n + 1;
            }
            i = i + 1;
        }
        n
    }

    pub fn rejected(&self) -> (r: usize)
        ensures
            r == count_ops(self@.ops, self@.ops.len() as int, |o: OpView| o.outcome is Rejected),
    {
        let mut n: usize = 0;
        let mut i: usize = 0;
        let ghost test = |o: OpView| o.outcome is Rejected;
        while i < self.ops.len()
            invariant
                i <= self.ops@.len(),
                n <= i,
                test == (|o: OpView| o.outcome is Rejected),
                n == count_ops(self@.ops, i as int, test),
            decreases self.ops@.len() - i,
        {
            assert(self@.ops[i as int] == self.ops@[i as int]@);
            match &self.ops[i].outcome {
                Outcome::Rejected { at: _ } => {
                    n = n + 1;
                },
                _ => {},
            }
            i = i + 1;
        }
        n
    }

    /// The keys that operations touch, in order.
    fn keys(&self) -> (r: Vec<String>)
        ensures
            texts_are(r@, crate::kvmap::keys_in_order(self@.keys())),
    {
        let mut set = KvMap::new();
        let mut i: usize = 0;
        assert(set@.dom() =~= keys_of(self@.ops, 0));
        while i < self.ops.len()
            invariant
                i <= self.ops@.len(),
                set.wf(),
                set@.dom() == keys_of(self@.ops, i as int),
            decreases self.ops@.len() - i,
        {
            let ghost before = set@;
            assert(self@.ops[i as int] == self.ops@[i as int]@);
            set.insert(self.ops[i].key().to_owned(), String::new());
            assert(set@.dom() =~= before.dom().insert(self@.ops[i as int].command.key()));
            i = i + 1;
        }
        set.keys()
    }

    /// The operations on one key.
    fn on_key(&self, key: &str) -> (r: Vec<&Operation>)
        ensures
            refs_view(r@) == self@.on_key(key@),
    {
        let mut r: Vec<&Operation> = Vec::new();
        let mut i: usize = 0;
        assert(refs_view(r@) =~= ops_on(self@.ops, 0, key@));
        while i < self.ops.len()
            invariant
                i <= self.ops@.len(),
                refs_view(r@) == ops_on(self@.ops, i as int, key@),
            decreases self.ops@.len() - i,
        {
            assert(self@.ops[i as int] == self.ops@[i as int]@);
            let ghost before = r@;
            if crate::kvmap::same_str(self.ops[i].key(), key) {
                r.push(&self.ops[i]);
                assert(refs_view(r@) =~= refs_view(before).push(self@.ops[i as int]));
            }
            i = i + 1;
        }
        r
    }

    /// Split into independent per-key sub-histories.
    ///
    /// A history over a set of independent objects is linearizable exactly when
    /// each object's sub-history is, and every command here touches exactly one
    /// key. The split is what makes the search affordable: it is exponential in
    /// the size of what it is given.
    pub fn by_key(&self) -> (r: Vec<(String, Vec<&Operation>)>)
        ensures
            r@.len() == crate::kvmap::keys_in_order(self@.keys()).len(),
            forall|i: int|
                0 <= i < r@.len() ==> (#[trigger] r@[i]).0@ == crate::kvmap::keys_in_order(
                    self@.keys(),
                )[i] && refs_view(r@[i].1@) == self@.on_key(r@[i].0@),
    {
        let keys = self.keys();
        let mut r: Vec<(String, Vec<&Operation>)> = Vec::new();
        let mut i: usize = 0;
        while i < keys.len()
            invariant
                i <= keys@.len(),
                r@.len() == i,
                texts_are(keys@, crate::kvmap::keys_in_order(self@.keys())),
                forall|k: int|
                    0 <= k < i ==> (#[trigger] r@[k]).0@ == keys@[k]@ && refs_view(r@[k].1@)
                        == self@.on_key(r@[k].0@),
            decreases keys@.len() - i,
        {
            let ops = self.on_key(keys[i].as_str());
            r.push((keys[i].clone(), ops));
            i = i + 1;
        }
        r
    }
}

/// These strings have these views.
pub open spec fn texts_are(s: Seq<String>, t: Seq<Seq<char>>) -> bool {
    s.len() == t.len() && forall|i: int| 0 <= i < s.len() ==> (#[trigger] s[i])@ == t[i]
}

pub open spec fn refs_view(s: Seq<&Operation>) -> Seq<OpView> {
    Seq::new(s.len(), |i: int| s[i]@)
}

} // verus!
