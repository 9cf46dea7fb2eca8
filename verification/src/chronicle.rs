//! The history of a cluster, and what follows from it.
//!
//! A [`Chronicle`] is a ghost record of what mattered: who voted for whom and
//! holding what, who won which term and what its log has been since, and how
//! far each node ever acknowledged a term's log. What is said of one that is
//! [`true_to_raft`](Chronicle::true_to_raft) is enough to show that a term has
//! one leader, that a committed entry is in the log of every later leader, and
//! that no two committed prefixes disagree; all of it while the membership
//! changes.
use crate::config::ConfigView;
use crate::log::{EntryView, PayloadView};
use crate::model::ReadView;
use crate::LogId;
use vstd::prelude::*;

verus! {

/// One term that had a leader.
pub struct Reign {
    pub owner: u32,
    /// Those whose votes made it.
    pub electors: Set<u32>,
    /// The log it was won with, from the first entry on.
    pub won: Seq<EntryView>,
    /// The leader's log so far.
    pub led: Seq<EntryView>,
}

/// What a node held when it voted.
pub struct Ballot {
    pub log: Seq<EntryView>,
    /// The term had no leader yet.
    pub early: bool,
}

impl Ballot {
    /// The last term that had a leader by then, at most.
    pub open spec fn bound(self, term: u64) -> int {
        if self.early {
            term - 1
        } else {
            term as int
        }
    }
}

/// A round of confirmations that a leader asked for.
pub struct Round {
    /// What it knew to be committed.
    pub index: u64,
    /// The terms that had had a leader by then.
    pub terms: Set<u64>,
}

/// What was so at some moment of the run.
pub struct Past {
    pub rounds: Set<(u64, u64)>,
    pub terms: Set<u64>,
    pub told: Map<u64, u64>,
    /// The reads that waited at each node.
    pub reads: Map<u32, Seq<ReadView>>,
}

pub struct Chronicle {
    /// The membership that the cluster started with.
    pub first: ConfigView,
    /// Whom a node voted for in a term.
    pub votes: Map<(u32, u64), u32>,
    pub ballots: Map<(u32, u64), Ballot>,
    /// The log that a node held when it stood for election in a term.
    pub runs: Map<(u32, u64), Seq<EntryView>>,
    pub reigns: Map<u64, Reign>,
    /// How much of a term's log a node has acknowledged to its leader.
    pub acks: Map<(u32, u64), nat>,
    /// The index that a node's snapshot covers at least.
    pub snaps: Map<u32, u64>,
    /// How far the leader of a term knew that term's log to be committed.
    pub told: Map<u64, u64>,
    /// The rounds of a term.
    pub rounds: Map<(u64, u64), Round>,
    /// Who confirmed which round.
    pub confirms: Set<(u32, u64, u64)>,
    pub past: Past,
}

/// The position a log ends at.
pub open spec fn end_of(s: Seq<EntryView>) -> LogId {
    if s.len() == 0 {
        LogId::zero()
    } else {
        LogId { index: s.len() as u64, term: s.last().term }
    }
}

/// `s` starts with the first `k` of `of`.
pub open spec fn holds(s: Seq<EntryView>, of: Seq<EntryView>, k: int) -> bool {
    s.len() >= k && of.len() >= k && s.take(k) == of.take(k)
}

/// A whole log: entries know their places, and the memberships among them are
/// well formed.
pub open spec fn plain(s: Seq<EntryView>) -> bool {
    &&& s.len() < u64::MAX
    &&& forall|j: int|
        0 <= j < s.len() ==> (#[trigger] s[j]).index == j + 1 && (s[j].payload matches PayloadView::Config(
            c,
        ) ==> c.wf())
}

/// The index of the last entry that changes the membership, or zero.
pub open spec fn last_config(s: Seq<EntryView>) -> int
    decreases s.len(),
{
    if s.len() == 0 {
        0
    } else if s.last().payload is Config {
        s.len() as int
    } else {
        last_config(s.drop_last())
    }
}

/// `b` may follow `a`: a plain membership is left for a joint one, and a joint
/// one for its new half.
pub open spec fn succeeds(a: ConfigView, b: ConfigView) -> bool {
    match a.new {
        None => b.old == a.old && b.new is Some,
        Some(n) => b == ConfigView::simple(n),
    }
}

pub open spec fn terms_below(s: Seq<EntryView>, term: u64) -> bool {
    forall|j: int| 0 <= j < s.len() ==> (#[trigger] s[j]).term < term
}

impl Chronicle {
    pub open spec fn led(self, term: u64) -> Seq<EntryView> {
        self.reigns[term].led
    }

    pub open spec fn won(self, term: u64) -> Seq<EntryView> {
        self.reigns[term].won
    }

    pub open spec fn acked(self, node: u32, term: u64) -> nat {
        if self.acks.contains_key((node, term)) {
            self.acks[(node, term)]
        } else {
            0
        }
    }

    /// The entry at position `j` came from the leader of its term, together
    /// with everything before it.
    pub open spec fn from_leader(self, s: Seq<EntryView>, j: int) -> bool {
        &&& self.reigns.contains_key(s[j].term)
        &&& holds(s, self.led(s[j].term), j + 1)
    }

    /// So did every entry of the log.
    pub open spec fn rooted(self, s: Seq<EntryView>) -> bool {
        forall|j: int| 0 <= j < s.len() ==> #[trigger] self.from_leader(s, j)
    }

    /// The log still holds the first `k` entries of `term`'s leader; or a later
    /// leader, up to `bound`, won without them.
    pub open spec fn carried(self, s: Seq<EntryView>, term: u64, k: int, bound: int) -> bool {
        holds(s, self.led(term), k) || exists|t: u64|
            term < t <= bound && #[trigger] self.reigns.contains_key(t) && !holds(
                self.won(t),
                self.led(term),
                k,
            )
    }

    /// Everything that the node ever acknowledged is carried by this log.
    pub open spec fn carries(self, node: u32, s: Seq<EntryView>, bound: int) -> bool {
        forall|term: u64, k: int|
            0 < k <= self.acked(node, term) && term <= bound ==> #[trigger] self.carried(
                s,
                term,
                k,
                bound,
            )
    }

    /// Everything that the node acknowledged before a term.
    pub open spec fn carries_before(
        self,
        node: u32,
        s: Seq<EntryView>,
        before: u64,
        bound: int,
    ) -> bool {
        forall|term: u64, k: int|
            0 < k <= self.acked(node, term) && term < before ==> #[trigger] self.carried(
                s,
                term,
                k,
                bound,
            )
    }

    /// The membership that a log puts in force.
    pub open spec fn config_of(self, s: Seq<EntryView>) -> ConfigView {
        if last_config(s) == 0 {
            self.first
        } else {
            s[last_config(s) - 1].payload->Config_0
        }
    }

    /// Those that hold the first `k` entries of `term`'s leader, as far as it
    /// knows.
    pub open spec fn holders(self, term: u64, k: int) -> Set<u32> {
        Set::new(|v: u32| self.acked(v, term) >= k)
    }

    /// When its log had `m` entries, the leader of `term` could count everything
    /// up to `k` as committed.
    pub open spec fn committed_at(self, term: u64, k: int, m: int) -> bool {
        &&& self.reigns.contains_key(term)
        &&& 0 < k <= m <= self.led(term).len()
        &&& self.won(term).len() < m
        &&& self.led(term)[k - 1].term == term
        &&& self.config_of(self.led(term).take(m)).is_quorum(self.holders(term, k))
    }

    pub open spec fn committed(self, term: u64, k: int) -> bool {
        exists|m: int| self.committed_at(term, k, m)
    }

    /// The membership before the `j`th entry of `term`'s leader was committed
    /// when that entry was appended.
    pub open spec fn pinned(self, term: u64, j: int) -> bool {
        let i = last_config(self.led(term).take(j - 1));
        i > 0 ==> exists|t: u64, k: int, m: int| #[trigger]
            self.committed_at(t, k, m) && i <= k && t <= term && holds(
                self.led(term),
                self.led(t),
                i,
            ) && (t == term ==> m < j)
    }

    /// The leader of `term` changed the membership properly.
    pub open spec fn change_true(self, term: u64, j: int) -> bool {
        &&& succeeds(
            self.config_of(self.led(term).take(j - 1)),
            self.led(term)[j - 1].payload->Config_0,
        )
        &&& self.pinned(term, j)
    }

    pub open spec fn changes_true(self, term: u64) -> bool {
        forall|j: int|
            #![trigger self.change_true(term, j)]
            self.won(term).len() < j <= self.led(term).len() && self.led(term)[j - 1].payload
                is Config ==> self.change_true(term, j)
    }

    pub open spec fn reign_true(self, term: u64) -> bool {
        let r = self.reigns[term];
        &&& r.won.len() < r.led.len()
        &&& r.led.take(r.won.len() as int) == r.won
        &&& terms_below(r.won, term)
        &&& forall|j: int| r.won.len() <= j < r.led.len() ==> (#[trigger] r.led[j]).term == term
        &&& plain(r.led)
        &&& self.rooted(r.led)
        &&& self.changes_true(term)
        &&& self.config_of(r.won).is_quorum(r.electors)
        &&& self.runs.contains_key((r.owner, term))
        &&& forall|v: u32| #[trigger]
            r.electors.contains(v) ==> {
                &&& self.votes.contains_key((v, term))
                &&& self.votes[(v, term)] == r.owner
                &&& self.ballots.contains_key((v, term))
                &&& self.ballots[(v, term)].early
                &&& end_of(r.won).up_to_date_with(end_of(self.ballots[(v, term)].log))
            }
    }

    pub open spec fn ballot_true(self, v: u32, term: u64) -> bool {
        let s = self.ballots[(v, term)].log;
        &&& self.votes.contains_key((v, term))
        &&& plain(s)
        &&& self.rooted(s)
        &&& self.carries_before(v, s, term, self.ballots[(v, term)].bound(term))
    }

    pub open spec fn vote_true(self, v: u32, term: u64) -> bool {
        let c = self.votes[(v, term)];
        &&& self.ballots.contains_key((v, term))
        &&& self.runs.contains_key((c, term))
        &&& end_of(self.runs[(c, term)]).up_to_date_with(end_of(self.ballots[(v, term)].log))
        &&& !self.reigns.contains_key(term) ==> self.ballots[(v, term)].early
    }

    pub open spec fn run_true(self, c: u32, term: u64) -> bool {
        let s = self.runs[(c, term)];
        &&& term > 0
        &&& plain(s)
        &&& self.rooted(s)
        &&& terms_below(s, term)
    }

    pub open spec fn ack_true(self, v: u32, term: u64) -> bool {
        &&& self.reigns.contains_key(term)
        &&& self.acks[(v, term)] <= self.led(term).len()
    }

    pub open spec fn told_true(self, term: u64) -> bool {
        self.reigns.contains_key(term) && self.settled(
            term,
            self.led(term),
            self.told[term] as int,
        )
    }

    /// Some leader up to this term knew as much to be committed.
    pub open spec fn known(self, bound: u64, n: u64) -> bool {
        n == 0 || exists|t: u64| #[trigger]
            self.told.contains_key(t) && t <= bound && n <= self.told[t]
    }

    pub open spec fn round_true(self, term: u64, r: u64) -> bool {
        let o = self.rounds[(term, r)];
        let led = self.led(term);
        &&& self.reigns.contains_key(term)
        &&& 0 < o.index <= led.len()
        &&& led[o.index - 1].term == term
        &&& self.settled(term, led, o.index as int)
        &&& forall|u: u64| #[trigger] o.terms.contains(u) ==> self.reigns.contains_key(u)
        &&& forall|u: u64, j: int|
            o.terms.contains(u) && 0 <= j < self.won(u).len() ==> o.terms.contains(
                (#[trigger] self.won(u)[j]).term,
            )
        &&& forall|q: u64, u: u64|
            #![trigger self.rounds[(term, q)].terms.contains(u)]
            r <= q && self.rounds.contains_key((term, q)) && o.terms.contains(u)
                ==> self.rounds[(term, q)].terms.contains(u)
        &&& !self.past.rounds.contains((term, r)) ==> {
            &&& forall|u: u64| #[trigger] self.past.terms.contains(u) ==> o.terms.contains(u)
            &&& self.past.told.contains_key(term) ==> self.past.told[term] <= o.index
        }
    }

    pub open spec fn confirm_true(self, v: u32, term: u64, r: u64) -> bool {
        &&& self.rounds.contains_key((term, r))
        &&& forall|u: u64| #[trigger]
            self.rounds[(term, r)].terms.contains(u) && u > term
                ==> !self.reigns[u].electors.contains(v)
    }

    pub open spec fn past_true(self) -> bool {
        &&& forall|u: u64| #[trigger] self.past.terms.contains(u) ==> self.reigns.contains_key(u)
        &&& forall|t: u64| #[trigger]
            self.past.told.contains_key(t) ==> self.past.terms.contains(t)
                && self.told.contains_key(t) && self.past.told[t] <= self.told[t]
        &&& forall|t: u64, r: u64| #[trigger]
            self.past.rounds.contains((t, r)) ==> self.rounds.contains_key((t, r))
    }

    /// What the reads rest on.
    pub open spec fn reads_true(self) -> bool {
        &&& forall|t: u64| #[trigger] self.told.contains_key(t) ==> self.told_true(t)
        &&& forall|t: u64, r: u64| #[trigger]
            self.rounds.contains_key((t, r)) ==> self.round_true(t, r)
        &&& forall|v: u32, t: u64, r: u64| #[trigger]
            self.confirms.contains((v, t, r)) ==> self.confirm_true(v, t, r)
        &&& self.past_true()
    }

    /// What holds of every chronicle of a run.
    #[verifier::opaque]
    pub open spec fn true_to_raft(self) -> bool {
        &&& self.first.wf()
        &&& forall|term: u64| #[trigger]
            self.reigns.contains_key(term) ==> self.reign_true(term)
        &&& forall|v: u32, term: u64| #[trigger]
            self.ballots.contains_key((v, term)) ==> self.ballot_true(v, term)
        &&& forall|v: u32, term: u64| #[trigger]
            self.votes.contains_key((v, term)) ==> self.vote_true(v, term)
        &&& forall|c: u32, term: u64| #[trigger]
            self.runs.contains_key((c, term)) ==> self.run_true(c, term)
        &&& forall|v: u32, term: u64| #[trigger]
            self.acks.contains_key((v, term)) ==> self.ack_true(v, term)
        &&& self.reads_true()
    }

    /// The first `n` entries of this log are committed, by a leader of a term
    /// no later than `bound`.
    pub open spec fn settled(self, bound: u64, s: Seq<EntryView>, n: int) -> bool {
        n <= 0 || exists|term: u64, k: int| #[trigger]
            self.committed(term, k) && term <= bound && n <= k && holds(s, self.led(term), n)
    }

    /// This position is that of a committed entry, and this is the membership
    /// in force there.
    pub open spec fn anchored(self, bound: u64, id: LogId, config: ConfigView) -> bool {
        id.index > 0 && exists|term: u64, k: int| #[trigger]
            self.committed(term, k) && term <= bound && id.index <= k && self.led(term)[id.index
                - 1].term == id.term && self.config_of(self.led(term).take(id.index as int))
                == config
    }
}

// ---------------------------------------------------------------------------
// Reading a chronicle
// ---------------------------------------------------------------------------

pub proof fn lemma_reign(h: Chronicle, term: u64)
    requires
        h.true_to_raft(),
        h.reigns.contains_key(term),
    ensures
        h.reign_true(term),
        h.first.wf(),
{
    reveal(Chronicle::true_to_raft);
}

pub proof fn lemma_ballot(h: Chronicle, v: u32, term: u64)
    requires
        h.true_to_raft(),
        h.ballots.contains_key((v, term)),
    ensures
        h.ballot_true(v, term),
{
    reveal(Chronicle::true_to_raft);
}

pub proof fn lemma_vote_told(h: Chronicle, v: u32, term: u64)
    requires
        h.true_to_raft(),
        h.votes.contains_key((v, term)),
    ensures
        h.vote_true(v, term),
{
    reveal(Chronicle::true_to_raft);
}

pub proof fn lemma_ack(h: Chronicle, v: u32, term: u64)
    requires
        h.true_to_raft(),
        h.acked(v, term) > 0,
    ensures
        h.reigns.contains_key(term),
        h.acked(v, term) <= h.led(term).len(),
{
    reveal(Chronicle::true_to_raft);
}

pub proof fn lemma_told(h: Chronicle, t: u64)
    requires
        h.true_to_raft(),
        h.told.contains_key(t),
    ensures
        h.told_true(t),
{
    reveal(Chronicle::true_to_raft);
}

pub proof fn lemma_round(h: Chronicle, t: u64, r: u64)
    requires
        h.true_to_raft(),
        h.rounds.contains_key((t, r)),
    ensures
        h.round_true(t, r),
{
    reveal(Chronicle::true_to_raft);
}

pub proof fn lemma_holds_less(s: Seq<EntryView>, of: Seq<EntryView>, k: int, n: int)
    requires
        holds(s, of, k),
        0 <= n <= k,
    ensures
        holds(s, of, n),
        forall|j: int| 0 <= j < k ==> #[trigger] s[j] == of[j],
{
    assert(s.take(n) =~= s.take(k).take(n));
    assert(of.take(n) =~= of.take(k).take(n));
    assert forall|j: int| 0 <= j < k implies #[trigger] s[j] == of[j] by {
        assert(s.take(k)[j] == of.take(k)[j]);
    }
}

pub proof fn lemma_holds_by_entry(s: Seq<EntryView>, of: Seq<EntryView>, k: int)
    requires
        0 <= k,
        s.len() >= k,
        of.len() >= k,
        forall|j: int| 0 <= j < k ==> #[trigger] s[j] == of[j],
    ensures
        holds(s, of, k),
{
    assert(s.take(k) =~= of.take(k));
}

/// Two logs with an entry of the same term in the same place are the same up to
/// there.
pub proof fn lemma_same_up_to(h: Chronicle, a: Seq<EntryView>, b: Seq<EntryView>, j: int)
    requires
        h.rooted(a),
        h.rooted(b),
        0 <= j < a.len(),
        j < b.len(),
        a[j].term == b[j].term,
    ensures
        holds(a, b, j + 1),
{
    assert(h.from_leader(a, j));
    assert(h.from_leader(b, j));
}

/// A leader's log holds what the term was won with.
proof fn lemma_led_holds_won(h: Chronicle, term: u64, s: Seq<EntryView>, k: int)
    requires
        h.true_to_raft(),
        h.reigns.contains_key(term),
        0 <= k,
        holds(h.won(term), s, k),
    ensures
        holds(h.led(term), s, k),
{
    lemma_reign(h, term);
    let won = h.won(term);
    let led = h.led(term);
    lemma_holds_less(won, s, k, k);
    assert forall|j: int| 0 <= j < k implies #[trigger] led[j] == s[j] by {
        assert(led.take(won.len() as int)[j] == led[j]);
        assert(won[j] == s[j]);
    }
    lemma_holds_by_entry(led, s, k);
}

// ---------------------------------------------------------------------------
// Memberships
// ---------------------------------------------------------------------------

pub proof fn lemma_last_config(s: Seq<EntryView>)
    ensures
        0 <= last_config(s) <= s.len(),
        last_config(s) > 0 ==> s[last_config(s) - 1].payload is Config,
        forall|j: int| last_config(s) <= j < s.len() ==> !((#[trigger] s[j]).payload is Config),
    decreases s.len(),
{
    if s.len() > 0 && !(s.last().payload is Config) {
        let r = s.drop_last();
        lemma_last_config(r);
        assert forall|j: int| last_config(s) <= j < s.len() implies !((
        #[trigger] s[j]).payload is Config) by {
            if j < r.len() {
                assert(s[j] == r[j]);
            }
        }
        if last_config(s) > 0 {
            assert(s[last_config(s) - 1] == r[last_config(s) - 1]);
        }
    }
}

/// It is the only index of which that holds.
pub proof fn lemma_last_config_is(s: Seq<EntryView>, i: int)
    requires
        0 <= i <= s.len(),
        i > 0 ==> s[i - 1].payload is Config,
        forall|j: int| i <= j < s.len() ==> !((#[trigger] s[j]).payload is Config),
    ensures
        last_config(s) == i,
{
    lemma_last_config(s);
    let k = last_config(s);
    if k > i {
        assert(!(s[k - 1].payload is Config));
    } else if i > k {
        assert(!(s[i - 1].payload is Config));
    }
}

/// Entries behind the last change do not matter.
pub proof fn lemma_config_kept(h: Chronicle, s: Seq<EntryView>, n: int)
    requires
        last_config(s) <= n <= s.len(),
    ensures
        last_config(s.take(n)) == last_config(s),
        h.config_of(s.take(n)) == h.config_of(s),
{
    lemma_last_config(s);
    let r = s.take(n);
    assert forall|j: int| last_config(s) <= j < r.len() implies !((
    #[trigger] r[j]).payload is Config) by {
        assert(r[j] == s[j]);
    }
    lemma_last_config_is(r, last_config(s));
}

/// The last change among fewer entries is no later.
pub proof fn lemma_config_order(s: Seq<EntryView>, n: int, i: int)
    requires
        0 <= n <= s.len(),
        0 < i <= n,
        s[i - 1].payload is Config,
    ensures
        i <= last_config(s.take(n)) <= n,
        last_config(s.take(n)) <= last_config(s),
{
    let r = s.take(n);
    lemma_last_config(r);
    lemma_last_config(s);
    let k = last_config(r);
    if k < i {
        assert(!(r[i - 1].payload is Config));
    }
    if last_config(s) < k {
        assert(s[k - 1] == r[k - 1]);
        assert(!(s[k - 1].payload is Config));
    }
}

pub proof fn lemma_config_wf(h: Chronicle, s: Seq<EntryView>)
    requires
        h.first.wf(),
        plain(s),
    ensures
        h.config_of(s).wf(),
{
    lemma_last_config(s);
    if last_config(s) > 0 {
        assert(s[last_config(s) - 1].payload is Config);
    }
}

/// Near enough for their quorums to meet: the same, one after the other, or
/// both after the same.
pub open spec fn near(a: ConfigView, b: ConfigView) -> bool {
    a == b || succeeds(a, b) || succeeds(b, a) || exists|e: ConfigView| #[trigger]
        succeeds(e, a) && succeeds(e, b)
}

pub proof fn lemma_quorums_meet(a: ConfigView, p: Set<u32>, b: ConfigView, q: Set<u32>) -> (v: u32)
    requires
        a.wf(),
        b.wf(),
        near(a, b),
        a.is_quorum(p),
        b.is_quorum(q),
    ensures
        p.contains(v),
        q.contains(v),
{
    let shared = if a == b {
        a.old
    } else if succeeds(a, b) {
        b.old
    } else {
        a.old
    };
    if a != b && !succeeds(a, b) && !succeeds(b, a) {
        let e = choose|e: ConfigView| #[trigger] succeeds(e, a) && succeeds(e, b);
        assert(a.old == b.old);
    }
    assert(shared.finite());
    assert(crate::config::majority(shared, p));
    assert(crate::config::majority(shared, q));
    crate::config::lemma_majorities_intersect(shared, p, q);
    choose|v: u32| shared.contains(v) && p.contains(v) && #[trigger] q.contains(v)
}

/// A change of the membership in a log that came from leaders: it succeeds what
/// was in force, and that was committed.
pub proof fn lemma_change(h: Chronicle, s: Seq<EntryView>, j: int) -> (c: (u64, int, int))
    requires
        h.true_to_raft(),
        h.rooted(s),
        0 < j <= s.len(),
        s[j - 1].payload is Config,
    ensures
        h.reigns.contains_key(s[j - 1].term),
        h.won(s[j - 1].term).len() < j,
        holds(s, h.led(s[j - 1].term), j),
        succeeds(h.config_of(s.take(j - 1)), s[j - 1].payload->Config_0),
        last_config(s.take(j - 1)) > 0 ==> {
            let i = last_config(s.take(j - 1));
            &&& h.committed_at(c.0, c.1, c.2)
            &&& i <= c.1
            &&& c.0 <= s[j - 1].term
            &&& holds(s, h.led(c.0), i)
            &&& c.0 == s[j - 1].term ==> c.2 < j
        },
{
    let t = s[j - 1].term;
    assert(h.from_leader(s, j - 1));
    lemma_reign(h, t);
    let led = h.led(t);
    lemma_holds_less(s, led, j, j);
    assert(led[j - 1] == s[j - 1]);
    assert(h.won(t).len() < j) by {
        if j <= h.won(t).len() {
            assert(led.take(h.won(t).len() as int)[j - 1] == led[j - 1]);
            assert(h.won(t)[j - 1].term < t);
        }
    }
    assert(h.change_true(t, j));
    assert(s.take(j - 1) =~= led.take(j - 1)) by {
        lemma_holds_less(s, led, j, j - 1);
    }
    let i = last_config(s.take(j - 1));
    if i > 0 {
        lemma_last_config(s.take(j - 1));
        let (u, k, m) = choose|u: u64, k: int, m: int| #[trigger]
            h.committed_at(u, k, m) && i <= k && u <= t && holds(led, h.led(u), i) && (u == t
                ==> m < j);
        lemma_holds_less(s, led, j, i);
        (u, k, m)
    } else {
        (0, 0, 0)
    }
}

/// How much of the two logs is the same, of the first `n` entries.
pub open spec fn shared(a: Seq<EntryView>, b: Seq<EntryView>, n: int) -> int
    decreases n,
{
    if n <= 0 {
        0
    } else if holds(a, b, n) {
        n
    } else {
        shared(a, b, n - 1)
    }
}

pub proof fn lemma_shared(a: Seq<EntryView>, b: Seq<EntryView>, n: int)
    requires
        0 <= n,
    ensures
        0 <= shared(a, b, n) <= n,
        holds(a, b, shared(a, b, n)),
        forall|i: int| shared(a, b, n) < i <= n ==> !(#[trigger] holds(a, b, i)),
    decreases n,
{
    if n > 0 {
        lemma_shared(a, b, n - 1);
    } else {
        assert(a.take(0) =~= b.take(0));
    }
}

// ---------------------------------------------------------------------------
// Leader Completeness
// ---------------------------------------------------------------------------

/// What was committed before `later`, every leader before `later` won with.
pub open spec fn complete_below(h: Chronicle, later: int) -> bool {
    forall|t: u64, k: int, m: int, u: u64| #[trigger]
        h.committed_at(t, k, m) && t < u < later && #[trigger] h.reigns.contains_key(u) ==> holds(
            h.won(u),
            h.led(t),
            k,
        )
}

/// So did the leader of `later`.
pub open spec fn complete_at(h: Chronicle, later: u64) -> bool {
    forall|t: u64, k: int, m: int| #[trigger]
        h.committed_at(t, k, m) && t < later ==> holds(h.won(later), h.led(t), k)
}

/// In `later`, the nodes in `q` voted for one that stood with the log `y`; that
/// is enough of them. If `early`, none had heard of a leader of that term.
pub open spec fn chosen(
    h: Chronicle,
    later: u64,
    y: Seq<EntryView>,
    q: Set<u32>,
    early: bool,
) -> bool {
    &&& plain(y)
    &&& h.rooted(y)
    &&& terms_below(y, later)
    &&& h.config_of(y).is_quorum(q)
    &&& forall|v: u32| #[trigger]
        q.contains(v) ==> {
            &&& h.ballots.contains_key((v, later))
            &&& early ==> h.ballots[(v, later)].early
            &&& end_of(y).up_to_date_with(end_of(h.ballots[(v, later)].log))
        }
}

/// How far the membership that committed something is from the one that chose.
spec fn gap(h: Chronicle, t: u64, m: int, y: Seq<EntryView>) -> nat {
    let a = last_config(h.led(t).take(m));
    let b = last_config(y);
    if !holds(h.led(t), y, b) {
        a as nat
    } else if a >= b {
        (a - b) as nat
    } else {
        (b - a) as nat
    }
}

/// The voter that both have in common carried it: so does whoever was chosen.
proof fn lemma_carried_over(
    h: Chronicle,
    t: u64,
    k: int,
    m: int,
    later: u64,
    y: Seq<EntryView>,
    q: Set<u32>,
    early: bool,
    v: u32,
)
    requires
        h.true_to_raft(),
        h.committed_at(t, k, m),
        t < later,
        complete_below(h, later as int),
        chosen(h, later, y, q, early),
        !early ==> h.reigns.contains_key(later) && complete_at(h, later),
        h.holders(t, k).contains(v),
        q.contains(v),
    ensures
        holds(y, h.led(t), k),
{
    lemma_reign(h, t);
    let led = h.led(t);
    lemma_ballot(h, v, later);
    let ballot = h.ballots[(v, later)];
    let s = ballot.log;
    let bound = ballot.bound(later);
    assert(h.carried(s, t, k, bound));
    if !holds(s, led, k) {
        let u = choose|u: u64|
            t < u <= bound && #[trigger] h.reigns.contains_key(u) && !holds(h.won(u), led, k);
        if u < later {
            assert(holds(h.won(u), led, k));
        } else {
            assert(holds(h.won(later), led, k));
        }
        assert(false);
    }
    // The voter held it when it voted; the other's log was no less up to date.
    lemma_holds_less(s, led, k, k);
    assert(s[k - 1].term == t);
    let last = s.len() - 1;
    assert(h.from_leader(s, last));
    lemma_reign(h, s[last].term);
    assert(s[k - 1] == h.led(s[last].term)[k - 1]) by {
        lemma_holds_less(s, h.led(s[last].term), s.len() as int, s.len() as int);
    }
    assert(s[last].term >= t) by {
        let lead = h.reigns[s[last].term];
        if k - 1 < lead.won.len() {
            assert(lead.led.take(lead.won.len() as int)[k - 1] == lead.led[k - 1]);
            assert(lead.won[k - 1].term < s[last].term);
        } else {
            assert(lead.led[k - 1].term == s[last].term);
        }
    }
    assert(y.len() > 0) by {
        if y.len() == 0 {
            assert(end_of(s).term > 0 || end_of(s).index > 0);
        }
    }
    let top = y.len() - 1;
    assert(h.from_leader(y, top));
    assert(y[top].term < later);
    let w = y[top].term;
    lemma_holds_less(y, h.led(w), y.len() as int, y.len() as int);
    if w == s[last].term {
        assert(y.len() >= s.len());
        lemma_holds_less(s, h.led(w), s.len() as int, s.len() as int);
        assert forall|j: int| 0 <= j < k implies #[trigger] y[j] == led[j] by {
            assert(s[j] == led[j]);
            assert(y[j] == h.led(w)[j]);
            assert(s[j] == h.led(w)[j]);
        }
        lemma_holds_by_entry(y, led, k);
    } else {
        assert(w > s[last].term);
        assert(holds(h.won(w), led, k));
        lemma_reign(h, w);
        lemma_led_holds_won(h, w, led, k);
        assert(h.won(w).len() <= top) by {
            if top < h.won(w).len() {
                assert(h.led(w).take(h.won(w).len() as int)[top] == h.led(w)[top]);
                assert(h.won(w)[top].term < w);
            }
        }
        lemma_holds_less(h.led(w), led, k, k);
        assert forall|j: int| 0 <= j < k implies #[trigger] y[j] == led[j] by {
            assert(h.led(w)[j] == led[j]);
            assert(y[j] == h.led(w)[j]);
        }
        lemma_holds_by_entry(y, led, k);
    }
}

/// A membership that the one who was chosen had from a leader since then brought
/// everything along.
proof fn lemma_newer_config(
    h: Chronicle,
    t: u64,
    k: int,
    m: int,
    later: u64,
    y: Seq<EntryView>,
)
    requires
        h.true_to_raft(),
        h.committed_at(t, k, m),
        complete_below(h, later as int),
        h.rooted(y),
        terms_below(y, later),
        last_config(y) > 0,
        y[last_config(y) - 1].term > t,
    ensures
        holds(y, h.led(t), k),
{
    lemma_last_config(y);
    let b = last_config(y);
    let w = y[b - 1].term;
    let c = lemma_change(h, y, b);
    assert(holds(h.won(w), h.led(t), k));
    lemma_led_holds_won(h, w, h.led(t), k);
    lemma_holds_less(h.led(w), h.led(t), k, k);
    lemma_holds_less(y, h.led(w), b, b);
    assert forall|j: int| 0 <= j < k implies #[trigger] y[j] == h.led(t)[j] by {
        assert(y[j] == h.led(w)[j]);
        assert(h.led(w)[j] == h.led(t)[j]);
    }
    lemma_holds_by_entry(y, h.led(t), k);
}

/// The first entries of a leader's log, as a log.
proof fn lemma_led_prefix(h: Chronicle, t: u64, m: int)
    requires
        h.true_to_raft(),
        h.reigns.contains_key(t),
        0 <= m <= h.led(t).len(),
    ensures
        plain(h.led(t).take(m)),
        h.rooted(h.led(t).take(m)),
        forall|j: int|
            0 <= j < m ==> #[trigger] h.led(t).take(m)[j] == h.led(t)[j] && h.led(t)[j].term <= t,
{
    lemma_reign(h, t);
    let led = h.led(t);
    let s = led.take(m);
    let r = h.reigns[t];
    assert forall|j: int| 0 <= j < m implies #[trigger] s[j] == led[j] && led[j].term <= t by {
        if j < r.won.len() {
            assert(led.take(r.won.len() as int)[j] == led[j]);
            assert(r.won[j].term < t);
        }
    }
    assert forall|j: int| 0 <= j < s.len() implies #[trigger] h.from_leader(s, j) by {
        assert(h.from_leader(led, j));
        assert(s.take(j + 1) =~= led.take(j + 1));
    }
}

/// What was committed in a term, whoever was chosen in a later one holds.
proof fn lemma_core(
    h: Chronicle,
    t: u64,
    k: int,
    m: int,
    later: u64,
    y: Seq<EntryView>,
    q: Set<u32>,
    early: bool,
)
    requires
        h.true_to_raft(),
        h.committed_at(t, k, m),
        t < later,
        complete_below(h, later as int),
        chosen(h, later, y, q, early),
        !early ==> h.reigns.contains_key(later) && complete_at(h, later),
    ensures
        holds(y, h.led(t), k),
    decreases t, gap(h, t, m, y),
{
    let led = h.led(t);
    let l = led.take(m);
    let a = last_config(l);
    let b = last_config(y);
    lemma_reign(h, t);
    lemma_led_prefix(h, t, m);
    lemma_last_config(l);
    lemma_last_config(y);
    lemma_config_wf(h, l);
    lemma_config_wf(h, y);
    assert(led.take(0) =~= y.take(0));
    if b > 0 && y[b - 1].term > t {
        lemma_newer_config(h, t, k, m, later, y);
    } else if holds(led, y, b) && b <= m {
        // The membership that chose is one that the leader had.
        if b == a {
            assert(h.config_of(l) == h.config_of(y)) by {
                if a > 0 {
                    lemma_holds_less(led, y, b, b);
                    assert(l[a - 1] == y[a - 1]);
                }
            }
            let v = lemma_quorums_meet(h.config_of(l), h.holders(t, k), h.config_of(y), q);
            lemma_carried_over(h, t, k, m, later, y, q, early, v);
        } else {
            lemma_holds_less(led, y, b, b);
            assert(a > b) by {
                if b > a {
                    assert(l[b - 1] == y[b - 1]);
                    assert(!(l[b - 1].payload is Config));
                }
            }
            let c = lemma_change(h, l, a);
            let p = last_config(l.take(a - 1));
            lemma_last_config(l.take(a - 1));
            if b > 0 {
                assert(l[b - 1] == y[b - 1]);
                lemma_config_order(l, a - 1, b);
            }
            if p == b {
                assert(h.config_of(l.take(a - 1)) == h.config_of(y)) by {
                    if b > 0 {
                        assert(l.take(a - 1)[b - 1] == y[b - 1]);
                    }
                }
                assert(near(h.config_of(l), h.config_of(y)));
                let v = lemma_quorums_meet(h.config_of(l), h.holders(t, k), h.config_of(y), q);
                lemma_carried_over(h, t, k, m, later, y, q, early, v);
            } else {
                lemma_gap_inner(h, t, m, y, c.0, c.1, c.2);
                lemma_core(h, c.0, c.1, c.2, later, y, q, early);
                lemma_holds_less(y, h.led(c.0), c.1, p);
                lemma_holds_less(l, h.led(c.0), p, p);
                assert(y[p - 1] == l[p - 1]);
                assert(l.take(a - 1)[p - 1] == l[p - 1]);
                assert(false);
            }
        }
    } else if holds(led, y, b) {
        // It is one that the leader came to have.
        lemma_holds_less(led, y, b, b);
        assert(led[b - 1] == y[b - 1]);
        let r = led.take(b);
        lemma_led_prefix(h, t, b);
        let c = lemma_change(h, r, b);
        assert(r.take(b - 1) =~= led.take(b - 1));
        let p = last_config(led.take(b - 1));
        lemma_last_config(led.take(b - 1));
        assert(led.take(b - 1).take(m) =~= l);
        assert(a <= p) by {
            if a > 0 {
                assert(led.take(b - 1)[a - 1] == l[a - 1]);
                lemma_config_order(led.take(b - 1), b - 1, a);
                assert(led.take(b - 1).take(b - 1) =~= led.take(b - 1));
            }
        }
        if p == a {
            assert(h.config_of(led.take(b - 1)) == h.config_of(l)) by {
                if a > 0 {
                    assert(led.take(b - 1)[a - 1] == l[a - 1]);
                }
            }
            assert(near(h.config_of(l), h.config_of(y)));
            let v = lemma_quorums_meet(h.config_of(l), h.holders(t, k), h.config_of(y), q);
            lemma_carried_over(h, t, k, m, later, y, q, early, v);
        } else {
            assert(p > m) by {
                if p <= m {
                    assert(l[p - 1] == led.take(b - 1)[p - 1]);
                    assert(!(l[p - 1].payload is Config));
                }
            }
            assert(led[p - 1].term == t);
            lemma_holds_less(r, h.led(c.0), p, p);
            assert(h.led(c.0)[p - 1] == led[p - 1]);
            lemma_led_prefix(h, c.0, h.led(c.0).len() as int);
            assert(h.led(c.0).take(h.led(c.0).len() as int)[p - 1].term <= c.0);
            assert(c.0 == t);
            lemma_gap_outer(h, t, m, y, c.1, c.2, p);
            lemma_core(h, t, c.1, c.2, later, y, q, early);
            lemma_holds_less(y, led, c.1, k);
        }
    } else {
        // It is one that the leader never had.
        let e = lemma_aside(h, t, m, later, y);
        let n = shared(l, y, m);
        lemma_shared(l, y, m);
        if a <= n {
            lemma_config_kept(h, l, n);
            assert(l.take(n) == y.take(n));
            assert(near(h.config_of(l), h.config_of(y)));
            let v = lemma_quorums_meet(h.config_of(l), h.holders(t, k), h.config_of(y), q);
            lemma_carried_over(h, t, k, m, later, y, q, early, v);
        } else {
            let c = lemma_change(h, l, a);
            let p = last_config(l.take(a - 1));
            lemma_last_config(l.take(a - 1));
            if p <= n {
                lemma_config_kept(h, l.take(a - 1), n);
                assert(l.take(a - 1).take(n) =~= l.take(n));
                assert(succeeds(e, h.config_of(l)));
                assert(near(h.config_of(l), h.config_of(y)));
                let v = lemma_quorums_meet(h.config_of(l), h.holders(t, k), h.config_of(y), q);
                lemma_carried_over(h, t, k, m, later, y, q, early, v);
            } else {
                lemma_gap_aside(h, t, m, y, c.0, c.1, c.2);
                lemma_core(h, c.0, c.1, c.2, later, y, q, early);
                lemma_holds_less(y, h.led(c.0), c.1, p);
                assert(holds(l, y, p));
                assert(false);
            }
        }
    }
}

/// The recursion gets closer: inside.
proof fn lemma_gap_inner(
    h: Chronicle,
    t: u64,
    m: int,
    y: Seq<EntryView>,
    u: u64,
    k: int,
    n: int,
)
    requires
        h.true_to_raft(),
        h.reigns.contains_key(t),
        0 <= m <= h.led(t).len(),
        h.committed_at(u, k, n),
        ({
            let l = h.led(t).take(m);
            let a = last_config(l);
            let b = last_config(y);
            let p = last_config(l.take(a - 1));
            &&& holds(h.led(t), y, b)
            &&& b < p < a
            &&& p <= k
            &&& u <= l[a - 1].term
            &&& holds(l, h.led(u), p)
            &&& u == l[a - 1].term ==> n < a
        }),
    ensures
        u < t || (u == t && gap(h, u, n, y) < gap(h, t, m, y)),
{
    let l = h.led(t).take(m);
    let a = last_config(l);
    let p = last_config(l.take(a - 1));
    lemma_led_prefix(h, t, m);
    lemma_last_config(y);
    lemma_last_config(l);
    lemma_last_config(l.take(a - 1));
    assert(l[a - 1].term <= t);
    if u == t {
        let r = h.led(t).take(n);
        lemma_last_config(r);
        assert(r[p - 1] == h.led(t)[p - 1]);
        assert(l.take(a - 1)[p - 1] == h.led(t)[p - 1]);
        lemma_config_order(r, n, p);
        assert(r.take(n) =~= r);
    }
}

/// Outside.
proof fn lemma_gap_outer(h: Chronicle, t: u64, m: int, y: Seq<EntryView>, k: int, n: int, p: int)
    requires
        h.true_to_raft(),
        h.committed_at(t, k, n),
        0 <= m <= h.led(t).len(),
        holds(h.led(t), y, last_config(y)),
        last_config(h.led(t).take(m)) < p < last_config(y),
        p <= k,
        h.led(t)[p - 1].payload is Config,
        n < last_config(y),
    ensures
        gap(h, t, n, y) < gap(h, t, m, y),
{
    let r = h.led(t).take(n);
    lemma_last_config(h.led(t).take(m));
    lemma_last_config(r);
    assert(r[p - 1] == h.led(t)[p - 1]);
    lemma_config_order(r, n, p);
    assert(r.take(n) =~= r);
}

/// Aside.
proof fn lemma_gap_aside(h: Chronicle, t: u64, m: int, y: Seq<EntryView>, u: u64, k: int, n: int)
    requires
        h.true_to_raft(),
        h.reigns.contains_key(t),
        0 <= m <= h.led(t).len(),
        h.committed_at(u, k, n),
        ({
            let l = h.led(t).take(m);
            let a = last_config(l);
            &&& !holds(h.led(t), y, last_config(y))
            &&& a > 0
            &&& u <= l[a - 1].term
            &&& u == l[a - 1].term ==> n < a
        }),
    ensures
        u < t || (u == t && gap(h, u, n, y) < gap(h, t, m, y)),
{
    let l = h.led(t).take(m);
    lemma_led_prefix(h, t, m);
    lemma_last_config(l);
    assert(l[last_config(l) - 1].term <= t);
    if u == t {
        lemma_last_config(h.led(t).take(n));
    }
}

/// A membership that the leader never had comes right after one that it had.
proof fn lemma_aside(h: Chronicle, t: u64, m: int, later: u64, y: Seq<EntryView>) -> (e: ConfigView)
    requires
        h.true_to_raft(),
        h.reigns.contains_key(t),
        h.won(t).len() < m <= h.led(t).len(),
        t < later,
        complete_below(h, later as int),
        h.rooted(y),
        !holds(h.led(t), y, last_config(y)),
        last_config(y) > 0,
        y[last_config(y) - 1].term <= t,
    ensures
        ({
            let n = shared(h.led(t).take(m), y, m);
            &&& e == h.config_of(y.take(n))
            &&& succeeds(e, h.config_of(y))
        }),
{
    let led = h.led(t);
    let l = led.take(m);
    let b = last_config(y);
    let n = shared(l, y, m);
    lemma_reign(h, t);
    lemma_shared(l, y, m);
    lemma_last_config(y);
    let c = lemma_change(h, y, b);
    let w = y[b - 1].term;
    // What is shared ends before it.
    assert(n < b) by {
        if n >= b {
            lemma_holds_less(l, y, n, b);
            assert(led.take(b) =~= l.take(b));
            assert(holds(led, y, b));
        }
    }
    assert(w < t) by {
        if w == t {
            assert(holds(led, y, b));
        }
    }
    let p = last_config(y.take(b - 1));
    lemma_last_config(y.take(b - 1));
    if p > n {
        assert(holds(h.won(t), h.led(c.0), c.1));
        lemma_holds_less(h.won(t), h.led(c.0), c.1, p);
        lemma_led_holds_won(h, t, h.led(c.0), p);
        lemma_holds_less(led, h.led(c.0), p, p);
        assert(l.take(p) =~= led.take(p));
        assert(holds(l, y, p));
        assert(false);
    }
    lemma_config_kept(h, y.take(b - 1), n);
    assert(y.take(b - 1).take(n) =~= y.take(n));
    h.config_of(y.take(n))
}

/// Whoever won a term was chosen in it.
proof fn lemma_chosen(h: Chronicle, term: u64)
    requires
        h.true_to_raft(),
        h.reigns.contains_key(term),
    ensures
        chosen(h, term, h.won(term), h.reigns[term].electors, true),
{
    lemma_reign(h, term);
    lemma_won_rooted(h, term);
    let won = h.won(term);
    let led = h.led(term);
    assert forall|j: int| 0 <= j < won.len() implies #[trigger] won[j] == led[j] by {
        assert(led.take(won.len() as int)[j] == led[j]);
    }
    assert(plain(won));
}

proof fn lemma_complete_below(h: Chronicle, later: int)
    requires
        h.true_to_raft(),
    ensures
        complete_below(h, later),
    decreases later,
{
    assert forall|t: u64, k: int, m: int, u: u64| #[trigger]
        h.committed_at(t, k, m) && t < u < later && #[trigger] h.reigns.contains_key(u) implies holds(
        h.won(u),
        h.led(t),
        k,
    ) by {
        lemma_complete_below(h, u as int);
        lemma_chosen(h, u);
        lemma_core(h, t, k, m, u, h.won(u), h.reigns[u].electors, true);
    }
}

/// What was committed in a term, every later leader won with.
pub proof fn lemma_completeness(h: Chronicle, term: u64, k: int, later: u64)
    requires
        h.true_to_raft(),
        h.committed(term, k),
        term < later,
        h.reigns.contains_key(later),
    ensures
        holds(h.won(later), h.led(term), k),
{
    let m = choose|m: int| h.committed_at(term, k, m);
    lemma_complete_below(h, later + 1);
}

/// Nobody else can be chosen in a term that has a leader.
pub proof fn lemma_one_winner(h: Chronicle, term: u64, c: u32, q: Set<u32>)
    requires
        h.true_to_raft(),
        h.reigns.contains_key(term),
        h.runs.contains_key((c, term)),
        h.config_of(h.runs[(c, term)]).is_quorum(q),
        forall|v: u32| #[trigger]
            q.contains(v) ==> h.votes.contains_key((v, term)) && h.votes[(v, term)] == c,
    ensures
        h.reigns[term].owner == c,
{
    let y = h.runs[(c, term)];
    let won = h.won(term);
    let r = h.reigns[term];
    lemma_reign(h, term);
    lemma_chosen(h, term);
    lemma_complete_below(h, term as int);
    lemma_complete_below(h, term + 1);
    assert(complete_at(h, term));
    assert(h.run_true(c, term)) by {
        reveal(Chronicle::true_to_raft);
    }
    assert(chosen(h, term, y, q, false)) by {
        assert forall|v: u32| #[trigger] q.contains(v) implies h.ballots.contains_key((v, term))
            && end_of(y).up_to_date_with(end_of(h.ballots[(v, term)].log)) by {
            lemma_vote_told(h, v, term);
        }
    }
    let n = shared(won, y, won.len() as int);
    lemma_shared(won, y, won.len() as int);
    let a = last_config(won);
    let b = last_config(y);
    lemma_last_config(won);
    lemma_last_config(y);
    lemma_config_wf(h, won);
    lemma_config_wf(h, y);
    let e = h.config_of(y.take(n));
    assert(won.take(n) == y.take(n));
    // Each is what they share, or comes right after it.
    assert(h.config_of(y) == e || succeeds(e, h.config_of(y))) by {
        if b <= n {
            lemma_config_kept(h, y, n);
        } else {
            let d = lemma_change(h, y, b);
            let p = last_config(y.take(b - 1));
            lemma_last_config(y.take(b - 1));
            if p > n {
                assert(y[b - 1].term < term);
                assert(holds(won, h.led(d.0), d.1));
                lemma_holds_less(won, h.led(d.0), d.1, p);
                assert(holds(won, y, p));
                assert(false);
            }
            lemma_config_kept(h, y.take(b - 1), n);
            assert(y.take(b - 1).take(n) =~= y.take(n));
        }
    }
    assert(h.config_of(won) == e || succeeds(e, h.config_of(won))) by {
        if a <= n {
            lemma_config_kept(h, won, n);
        } else {
            let d = lemma_change(h, won, a);
            let p = last_config(won.take(a - 1));
            lemma_last_config(won.take(a - 1));
            if p > n {
                assert(won[a - 1].term < term);
                lemma_core(h, d.0, d.1, d.2, term, y, q, false);
                lemma_holds_less(y, h.led(d.0), d.1, p);
                assert(holds(won, y, p));
                assert(false);
            }
            lemma_config_kept(h, won.take(a - 1), n);
            assert(won.take(a - 1).take(n) =~= won.take(n));
        }
    }
    assert(near(h.config_of(won), h.config_of(y)));
    let v = lemma_quorums_meet(h.config_of(won), r.electors, h.config_of(y), q);
    assert(h.votes[(v, term)] == r.owner);
}

/// What a term was won with came from leaders, too.
pub proof fn lemma_won_rooted(h: Chronicle, term: u64)
    requires
        h.true_to_raft(),
        h.reigns.contains_key(term),
    ensures
        h.rooted(h.won(term)),
{
    lemma_reign(h, term);
    let won = h.won(term);
    let led = h.led(term);
    assert forall|j: int| 0 <= j < won.len() implies #[trigger] h.from_leader(won, j) by {
        assert(led.take(won.len() as int)[j] == led[j]);
        assert(h.from_leader(led, j));
        assert(won.take(j + 1) =~= led.take(j + 1)) by {
            assert(led.take(won.len() as int).take(j + 1) =~= led.take(j + 1));
        }
    }
}

/// What was committed in a term is in the log of that leader and of every later
/// one.
pub proof fn lemma_committed_in(h: Chronicle, term: u64, k: int, later: u64)
    requires
        h.true_to_raft(),
        h.committed(term, k),
        term <= later,
        h.reigns.contains_key(later),
    ensures
        holds(h.led(later), h.led(term), k),
{
    if term < later {
        lemma_completeness(h, term, k, later);
        lemma_led_holds_won(h, later, h.led(term), k);
    }
}

/// No two committed prefixes disagree.
pub proof fn lemma_committed_agree(h: Chronicle, a: u64, i: int, b: u64, j: int)
    requires
        h.true_to_raft(),
        h.committed(a, i),
        h.committed(b, j),
    ensures
        forall|n: int| 0 <= n < i && n < j ==> #[trigger] h.led(a)[n] == h.led(b)[n],
{
    if a <= b {
        lemma_committed_in(h, a, i, b);
        lemma_holds_less(h.led(b), h.led(a), i, i);
    } else {
        lemma_committed_in(h, b, j, a);
        lemma_holds_less(h.led(a), h.led(b), j, j);
    }
}

/// What is settled is in the log of every leader from then on.
pub proof fn lemma_settled_in(h: Chronicle, bound: u64, s: Seq<EntryView>, n: int, later: u64)
    requires
        h.true_to_raft(),
        h.settled(bound, s, n),
        bound <= later,
        h.reigns.contains_key(later),
        0 <= n,
    ensures
        holds(s, h.led(later), n),
{
    if n > 0 {
        let (term, k) = choose|term: u64, k: int| #[trigger]
            h.committed(term, k) && term <= bound && n <= k && holds(s, h.led(term), n);
        lemma_committed_in(h, term, k, later);
        lemma_holds_less(h.led(later), h.led(term), k, n);
    } else {
        assert(s.take(0) =~= h.led(later).take(0));
    }
}

// ---------------------------------------------------------------------------
// More history
// ---------------------------------------------------------------------------

impl Chronicle {
    /// `later` is this chronicle some time on: nothing is unsaid.
    pub open spec fn extends(self, later: Chronicle) -> bool {
        &&& later.first == self.first
        &&& forall|v: u32, t: u64| #[trigger]
            self.votes.contains_key((v, t)) ==> later.votes.contains_key((v, t))
                && later.votes[(v, t)] == self.votes[(v, t)]
        &&& forall|v: u32, t: u64| #[trigger]
            self.ballots.contains_key((v, t)) ==> later.ballots.contains_key((v, t))
                && later.ballots[(v, t)] == self.ballots[(v, t)]
        &&& forall|v: u32, t: u64| #[trigger]
            self.runs.contains_key((v, t)) ==> later.runs.contains_key((v, t)) && later.runs[(
                v,
                t,
            )] == self.runs[(v, t)]
        &&& forall|t: u64| #[trigger]
            self.reigns.contains_key(t) ==> later.reigns.contains_key(t) && later.won(t)
                == self.won(t) && later.reigns[t].owner == self.reigns[t].owner
                && later.reigns[t].electors == self.reigns[t].electors && holds(
                later.led(t),
                self.led(t),
                self.led(t).len() as int,
            )
        &&& forall|v: u32, t: u64| #[trigger] self.acked(v, t) <= later.acked(v, t)
        &&& forall|v: u32| #[trigger]
            self.snaps.contains_key(v) ==> later.snaps.contains_key(v) && self.snaps[v]
                <= later.snaps[v]
        &&& forall|t: u64| #[trigger]
            self.told.contains_key(t) ==> later.told.contains_key(t) && self.told[t]
                <= later.told[t]
        &&& forall|t: u64, r: u64| #[trigger]
            self.rounds.contains_key((t, r)) ==> later.rounds.contains_key((t, r))
                && later.rounds[(t, r)] == self.rounds[(t, r)]
        &&& forall|v: u32, t: u64, r: u64| #[trigger]
            self.confirms.contains((v, t, r)) ==> later.confirms.contains((v, t, r))
    }

    /// What is new in `later` is `node`'s doing.
    pub open spec fn made_by(self, later: Chronicle, node: u32) -> bool {
        &&& later.past == self.past
        &&& forall|v: u32, t: u64|
            v != node ==> #[trigger] later.votes.contains_key((v, t)) == self.votes.contains_key(
                (v, t),
            )
        &&& forall|v: u32, t: u64|
            v != node ==> #[trigger] later.runs.contains_key((v, t)) == self.runs.contains_key(
                (v, t),
            )
        &&& forall|v: u32, t: u64| v != node ==> #[trigger] later.acked(v, t) == self.acked(v, t)
        &&& forall|v: u32, t: u64|
            v != node ==> #[trigger] later.acks.contains_key((v, t)) == self.acks.contains_key(
                (v, t),
            )
        &&& forall|v: u32|
            v != node ==> #[trigger] later.snaps.contains_key(v) == self.snaps.contains_key(v)
        &&& forall|v: u32|
            v != node && #[trigger] self.snaps.contains_key(v) ==> later.snaps[v] == self.snaps[v]
        &&& forall|t: u64| #[trigger]
            later.reigns.contains_key(t) && later.reigns[t].owner != node
                ==> self.reigns.contains_key(t) && later.reigns[t] == self.reigns[t]
        &&& forall|t: u64| #[trigger]
            later.told.contains_key(t) && later.reigns[t].owner != node ==> self.told.contains_key(
                t,
            ) && later.told[t] == self.told[t]
        &&& forall|t: u64, r: u64| #[trigger]
            later.rounds.contains_key((t, r)) && later.reigns[t].owner != node
                ==> self.rounds.contains_key((t, r))
    }
}

pub proof fn lemma_extends_trans(a: Chronicle, b: Chronicle, c: Chronicle, node: u32)
    requires
        a.extends(b),
        b.extends(c),
        a.made_by(b, node),
        b.made_by(c, node),
        b.true_to_raft(),
    ensures
        a.extends(c),
        a.made_by(c, node),
{
    assert forall|t: u64| #[trigger]
        c.told.contains_key(t) && c.reigns[t].owner != node implies a.told.contains_key(t)
        && c.told[t] == a.told[t] by {
        assert(b.told.contains_key(t) && c.told[t] == b.told[t]);
        lemma_told(b, t);
    }
    assert forall|t: u64, r: u64| #[trigger]
        c.rounds.contains_key((t, r)) && c.reigns[t].owner != node implies a.rounds.contains_key(
        (t, r),
    ) by {
        assert(b.rounds.contains_key((t, r)));
        lemma_round(b, t, r);
    }
    assert forall|t: u64| #[trigger] a.reigns.contains_key(t) implies c.reigns.contains_key(t)
        && c.won(t) == a.won(t) && c.reigns[t].owner == a.reigns[t].owner
        && c.reigns[t].electors == a.reigns[t].electors && holds(
        c.led(t),
        a.led(t),
        a.led(t).len() as int,
    ) by {
        assert(b.reigns.contains_key(t));
        let n = a.led(t).len() as int;
        lemma_holds_less(c.led(t), b.led(t), b.led(t).len() as int, n);
    }
    assert forall|v: u32, t: u64| #[trigger] a.acked(v, t) <= c.acked(v, t) by {
        assert(a.acked(v, t) <= b.acked(v, t));
        assert(b.acked(v, t) <= c.acked(v, t));
    }
    assert forall|v: u32, t: u64| v != node implies #[trigger] c.acked(v, t) == a.acked(v, t) by {
        assert(b.acked(v, t) == a.acked(v, t));
    }
    assert forall|v: u32, t: u64| v != node implies #[trigger] c.votes.contains_key((v, t))
        == a.votes.contains_key((v, t)) by {
        assert(b.votes.contains_key((v, t)) == a.votes.contains_key((v, t)));
    }
    assert forall|v: u32, t: u64| v != node implies #[trigger] c.runs.contains_key((v, t))
        == a.runs.contains_key((v, t)) by {
        assert(b.runs.contains_key((v, t)) == a.runs.contains_key((v, t)));
    }
    assert forall|v: u32, t: u64| v != node implies #[trigger] c.acks.contains_key((v, t))
        == a.acks.contains_key((v, t)) by {
        assert(b.acks.contains_key((v, t)) == a.acks.contains_key((v, t)));
    }
    assert forall|v: u32| v != node implies #[trigger] c.snaps.contains_key(v)
        == a.snaps.contains_key(v) by {
        assert(b.snaps.contains_key(v) == a.snaps.contains_key(v));
    }
    assert forall|t: u64| #[trigger]
        c.reigns.contains_key(t) && c.reigns[t].owner != node implies a.reigns.contains_key(t)
        && c.reigns[t] == a.reigns[t] by {
        assert(b.reigns.contains_key(t) && c.reigns[t] == b.reigns[t]);
    }
}

pub proof fn lemma_extends_refl(h: Chronicle, node: u32)
    ensures
        h.extends(h),
        h.made_by(h, node),
{
}

/// Where a log came from stays true.
pub proof fn lemma_rooted_stays(h: Chronicle, later: Chronicle, s: Seq<EntryView>)
    requires
        h.extends(later),
        h.rooted(s),
    ensures
        later.rooted(s),
{
    assert forall|j: int| 0 <= j < s.len() implies #[trigger] later.from_leader(s, j) by {
        assert(h.from_leader(s, j));
        let t = s[j].term;
        assert(h.reigns.contains_key(t));
        lemma_holds_less(later.led(t), h.led(t), h.led(t).len() as int, j + 1);
    }
}

pub proof fn lemma_carried_stays(
    h: Chronicle,
    later: Chronicle,
    s: Seq<EntryView>,
    term: u64,
    k: int,
    bound: int,
    upto: int,
)
    requires
        h.extends(later),
        h.carried(s, term, k, bound),
        h.reigns.contains_key(term),
        0 <= k <= h.led(term).len(),
        bound <= upto,
    ensures
        later.carried(s, term, k, upto),
{
    lemma_holds_less(later.led(term), h.led(term), h.led(term).len() as int, k);
    if !holds(s, h.led(term), k) {
        let t = choose|t: u64|
            term < t <= bound && #[trigger] h.reigns.contains_key(t) && !holds(
                h.won(t),
                h.led(term),
                k,
            );
        assert(later.reigns.contains_key(t));
        assert(later.won(t) == h.won(t));
    }
}

pub proof fn lemma_carries_stays(
    h: Chronicle,
    later: Chronicle,
    node: u32,
    s: Seq<EntryView>,
    bound: int,
    upto: int,
)
    requires
        h.true_to_raft(),
        h.extends(later),
        h.carries(node, s, bound),
        forall|t: u64| t <= upto ==> #[trigger] later.acked(node, t) == h.acked(node, t),
        bound <= upto,
        forall|t: u64| bound < t <= upto ==> #[trigger] h.acked(node, t) == 0,
    ensures
        later.carries(node, s, upto),
{
    assert forall|term: u64, k: int|
        0 < k <= later.acked(node, term) && term <= upto implies #[trigger] later.carried(
        s,
        term,
        k,
        upto,
    ) by {
        assert(later.acked(node, term) == h.acked(node, term));
        assert(term <= bound);
        lemma_ack(h, node, term);
        assert(h.carried(s, term, k, bound));
        lemma_carried_stays(h, later, s, term, k, bound, upto);
    }
}

/// A larger set has at least as much of a majority.
pub proof fn lemma_quorum_grows(c: ConfigView, a: Set<u32>, b: Set<u32>)
    requires
        c.wf(),
        c.is_quorum(a),
        forall|v: u32| #[trigger] a.contains(v) ==> b.contains(v),
    ensures
        c.is_quorum(b),
{
    vstd::set_lib::lemma_len_subset(c.old.intersect(a), c.old.intersect(b));
    if c.new is Some {
        vstd::set_lib::lemma_len_subset(c.new->0.intersect(a), c.new->0.intersect(b));
    }
}

pub proof fn lemma_committed_at_stays(h: Chronicle, later: Chronicle, term: u64, k: int, m: int)
    requires
        h.true_to_raft(),
        h.extends(later),
        h.committed_at(term, k, m),
    ensures
        later.committed_at(term, k, m),
{
    lemma_reign(h, term);
    lemma_holds_less(later.led(term), h.led(term), h.led(term).len() as int, m);
    lemma_led_prefix(h, term, m);
    lemma_config_wf(h, h.led(term).take(m));
    assert forall|v: u32| #[trigger] h.holders(term, k).contains(v) implies later.holders(
        term,
        k,
    ).contains(v) by {
        assert(h.acked(v, term) <= later.acked(v, term));
    }
    lemma_quorum_grows(
        h.config_of(h.led(term).take(m)),
        h.holders(term, k),
        later.holders(term, k),
    );
    assert(later.led(term)[k - 1] == h.led(term)[k - 1]);
}

pub proof fn lemma_committed_stays(h: Chronicle, later: Chronicle, term: u64, k: int)
    requires
        h.true_to_raft(),
        h.extends(later),
        h.committed(term, k),
    ensures
        later.committed(term, k),
{
    let m = choose|m: int| h.committed_at(term, k, m);
    lemma_committed_at_stays(h, later, term, k, m);
}

pub proof fn lemma_settled_stays(
    h: Chronicle,
    later: Chronicle,
    bound: u64,
    upto: u64,
    s: Seq<EntryView>,
    n: int,
)
    requires
        h.true_to_raft(),
        h.extends(later),
        h.settled(bound, s, n),
        bound <= upto,
    ensures
        later.settled(upto, s, n),
{
    if n > 0 {
        let (term, k) = choose|term: u64, k: int| #[trigger]
            h.committed(term, k) && term <= bound && n <= k && holds(s, h.led(term), n);
        lemma_committed_stays(h, later, term, k);
        lemma_holds_less(later.led(term), h.led(term), h.led(term).len() as int, n);
    }
}

pub proof fn lemma_anchored_stays(
    h: Chronicle,
    later: Chronicle,
    bound: u64,
    upto: u64,
    id: LogId,
    config: ConfigView,
)
    requires
        h.true_to_raft(),
        h.extends(later),
        h.anchored(bound, id, config),
        bound <= upto,
    ensures
        later.anchored(upto, id, config),
{
    let (term, k) = choose|term: u64, k: int| #[trigger]
        h.committed(term, k) && term <= bound && id.index <= k && h.led(term)[id.index - 1].term
            == id.term && h.config_of(h.led(term).take(id.index as int)) == config;
    lemma_committed_stays(h, later, term, k);
    lemma_holds_less(
        later.led(term),
        h.led(term),
        h.led(term).len() as int,
        id.index as int,
    );
    assert(later.led(term)[id.index - 1] == h.led(term)[id.index - 1]);
}

proof fn lemma_change_stays(h: Chronicle, later: Chronicle, t: u64, j: int)
    requires
        h.true_to_raft(),
        h.extends(later),
        h.reigns.contains_key(t),
        0 < j <= h.led(t).len(),
        h.change_true(t, j),
    ensures
        later.change_true(t, j),
{
    let led = h.led(t);
    lemma_holds_less(later.led(t), led, led.len() as int, j - 1);
    assert(later.led(t)[j - 1] == led[j - 1]);
    let i = last_config(led.take(j - 1));
    lemma_last_config(led.take(j - 1));
    if i > 0 {
        let (u, k, m) = choose|u: u64, k: int, m: int| #[trigger]
            h.committed_at(u, k, m) && i <= k && u <= t && holds(led, h.led(u), i) && (u == t
                ==> m < j);
        lemma_committed_at_stays(h, later, u, k, m);
        lemma_holds_less(later.led(u), h.led(u), h.led(u).len() as int, i);
        lemma_holds_less(later.led(t), led, led.len() as int, i);
    }
}

proof fn lemma_old_reign(h: Chronicle, later: Chronicle, t: u64)
    requires
        h.true_to_raft(),
        h.extends(later),
        h.reigns.contains_key(t),
        later.led(t) == h.led(t),
    ensures
        later.reign_true(t),
{
    lemma_reign(h, t);
    lemma_rooted_stays(h, later, h.led(t));
    assert forall|j: int|
        #![trigger later.change_true(t, j)]
        later.won(t).len() < j <= later.led(t).len() && later.led(t)[j - 1].payload
            is Config implies later.change_true(t, j) by {
        assert(h.change_true(t, j));
        lemma_change_stays(h, later, t, j);
    }
    assert forall|v: u32| #[trigger] later.reigns[t].electors.contains(v) implies {
        &&& later.votes.contains_key((v, t))
        &&& later.votes[(v, t)] == later.reigns[t].owner
        &&& later.ballots.contains_key((v, t))
        &&& later.ballots[(v, t)].early
        &&& end_of(later.won(t)).up_to_date_with(end_of(later.ballots[(v, t)].log))
    } by {
        assert(h.reigns[t].electors.contains(v));
        assert(h.votes.contains_key((v, t)));
        assert(h.ballots.contains_key((v, t)));
    }
}

proof fn lemma_old_ballot(h: Chronicle, later: Chronicle, v: u32, t: u64)
    requires
        h.true_to_raft(),
        h.extends(later),
        h.ballots.contains_key((v, t)),
        forall|u: u64| u < t ==> #[trigger] later.acked(v, u) == h.acked(v, u),
    ensures
        later.ballot_true(v, t),
{
    lemma_ballot(h, v, t);
    assert(h.votes.contains_key((v, t)));
    let s = h.ballots[(v, t)].log;
    let bound = h.ballots[(v, t)].bound(t);
    lemma_rooted_stays(h, later, s);
    assert forall|term: u64, k: int|
        0 < k <= later.acked(v, term) && term < t implies #[trigger] later.carried(
        s,
        term,
        k,
        bound,
    ) by {
        lemma_ack(h, v, term);
        assert(h.carried(s, term, k, bound));
        lemma_carried_stays(h, later, s, term, k, bound, bound);
    }
}

proof fn lemma_old_vote(h: Chronicle, later: Chronicle, v: u32, t: u64)
    requires
        h.true_to_raft(),
        h.extends(later),
        h.votes.contains_key((v, t)),
    ensures
        later.vote_true(v, t),
{
    reveal(Chronicle::true_to_raft);
    assert(h.vote_true(v, t));
    assert(h.ballots.contains_key((v, t)));
    assert(h.runs.contains_key((h.votes[(v, t)], t)));
    if !later.reigns.contains_key(t) {
        assert(!h.reigns.contains_key(t));
    }
}

proof fn lemma_old_run(h: Chronicle, later: Chronicle, c: u32, t: u64)
    requires
        h.true_to_raft(),
        h.extends(later),
        h.runs.contains_key((c, t)),
    ensures
        later.run_true(c, t),
{
    reveal(Chronicle::true_to_raft);
    assert(h.run_true(c, t));
    lemma_rooted_stays(h, later, h.runs[(c, t)]);
}

proof fn lemma_old_ack(h: Chronicle, later: Chronicle, v: u32, t: u64)
    requires
        h.true_to_raft(),
        h.extends(later),
        h.acks.contains_key((v, t)),
        later.acks[(v, t)] == h.acks[(v, t)],
    ensures
        later.ack_true(v, t),
{
    reveal(Chronicle::true_to_raft);
    assert(h.ack_true(v, t));
    assert(h.reigns.contains_key(t));
}

/// What is settled of a leader's log stays so as that grows.
pub proof fn lemma_led_settled_stays(h: Chronicle, later: Chronicle, t: u64, n: int)
    requires
        h.true_to_raft(),
        h.extends(later),
        h.reigns.contains_key(t),
        h.settled(t, h.led(t), n),
    ensures
        later.settled(t, later.led(t), n),
{
    if n > 0 {
        let (w, k) = choose|w: u64, k: int| #[trigger]
            h.committed(w, k) && w <= t && n <= k && holds(h.led(t), h.led(w), n);
        lemma_committed_stays(h, later, w, k);
        lemma_holds_less(later.led(w), h.led(w), h.led(w).len() as int, n);
        lemma_holds_less(later.led(t), h.led(t), h.led(t).len() as int, n);
        assert(holds(later.led(t), later.led(w), n));
    }
}

proof fn lemma_old_told(h: Chronicle, later: Chronicle, t: u64)
    requires
        h.true_to_raft(),
        h.extends(later),
        h.told.contains_key(t),
        later.told[t] == h.told[t],
    ensures
        later.told_true(t),
{
    lemma_told(h, t);
    lemma_led_settled_stays(h, later, t, h.told[t] as int);
}

proof fn lemma_old_round(h: Chronicle, later: Chronicle, t: u64, r: u64)
    requires
        h.true_to_raft(),
        h.extends(later),
        h.rounds.contains_key((t, r)),
        later.past == h.past || later.past.rounds.contains((t, r)),
        forall|q: u64, u: u64|
            #![trigger later.rounds[(t, q)].terms.contains(u)]
            later.rounds.contains_key((t, q)) && !h.rounds.contains_key((t, q))
                && h.reigns.contains_key(u) ==> later.rounds[(t, q)].terms.contains(u),
    ensures
        later.round_true(t, r),
{
    lemma_round(h, t, r);
    let o = h.rounds[(t, r)];
    let n = h.led(t).len() as int;
    lemma_holds_less(later.led(t), h.led(t), n, n);
    assert(later.led(t)[o.index - 1] == h.led(t)[o.index - 1]);
    lemma_led_settled_stays(h, later, t, o.index as int);
    assert forall|u: u64, j: int|
        o.terms.contains(u) && 0 <= j < later.won(u).len() implies o.terms.contains(
        (#[trigger] later.won(u)[j]).term,
    ) by {
        assert(h.reigns.contains_key(u));
        assert(h.won(u)[j] == later.won(u)[j]);
    }
    assert forall|q: u64, u: u64|
        #![trigger later.rounds[(t, q)].terms.contains(u)]
        r <= q && later.rounds.contains_key((t, q)) && o.terms.contains(
            u,
        ) implies later.rounds[(t, q)].terms.contains(u) by {
        if h.rounds.contains_key((t, q)) {
            assert(h.rounds[(t, q)].terms.contains(u));
        } else {
            assert(h.reigns.contains_key(u));
        }
    }
}

proof fn lemma_old_confirm(h: Chronicle, later: Chronicle, v: u32, t: u64, r: u64)
    requires
        h.true_to_raft(),
        h.extends(later),
        h.confirms.contains((v, t, r)),
    ensures
        later.confirm_true(v, t, r),
{
    reveal(Chronicle::true_to_raft);
    assert(h.confirm_true(v, t, r));
    lemma_round(h, t, r);
    assert forall|u: u64| #[trigger]
        later.rounds[(t, r)].terms.contains(u) && u > t implies !later.reigns[u].electors.contains(
        v,
    ) by {
        assert(h.rounds[(t, r)].terms.contains(u));
        assert(h.reigns.contains_key(u));
    }
}

proof fn lemma_old_past(h: Chronicle, later: Chronicle)
    requires
        h.true_to_raft(),
        h.extends(later),
        later.past == h.past,
    ensures
        later.past_true(),
{
    reveal(Chronicle::true_to_raft);
    assert forall|u: u64| #[trigger] later.past.terms.contains(u) implies later.reigns.contains_key(
        u,
    ) by {
        assert(h.reigns.contains_key(u));
    }
    assert forall|t: u64| #[trigger] later.past.told.contains_key(t) implies {
        &&& later.past.terms.contains(t)
        &&& later.told.contains_key(t)
        &&& later.past.told[t] <= later.told[t]
    } by {
        assert(h.told.contains_key(t));
    }
}

/// What the reads rest on stays true where nothing of it changed.
proof fn lemma_reads_stay(h: Chronicle, later: Chronicle)
    requires
        h.true_to_raft(),
        h.extends(later),
        later.told == h.told,
        later.rounds == h.rounds,
        later.confirms == h.confirms,
        later.past == h.past,
    ensures
        later.reads_true(),
{
    assert forall|t: u64| #[trigger] later.told.contains_key(t) implies later.told_true(t) by {
        lemma_old_told(h, later, t);
    }
    assert forall|t: u64, r: u64| #[trigger]
        later.rounds.contains_key((t, r)) implies later.round_true(t, r) by {
        lemma_old_round(h, later, t, r);
    }
    assert forall|v: u32, t: u64, r: u64| #[trigger]
        later.confirms.contains((v, t, r)) implies later.confirm_true(v, t, r) by {
        lemma_old_confirm(h, later, v, t, r);
    }
    lemma_old_past(h, later);
}

impl Chronicle {
    /// A node votes.
    pub open spec fn with_vote(self, v: u32, t: u64, c: u32, s: Seq<EntryView>) -> Chronicle {
        Chronicle {
            votes: self.votes.insert((v, t), c),
            ballots: self.ballots.insert(
                (v, t),
                Ballot { log: s, early: !self.reigns.contains_key(t) },
            ),
            ..self
        }
    }

    /// A node stands for election.
    pub open spec fn with_run(self, c: u32, t: u64, s: Seq<EntryView>) -> Chronicle {
        Chronicle { runs: self.runs.insert((c, t), s), ..self }
    }

    /// A term is won.
    pub open spec fn with_reign(self, t: u64, r: Reign) -> Chronicle {
        Chronicle { reigns: self.reigns.insert(t, r), ..self }
    }

    /// A leader appends an entry to its log.
    pub open spec fn with_entry(self, t: u64, e: EntryView) -> Chronicle {
        Chronicle {
            reigns: self.reigns.insert(
                t,
                Reign { led: self.led(t).push(e), ..self.reigns[t] },
            ),
            ..self
        }
    }

    /// A node acknowledges a leader's log up to `n`.
    pub open spec fn with_ack(self, v: u32, t: u64, n: nat) -> Chronicle {
        Chronicle {
            acks: self.acks.insert(
                (v, t),
                if n > self.acked(v, t) {
                    n
                } else {
                    self.acked(v, t)
                },
            ),
            ..self
        }
    }

    /// A leader learns that its log is committed up to `n`.
    pub open spec fn with_told(self, t: u64, n: u64) -> Chronicle {
        Chronicle { told: self.told.insert(t, n), ..self }
    }

    /// A leader asks for confirmations.
    pub open spec fn with_round(self, t: u64, r: u64, index: u64) -> Chronicle {
        Chronicle {
            rounds: self.rounds.insert((t, r), Round { index, terms: self.reigns.dom() }),
            ..self
        }
    }

    /// A node confirms a round.
    pub open spec fn with_confirm(self, v: u32, t: u64, r: u64) -> Chronicle {
        Chronicle { confirms: self.confirms.insert((v, t, r)), ..self }
    }

    /// A node takes or installs a snapshot.
    pub open spec fn with_snap(self, v: u32, index: u64) -> Chronicle {
        Chronicle { snaps: self.snaps.insert(v, index), ..self }
    }
}

pub proof fn lemma_with_vote(h: Chronicle, v: u32, t: u64, c: u32, s: Seq<EntryView>)
    requires
        h.true_to_raft(),
        !h.votes.contains_key((v, t)),
        plain(s),
        h.rooted(s),
        h.carries(v, s, t as int),
        h.runs.contains_key((c, t)),
        end_of(h.runs[(c, t)]).up_to_date_with(end_of(s)),
    ensures
        h.with_vote(v, t, c, s).true_to_raft(),
        h.extends(h.with_vote(v, t, c, s)),
        h.made_by(h.with_vote(v, t, c, s), v),
{
    let later = h.with_vote(v, t, c, s);
    if h.ballots.contains_key((v, t)) {
        lemma_ballot(h, v, t);
    }
    assert(forall|u: u32, w: u64| #[trigger] later.acked(u, w) == h.acked(u, w));
    assert forall|w: u64| #[trigger] h.reigns.contains_key(w) implies holds(
        later.led(w),
        h.led(w),
        h.led(w).len() as int,
    ) by {}
    assert(h.extends(later));
    assert(h.made_by(later, v));
    assert forall|w: u64| #[trigger] later.reigns.contains_key(w) implies later.reign_true(w) by {
        lemma_old_reign(h, later, w);
    }
    assert forall|u: u32, w: u64| #[trigger]
        later.ballots.contains_key((u, w)) implies later.ballot_true(u, w) by {
        if h.ballots.contains_key((u, w)) {
            lemma_old_ballot(h, later, u, w);
        } else {
            lemma_rooted_stays(h, later, s);
            let bound = later.ballots[(v, t)].bound(t);
            assert forall|term: u64, k: int|
                0 < k <= later.acked(v, term) && term < t implies #[trigger] later.carried(
                s,
                term,
                k,
                bound,
            ) by {
                lemma_ack(h, v, term);
                assert(h.carried(s, term, k, t as int));
                if !holds(s, h.led(term), k) {
                    let u = choose|u: u64|
                        term < u <= t as int && #[trigger] h.reigns.contains_key(u) && !holds(
                            h.won(u),
                            h.led(term),
                            k,
                        );
                    assert(later.reigns.contains_key(u));
                    assert(u <= bound);
                }
            }
        }
    }
    assert forall|u: u32, w: u64| #[trigger]
        later.votes.contains_key((u, w)) implies later.vote_true(u, w) by {
        if h.votes.contains_key((u, w)) {
            lemma_old_vote(h, later, u, w);
        }
    }
    assert forall|u: u32, w: u64| #[trigger] later.runs.contains_key((u, w)) implies later.run_true(
        u,
        w,
    ) by {
        lemma_old_run(h, later, u, w);
    }
    assert forall|u: u32, w: u64| #[trigger] later.acks.contains_key((u, w)) implies later.ack_true(
        u,
        w,
    ) by {
        lemma_old_ack(h, later, u, w);
    }
    lemma_reads_stay(h, later);
    reveal(Chronicle::true_to_raft);
}

pub proof fn lemma_with_run(h: Chronicle, c: u32, t: u64, s: Seq<EntryView>)
    requires
        h.true_to_raft(),
        !h.runs.contains_key((c, t)),
        t > 0,
        plain(s),
        h.rooted(s),
        terms_below(s, t),
    ensures
        h.with_run(c, t, s).true_to_raft(),
        h.extends(h.with_run(c, t, s)),
        h.made_by(h.with_run(c, t, s), c),
{
    let later = h.with_run(c, t, s);
    assert(forall|u: u32, w: u64| #[trigger] later.acked(u, w) == h.acked(u, w));
    assert(h.extends(later));
    assert forall|w: u64| #[trigger] later.reigns.contains_key(w) implies later.reign_true(w) by {
        lemma_old_reign(h, later, w);
    }
    assert forall|u: u32, w: u64| #[trigger]
        later.ballots.contains_key((u, w)) implies later.ballot_true(u, w) by {
        lemma_old_ballot(h, later, u, w);
    }
    assert forall|u: u32, w: u64| #[trigger]
        later.votes.contains_key((u, w)) implies later.vote_true(u, w) by {
        lemma_old_vote(h, later, u, w);
    }
    assert forall|u: u32, w: u64| #[trigger] later.runs.contains_key((u, w)) implies later.run_true(
        u,
        w,
    ) by {
        if h.runs.contains_key((u, w)) {
            lemma_old_run(h, later, u, w);
        } else {
            lemma_rooted_stays(h, later, s);
        }
    }
    assert forall|u: u32, w: u64| #[trigger] later.acks.contains_key((u, w)) implies later.ack_true(
        u,
        w,
    ) by {
        lemma_old_ack(h, later, u, w);
    }
    lemma_reads_stay(h, later);
    reveal(Chronicle::true_to_raft);
}

pub proof fn lemma_with_reign(h: Chronicle, t: u64, r: Reign, e: EntryView)
    requires
        h.true_to_raft(),
        !h.reigns.contains_key(t),
        r.led == r.won.push(e),
        e.term == t,
        plain(r.led),
        terms_below(r.won, t),
        h.rooted(r.won),
        !(e.payload is Config),
        h.config_of(r.won).is_quorum(r.electors),
        h.runs.contains_key((r.owner, t)),
        h.runs[(r.owner, t)] == r.won,
        forall|v: u32| #[trigger]
            r.electors.contains(v) ==> h.votes.contains_key((v, t)) && h.votes[(v, t)] == r.owner,
    ensures
        h.with_reign(t, r).true_to_raft(),
        h.extends(h.with_reign(t, r)),
        h.made_by(h.with_reign(t, r), r.owner),
{
    let later = h.with_reign(t, r);
    assert(forall|u: u32, w: u64| #[trigger] later.acked(u, w) == h.acked(u, w));
    assert(h.extends(later));
    assert(later.reign_true(t)) by {
        assert(r.led.take(r.won.len() as int) =~= r.won);
        assert(later.changes_true(t));
        lemma_rooted_stays(h, later, r.won);
        assert forall|j: int| 0 <= j < r.led.len() implies #[trigger] later.from_leader(
            r.led,
            j,
        ) by {
            if j < r.won.len() {
                assert(later.from_leader(r.won, j));
                assert(r.led.take(j + 1) =~= r.won.take(j + 1));
                assert(r.led[j] == r.won[j]);
            } else {
                assert(r.led[j] == e);
            }
        }
        assert forall|v: u32| #[trigger] r.electors.contains(v) implies {
            &&& later.ballots.contains_key((v, t))
            &&& later.ballots[(v, t)].early
            &&& end_of(r.won).up_to_date_with(end_of(later.ballots[(v, t)].log))
        } by {
            assert(h.vote_true(v, t)) by {
                reveal(Chronicle::true_to_raft);
                assert(h.votes.contains_key((v, t)));
            }
        }
    }
    assert forall|w: u64| #[trigger] later.reigns.contains_key(w) implies later.reign_true(w) by {
        if w != t {
            assert(h.reigns.contains_key(w));
            lemma_old_reign(h, later, w);
        }
    }
    assert forall|u: u32, w: u64| #[trigger]
        later.ballots.contains_key((u, w)) implies later.ballot_true(u, w) by {
        lemma_old_ballot(h, later, u, w);
    }
    assert forall|u: u32, w: u64| #[trigger]
        later.votes.contains_key((u, w)) implies later.vote_true(u, w) by {
        lemma_old_vote(h, later, u, w);
    }
    assert forall|u: u32, w: u64| #[trigger] later.runs.contains_key((u, w)) implies later.run_true(
        u,
        w,
    ) by {
        lemma_old_run(h, later, u, w);
    }
    assert forall|u: u32, w: u64| #[trigger] later.acks.contains_key((u, w)) implies later.ack_true(
        u,
        w,
    ) by {
        lemma_old_ack(h, later, u, w);
    }
    lemma_reads_stay(h, later);
    reveal(Chronicle::true_to_raft);
}

/// A change whose predecessor is settled is a proper one.
proof fn lemma_new_change(h: Chronicle, later: Chronicle, t: u64, e: EntryView)
    requires
        h.true_to_raft(),
        h.extends(later),
        h.reigns.contains_key(t),
        later.led(t) == h.led(t).push(e),
        e.payload is Config,
        succeeds(h.config_of(h.led(t)), e.payload->Config_0),
        h.settled(t, h.led(t), last_config(h.led(t))),
    ensures
        later.change_true(t, h.led(t).len() as int + 1),
{
    let led = h.led(t);
    let j = led.len() as int + 1;
    assert(later.led(t).take(j - 1) =~= led);
    let i = last_config(led);
    if i > 0 {
        let (u, k) = choose|u: u64, k: int| #[trigger]
            h.committed(u, k) && u <= t && i <= k && holds(led, h.led(u), i);
        let m = choose|m: int| h.committed_at(u, k, m);
        lemma_committed_at_stays(h, later, u, k, m);
        lemma_holds_less(later.led(u), h.led(u), h.led(u).len() as int, i);
        lemma_holds_less(later.led(t), led, led.len() as int, i);
        assert(later.committed_at(u, k, m));
    }
}

pub proof fn lemma_with_entry(h: Chronicle, t: u64, e: EntryView)
    requires
        h.true_to_raft(),
        h.reigns.contains_key(t),
        e.term == t,
        plain(h.led(t).push(e)),
        e.payload is Config ==> succeeds(h.config_of(h.led(t)), e.payload->Config_0) && h.settled(
            t,
            h.led(t),
            last_config(h.led(t)),
        ),
    ensures
        h.with_entry(t, e).true_to_raft(),
        h.extends(h.with_entry(t, e)),
        h.made_by(h.with_entry(t, e), h.reigns[t].owner),
{
    let later = h.with_entry(t, e);
    let led = h.led(t);
    lemma_reign(h, t);
    assert(forall|u: u32, w: u64| #[trigger] later.acked(u, w) == h.acked(u, w));
    assert(led.push(e).take(led.len() as int) =~= led.take(led.len() as int));
    assert(holds(later.led(t), led, led.len() as int));
    assert(h.extends(later));
    assert(later.reign_true(t)) by {
        let r = later.reigns[t];
        assert(r.led.take(r.won.len() as int) =~= led.take(r.won.len() as int));
        assert forall|j: int|
            #![trigger later.change_true(t, j)]
            later.won(t).len() < j <= later.led(t).len() && later.led(t)[j - 1].payload
                is Config implies later.change_true(t, j) by {
            if j <= led.len() {
                assert(later.led(t)[j - 1] == led[j - 1]);
                assert(h.change_true(t, j));
                lemma_change_stays(h, later, t, j);
            } else {
                lemma_new_change(h, later, t, e);
            }
        }
        lemma_rooted_stays(h, later, led);
        assert forall|j: int| 0 <= j < r.led.len() implies #[trigger] later.from_leader(
            r.led,
            j,
        ) by {
            if j < led.len() {
                assert(later.from_leader(led, j));
                assert(r.led.take(j + 1) =~= led.take(j + 1));
                assert(r.led[j] == led[j]);
            } else {
                assert(r.led[j] == e);
            }
        }
        assert forall|v: u32| #[trigger] r.electors.contains(v) implies {
            &&& later.votes.contains_key((v, t))
            &&& later.votes[(v, t)] == r.owner
            &&& later.ballots.contains_key((v, t))
            &&& later.ballots[(v, t)].early
            &&& end_of(r.won).up_to_date_with(end_of(later.ballots[(v, t)].log))
        } by {
            assert(h.reigns[t].electors.contains(v));
        }
    }
    assert forall|w: u64| #[trigger] later.reigns.contains_key(w) implies later.reign_true(w) by {
        if w != t {
            assert(h.reigns.contains_key(w));
            lemma_old_reign(h, later, w);
        }
    }
    assert forall|u: u32, w: u64| #[trigger]
        later.ballots.contains_key((u, w)) implies later.ballot_true(u, w) by {
        lemma_old_ballot(h, later, u, w);
    }
    assert forall|u: u32, w: u64| #[trigger]
        later.votes.contains_key((u, w)) implies later.vote_true(u, w) by {
        lemma_old_vote(h, later, u, w);
    }
    assert forall|u: u32, w: u64| #[trigger] later.runs.contains_key((u, w)) implies later.run_true(
        u,
        w,
    ) by {
        lemma_old_run(h, later, u, w);
    }
    assert forall|u: u32, w: u64| #[trigger] later.acks.contains_key((u, w)) implies later.ack_true(
        u,
        w,
    ) by {
        lemma_old_ack(h, later, u, w);
    }
    lemma_reads_stay(h, later);
    reveal(Chronicle::true_to_raft);
}

pub proof fn lemma_with_ack(h: Chronicle, v: u32, t: u64, n: nat)
    requires
        h.true_to_raft(),
        h.reigns.contains_key(t),
        n <= h.led(t).len(),
        forall|w: u64| #[trigger] h.votes.contains_key((v, w)) ==> w <= t,
    ensures
        h.with_ack(v, t, n).true_to_raft(),
        h.extends(h.with_ack(v, t, n)),
        h.made_by(h.with_ack(v, t, n), v),
{
    let later = h.with_ack(v, t, n);
    if h.acked(v, t) > 0 {
        lemma_ack(h, v, t);
    }
    assert forall|u: u32, w: u64| (u, w) != (v, t) implies #[trigger] later.acked(u, w) == h.acked(
        u,
        w,
    ) by {}
    assert(h.acked(v, t) <= later.acked(v, t));
    assert(h.extends(later));
    assert forall|w: u64| #[trigger] later.reigns.contains_key(w) implies later.reign_true(w) by {
        lemma_old_reign(h, later, w);
    }
    assert forall|u: u32, w: u64| #[trigger]
        later.ballots.contains_key((u, w)) implies later.ballot_true(u, w) by {
        assert(h.ballots.contains_key((u, w)));
        lemma_ballot(h, u, w);
        assert(h.votes.contains_key((u, w)));
        lemma_old_ballot(h, later, u, w);
    }
    assert forall|u: u32, w: u64| #[trigger]
        later.votes.contains_key((u, w)) implies later.vote_true(u, w) by {
        lemma_old_vote(h, later, u, w);
    }
    assert forall|u: u32, w: u64| #[trigger] later.runs.contains_key((u, w)) implies later.run_true(
        u,
        w,
    ) by {
        lemma_old_run(h, later, u, w);
    }
    assert forall|u: u32, w: u64| #[trigger] later.acks.contains_key((u, w)) implies later.ack_true(
        u,
        w,
    ) by {
        if (u, w) != (v, t) {
            lemma_old_ack(h, later, u, w);
        }
    }
    lemma_reads_stay(h, later);
    reveal(Chronicle::true_to_raft);
}

pub proof fn lemma_with_snap(h: Chronicle, v: u32, index: u64)
    requires
        h.true_to_raft(),
        h.snaps.contains_key(v) ==> h.snaps[v] <= index,
    ensures
        h.with_snap(v, index).true_to_raft(),
        h.extends(h.with_snap(v, index)),
        h.made_by(h.with_snap(v, index), v),
{
    let later = h.with_snap(v, index);
    assert(forall|u: u32, w: u64| #[trigger] later.acked(u, w) == h.acked(u, w));
    assert(h.extends(later));
    assert forall|w: u64| #[trigger] later.reigns.contains_key(w) implies later.reign_true(w) by {
        lemma_old_reign(h, later, w);
    }
    assert forall|u: u32, w: u64| #[trigger]
        later.ballots.contains_key((u, w)) implies later.ballot_true(u, w) by {
        lemma_old_ballot(h, later, u, w);
    }
    assert forall|u: u32, w: u64| #[trigger]
        later.votes.contains_key((u, w)) implies later.vote_true(u, w) by {
        lemma_old_vote(h, later, u, w);
    }
    assert forall|u: u32, w: u64| #[trigger] later.runs.contains_key((u, w)) implies later.run_true(
        u,
        w,
    ) by {
        lemma_old_run(h, later, u, w);
    }
    assert forall|u: u32, w: u64| #[trigger] later.acks.contains_key((u, w)) implies later.ack_true(
        u,
        w,
    ) by {
        lemma_old_ack(h, later, u, w);
    }
    lemma_reads_stay(h, later);
    reveal(Chronicle::true_to_raft);
}

/// Nothing but what the reads rest on changed.
proof fn lemma_rest_stays(h: Chronicle, later: Chronicle)
    requires
        h.true_to_raft(),
        h.extends(later),
        later == (Chronicle {
            told: later.told,
            rounds: later.rounds,
            confirms: later.confirms,
            past: later.past,
            ..h
        }),
        later.reads_true(),
    ensures
        later.true_to_raft(),
{
    assert(forall|u: u32, w: u64| #[trigger] later.acked(u, w) == h.acked(u, w));
    assert forall|w: u64| #[trigger] later.reigns.contains_key(w) implies later.reign_true(w) by {
        lemma_old_reign(h, later, w);
    }
    assert forall|u: u32, w: u64| #[trigger]
        later.ballots.contains_key((u, w)) implies later.ballot_true(u, w) by {
        lemma_old_ballot(h, later, u, w);
    }
    assert forall|u: u32, w: u64| #[trigger]
        later.votes.contains_key((u, w)) implies later.vote_true(u, w) by {
        lemma_old_vote(h, later, u, w);
    }
    assert forall|u: u32, w: u64| #[trigger] later.runs.contains_key((u, w)) implies later.run_true(
        u,
        w,
    ) by {
        lemma_old_run(h, later, u, w);
    }
    assert forall|u: u32, w: u64| #[trigger] later.acks.contains_key((u, w)) implies later.ack_true(
        u,
        w,
    ) by {
        lemma_old_ack(h, later, u, w);
    }
    reveal(Chronicle::true_to_raft);
}

pub proof fn lemma_with_told(h: Chronicle, t: u64, n: u64)
    requires
        h.true_to_raft(),
        h.reigns.contains_key(t),
        h.told.contains_key(t) ==> h.told[t] <= n,
        h.settled(t, h.led(t), n as int),
    ensures
        h.with_told(t, n).true_to_raft(),
        h.extends(h.with_told(t, n)),
        h.made_by(h.with_told(t, n), h.reigns[t].owner),
{
    let later = h.with_told(t, n);
    assert(forall|u: u32, w: u64| #[trigger] later.acked(u, w) == h.acked(u, w));
    assert(h.extends(later));
    assert forall|w: u64| #[trigger] later.told.contains_key(w) implies later.told_true(w) by {
        if w == t {
            lemma_led_settled_stays(h, later, t, n as int);
        } else {
            lemma_old_told(h, later, w);
        }
    }
    assert forall|w: u64, r: u64| #[trigger]
        later.rounds.contains_key((w, r)) implies later.round_true(w, r) by {
        lemma_old_round(h, later, w, r);
    }
    assert forall|v: u32, w: u64, r: u64| #[trigger]
        later.confirms.contains((v, w, r)) implies later.confirm_true(v, w, r) by {
        lemma_old_confirm(h, later, v, w, r);
    }
    lemma_old_past(h, later);
    lemma_rest_stays(h, later);
}

pub proof fn lemma_with_round(h: Chronicle, t: u64, r: u64, index: u64)
    requires
        h.true_to_raft(),
        h.reigns.contains_key(t),
        forall|q: u64| #[trigger] h.rounds.contains_key((t, q)) ==> q < r,
        0 < index <= h.led(t).len(),
        h.led(t)[index - 1].term == t,
        h.settled(t, h.led(t), index as int),
        h.told.contains_key(t) ==> h.told[t] <= index,
    ensures
        h.with_round(t, r, index).true_to_raft(),
        h.extends(h.with_round(t, r, index)),
        h.made_by(h.with_round(t, r, index), h.reigns[t].owner),
{
    let later = h.with_round(t, r, index);
    assert(!h.rounds.contains_key((t, r)));
    assert(forall|u: u32, w: u64| #[trigger] later.acked(u, w) == h.acked(u, w));
    assert(h.extends(later));
    assert forall|w: u64| #[trigger] later.told.contains_key(w) implies later.told_true(w) by {
        lemma_old_told(h, later, w);
    }
    assert forall|w: u64, q: u64| #[trigger]
        later.rounds.contains_key((w, q)) implies later.round_true(w, q) by {
        if (w, q) != (t, r) {
            assert(h.rounds.contains_key((w, q)));
            lemma_old_round(h, later, w, q);
        } else {
            let o = later.rounds[(t, r)];
            lemma_led_settled_stays(h, later, t, index as int);
            assert forall|u: u64, j: int|
                o.terms.contains(u) && 0 <= j < later.won(u).len() implies o.terms.contains(
                (#[trigger] later.won(u)[j]).term,
            ) by {
                lemma_won_rooted(h, u);
                assert(h.from_leader(h.won(u), j));
            }
            assert forall|q2: u64, u: u64|
                #![trigger later.rounds[(t, q2)].terms.contains(u)]
                r <= q2 && later.rounds.contains_key((t, q2)) && o.terms.contains(
                    u,
                ) implies later.rounds[(t, q2)].terms.contains(u) by {
                if q2 != r {
                    assert(h.rounds.contains_key((t, q2)));
                }
            }
            assert(later.past_true()) by {
                lemma_old_past(h, later);
            }
        }
    }
    assert forall|v: u32, w: u64, q: u64| #[trigger]
        later.confirms.contains((v, w, q)) implies later.confirm_true(v, w, q) by {
        lemma_old_confirm(h, later, v, w, q);
    }
    lemma_old_past(h, later);
    lemma_rest_stays(h, later);
}

pub proof fn lemma_with_confirm(h: Chronicle, v: u32, t: u64, r: u64)
    requires
        h.true_to_raft(),
        h.rounds.contains_key((t, r)),
        forall|w: u64| #[trigger] h.votes.contains_key((v, w)) ==> w <= t,
    ensures
        h.with_confirm(v, t, r).true_to_raft(),
        h.extends(h.with_confirm(v, t, r)),
        h.made_by(h.with_confirm(v, t, r), v),
{
    let later = h.with_confirm(v, t, r);
    assert(forall|u: u32, w: u64| #[trigger] later.acked(u, w) == h.acked(u, w));
    assert(h.extends(later));
    assert forall|w: u64| #[trigger] later.told.contains_key(w) implies later.told_true(w) by {
        lemma_old_told(h, later, w);
    }
    assert forall|w: u64, q: u64| #[trigger]
        later.rounds.contains_key((w, q)) implies later.round_true(w, q) by {
        lemma_old_round(h, later, w, q);
    }
    assert forall|x: u32, w: u64, q: u64| #[trigger]
        later.confirms.contains((x, w, q)) implies later.confirm_true(x, w, q) by {
        if (x, w, q) != (v, t, r) {
            assert(h.confirms.contains((x, w, q)));
            lemma_old_confirm(h, later, x, w, q);
        } else {
            lemma_round(h, t, r);
            assert forall|u: u64| #[trigger]
                later.rounds[(t, r)].terms.contains(u) && u > t implies !later.reigns[u].electors.contains(
                v,
            ) by {
                lemma_reign(h, u);
                if h.reigns[u].electors.contains(v) {
                    assert(h.votes.contains_key((v, u)));
                }
            }
        }
    }
    lemma_old_past(h, later);
    lemma_rest_stays(h, later);
}

impl Chronicle {
    /// What is so now is remembered.
    pub open spec fn marked(self, reads: Map<u32, Seq<ReadView>>) -> Chronicle {
        Chronicle {
            past: Past {
                rounds: self.rounds.dom(),
                terms: self.reigns.dom(),
                told: self.told,
                reads,
            },
            ..self
        }
    }
}

pub proof fn lemma_marked(h: Chronicle, reads: Map<u32, Seq<ReadView>>)
    requires
        h.true_to_raft(),
    ensures
        h.marked(reads).true_to_raft(),
        h.extends(h.marked(reads)),
{
    let later = h.marked(reads);
    assert(forall|u: u32, w: u64| #[trigger] later.acked(u, w) == h.acked(u, w));
    assert(h.extends(later));
    assert forall|w: u64| #[trigger] later.told.contains_key(w) implies later.told_true(w) by {
        lemma_old_told(h, later, w);
    }
    assert forall|w: u64, q: u64| #[trigger]
        later.rounds.contains_key((w, q)) implies later.round_true(w, q) by {
        lemma_old_round(h, later, w, q);
    }
    assert forall|x: u32, w: u64, q: u64| #[trigger]
        later.confirms.contains((x, w, q)) implies later.confirm_true(x, w, q) by {
        lemma_old_confirm(h, later, x, w, q);
    }
    assert forall|t: u64| #[trigger] later.past.told.contains_key(t) implies {
        &&& later.past.terms.contains(t)
        &&& later.told.contains_key(t)
        &&& later.past.told[t] <= later.told[t]
    } by {
        lemma_told(h, t);
    }
    lemma_rest_stays(h, later);
}

// ---------------------------------------------------------------------------
// Reads
// ---------------------------------------------------------------------------

/// Enough nodes confirmed the round, or a later one of that term.
pub open spec fn confirmed(h: Chronicle, term: u64, r: u64, acks: Set<u32>) -> bool {
    forall|v: u32| #[trigger]
        acks.contains(v) ==> exists|q: u64| r <= q && #[trigger] h.confirms.contains((v, term, q))
}

/// If no term in between had a leader when the round began, this one had none.
proof fn lemma_not_later(h: Chronicle, term: u64, r: u64, acks: Set<u32>, u: u64)
    requires
        h.true_to_raft(),
        h.rounds.contains_key((term, r)),
        confirmed(h, term, r, acks),
        h.config_of(h.led(term)).is_quorum(acks),
        term < u,
        forall|w: u64| term < w < u ==> !(#[trigger] h.rounds[(term, r)].terms.contains(w)),
    ensures
        !h.rounds[(term, r)].terms.contains(u),
{
    let o = h.rounds[(term, r)];
    if o.terms.contains(u) {
        lemma_round(h, term, r);
        lemma_reign(h, term);
        lemma_reign(h, u);
        let led = h.led(term);
        let won = h.won(u);
        let n = won.len() as int;
        let index = o.index as int;
        // It won with what was committed.
        let (w, k) = choose|w: u64, k: int| #[trigger]
            h.committed(w, k) && w <= term && index <= k && holds(led, h.led(w), index);
        lemma_holds_less(led, h.led(w), index, index);
        assert(w == term) by {
            let m = choose|m: int| h.committed_at(w, k, m);
            lemma_led_prefix(h, w, h.led(w).len() as int);
            assert(h.led(w).take(h.led(w).len() as int)[index - 1].term <= w);
            assert(h.led(w)[index - 1] == led[index - 1]);
        }
        lemma_completeness(h, term, k, u);
        lemma_holds_less(won, led, k, k);
        assert(won[index - 1] == led[index - 1]);
        // All it won with is of that term's leader.
        lemma_won_rooted(h, u);
        let e = won[n - 1];
        assert(o.terms.contains(h.won(u)[n - 1].term));
        assert(e.term <= term);
        assert(h.from_leader(won, n - 1));
        assert(e.term == term) by {
            lemma_led_prefix(h, e.term, h.led(e.term).len() as int);
            lemma_holds_less(won, h.led(e.term), n, n);
            assert(won[index - 1] == h.led(e.term)[index - 1]);
            assert(h.led(e.term).take(h.led(e.term).len() as int)[index - 1].term <= e.term);
        }
        assert(won =~= led.take(n)) by {
            assert(won.take(n) =~= won);
        }
        lemma_round_quorums(h, term, u, n, index);
        lemma_led_prefix(h, term, n);
        lemma_config_wf(h, led);
        lemma_config_wf(h, won);
        let v = lemma_quorums_meet(
            h.config_of(led),
            acks,
            h.config_of(won),
            h.reigns[u].electors,
        );
        let q = choose|q: u64| r <= q && #[trigger] h.confirms.contains((v, term, q));
        assert(h.confirm_true(v, term, q)) by {
            reveal(Chronicle::true_to_raft);
        }
        assert(h.rounds[(term, q)].terms.contains(u));
        assert(false);
    }
}

/// The memberships of a leader and of the next one are near.
proof fn lemma_round_quorums(h: Chronicle, term: u64, u: u64, n: int, index: int)
    requires
        h.true_to_raft(),
        h.reigns.contains_key(term),
        h.reigns.contains_key(u),
        term < u,
        0 < index <= n <= h.led(term).len(),
        h.led(term)[index - 1].term == term,
        h.won(u) == h.led(term).take(n),
    ensures
        near(h.config_of(h.led(term)), h.config_of(h.won(u))),
{
    let led = h.led(term);
    let a = last_config(led);
    lemma_reign(h, term);
    lemma_last_config(led);
    assert(h.won(term).len() < index) by {
        if index <= h.won(term).len() {
            assert(led.take(h.won(term).len() as int)[index - 1] == led[index - 1]);
            assert(h.won(term)[index - 1].term < term);
        }
    }
    if a <= n {
        lemma_config_kept(h, led, n);
    } else {
        let c = lemma_change(h, led, a);
        let p = last_config(led.take(a - 1));
        lemma_last_config(led.take(a - 1));
        assert(led[a - 1].term == term);
        if p <= n {
            lemma_config_kept(h, led.take(a - 1), n);
            assert(led.take(a - 1).take(n) =~= led.take(n));
        } else {
            assert(h.committed(c.0, c.1));
            if c.0 < term {
                lemma_completeness(h, c.0, c.1, term);
            } else {
                lemma_completeness(h, c.0, c.1, u);
            }
            assert(false);
        }
    }
}

/// When a round began that enough nodes have confirmed, no later term had a
/// leader.
pub proof fn lemma_still_leading(h: Chronicle, term: u64, r: u64, acks: Set<u32>, upto: u64)
    requires
        h.true_to_raft(),
        h.rounds.contains_key((term, r)),
        confirmed(h, term, r, acks),
        h.config_of(h.led(term)).is_quorum(acks),
    ensures
        forall|w: u64|
            term < w <= upto ==> !(#[trigger] h.rounds[(term, r)].terms.contains(w)),
    decreases upto,
{
    if upto > term {
        lemma_still_leading(h, term, r, acks, (upto - 1) as u64);
        lemma_not_later(h, term, r, acks, upto);
    }
}

/// What some leader knew before a round began is no more than what the round
/// stands for, if no later term had a leader by then.
pub proof fn lemma_round_covers(h: Chronicle, term: u64, r: u64, bound: u64, n: u64)
    requires
        h.true_to_raft(),
        h.rounds.contains_key((term, r)),
        !h.past.rounds.contains((term, r)),
        forall|w: u64| #[trigger] h.rounds[(term, r)].terms.contains(w) ==> w <= term,
        n == 0 || exists|t: u64| #[trigger]
            h.past.told.contains_key(t) && t <= bound && n <= h.past.told[t],
    ensures
        n <= h.rounds[(term, r)].index,
{
    let o = h.rounds[(term, r)];
    lemma_round(h, term, r);
    lemma_reign(h, term);
    if n > 0 {
        let t = choose|t: u64| #[trigger]
            h.past.told.contains_key(t) && t <= bound && n <= h.past.told[t];
        assert(h.past_true()) by {
            reveal(Chronicle::true_to_raft);
        }
        assert(h.past.terms.contains(t));
        assert(o.terms.contains(t));
        if t < term {
            lemma_told(h, t);
            let told = h.told[t] as int;
            let (w, k) = choose|w: u64, k: int| #[trigger]
                h.committed(w, k) && w <= t && told <= k && holds(h.led(t), h.led(w), told);
            lemma_completeness(h, w, k, term);
            let won = h.won(term);
            if o.index <= won.len() {
                assert(h.led(term).take(won.len() as int)[o.index - 1] == h.led(term)[o.index - 1]);
                assert(won[o.index - 1].term < term);
            }
        }
    }
}

// ---------------------------------------------------------------------------
// Replacing the end of a log
// ---------------------------------------------------------------------------

/// Dropping what conflicts with a leader's log loses nothing that was carried:
/// what conflicts, that leader won without.
pub proof fn lemma_cut_carries(
    h: Chronicle,
    node: u32,
    s: Seq<EntryView>,
    term: u64,
    j: int,
    cut: Seq<EntryView>,
)
    requires
        h.true_to_raft(),
        h.reigns.contains_key(term),
        h.carries(node, s, term as int),
        0 <= j < s.len(),
        j < h.led(term).len(),
        s[j] != h.led(term)[j],
        holds(s, h.led(term), j),
        holds(cut, s, j),
    ensures
        h.carries(node, cut, term as int),
{
    lemma_reign(h, term);
    let led = h.led(term);
    assert forall|t0: u64, k: int| 0 < k <= h.acked(node, t0) && t0 <= term implies #[trigger] h.carried(
        cut,
        t0,
        k,
        term as int,
    ) by {
        assert(h.carried(s, t0, k, term as int));
        lemma_ack(h, node, t0);
        if holds(s, h.led(t0), k) {
            lemma_holds_less(s, h.led(t0), k, k);
            if k <= j {
                lemma_holds_less(cut, s, j, k);
                lemma_holds_less(s, h.led(t0), k, k);
            } else {
                assert(s[j] == h.led(t0)[j]);
                assert(t0 != term);
                if holds(h.won(term), h.led(t0), k) {
                    lemma_led_holds_won(h, term, h.led(t0), k);
                    lemma_holds_less(led, h.led(t0), k, k);
                    assert(led[j] == h.led(t0)[j]);
                }
                assert(h.reigns.contains_key(term));
            }
        }
    }
}

/// Neither does replacing a log that disagrees with a committed entry by what
/// was committed.
pub proof fn lemma_reset_carries(
    h: Chronicle,
    node: u32,
    s: Seq<EntryView>,
    term: u64,
    kc: int,
    n: int,
    bound: u64,
)
    requires
        h.true_to_raft(),
        h.committed(term, kc),
        0 < n <= kc,
        term <= bound,
        h.carries(node, s, bound as int),
        !(s.len() >= n && s[n - 1].term == h.led(term)[n - 1].term),
    ensures
        h.carries(node, h.led(term).take(n), bound as int),
{
    lemma_reign(h, term);
    let led = h.led(term);
    let y = led.take(n);
    assert forall|t0: u64, k: int| 0 < k <= h.acked(node, t0) && t0 <= bound implies #[trigger] h.carried(
        y,
        t0,
        k,
        bound as int,
    ) by {
        assert(h.carried(s, t0, k, bound as int));
        lemma_ack(h, node, t0);
        let other = h.led(t0);
        if holds(s, other, k) {
            lemma_holds_less(s, other, k, k);
            if t0 >= term {
                lemma_committed_in(h, term, kc, t0);
                lemma_holds_less(other, led, kc, n);
                assert(other[n - 1] == led[n - 1]);
                assert(k < n) by {
                    if k >= n {
                        assert(s[n - 1] == other[n - 1]);
                    }
                }
                assert forall|i: int| 0 <= i < k implies #[trigger] y[i] == other[i] by {
                    assert(other[i] == led[i]);
                }
                lemma_holds_by_entry(y, other, k);
            } else if !holds(y, other, k) {
                // The leader of `term` won without it.
                if holds(h.won(term), other, k) {
                    lemma_led_holds_won(h, term, other, k);
                    lemma_holds_less(led, other, k, k);
                    if k >= n {
                        assert(led[n - 1] == other[n - 1]);
                        assert(s[n - 1] == other[n - 1]);
                    } else {
                        assert forall|i: int| 0 <= i < k implies #[trigger] y[i] == other[i] by {
                            assert(led[i] == other[i]);
                        }
                        lemma_holds_by_entry(y, other, k);
                    }
                }
                assert(h.reigns.contains_key(term));
            }
        }
    }
}

} // verus!
