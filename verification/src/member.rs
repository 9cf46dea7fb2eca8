//! A node's part in a cluster.
//!
//! What a node holds, and every message it sends, is true to a
//! [`Chronicle`](crate::chronicle::Chronicle) of the run: whatever input
//! reaches it, there is a longer chronicle of which that holds again.
use crate::chronicle::{
    confirmed, end_of, holds, last_config, plain, succeeds, terms_below, Chronicle, Reign,
};
use crate::config::ConfigView;
use crate::log::{EntryView, LogView, PayloadView};
use crate::message::{AppendView, InstallView, MessageView};
use crate::model::{InputView, NodeView, OutputView, PersistView, ReadView, RequestView, Turn};
use crate::node::{BugSwitches, Role};
use crate::snapshot::SnapshotView;
use crate::storage::DiskView;
use crate::{LogId, RequestVoteReq, RequestVoteResp};
use vstd::prelude::*;

verus! {

// ---------------------------------------------------------------------------
// What is true of a node
// ---------------------------------------------------------------------------

/// `x` is the whole log of which `log` is what compaction left.
pub open spec fn whole(log: LogView, x: Seq<EntryView>) -> bool {
    &&& log.wf()
    &&& !log.zero_anchor
    &&& log.start - 1 <= x.len()
    &&& log.entries == x.skip(log.start - 1)
    &&& log.start == 1 ==> log.last_included == LogId::zero()
    &&& log.start > 1 ==> log.last_included.term == x[log.start - 2].term
}

/// What a disk holds is true.
pub open spec fn recorded(h: Chronicle, i: u32, d: DiskView, x: Seq<EntryView>) -> bool {
    &&& whole(d.log, x)
    &&& plain(x)
    &&& h.rooted(x)
    &&& forall|j: int| 0 <= j < x.len() ==> (#[trigger] x[j]).term <= d.current_term
    &&& forall|t: u64| #[trigger]
        h.votes.contains_key((i, t)) ==> t <= d.current_term && (t == d.current_term
            ==> d.voted_for == Some(h.votes[(i, t)]))
    &&& d.voted_for matches Some(c) ==> h.votes.contains_key((i, d.current_term))
    &&& forall|t: u64| #[trigger] h.runs.contains_key((i, t)) ==> t <= d.current_term
    &&& forall|t: u64| #[trigger] h.acks.contains_key((i, t)) ==> t <= d.current_term
    &&& h.carries(i, x, d.current_term as int)
    &&& d.snapshot matches Some(s) ==> s.last_included.index < u64::MAX && h.anchored(
        d.current_term,
        s.last_included,
        s.config,
    ) && h.known(d.current_term, s.last_included.index)
    &&& h.snaps.contains_key(i) ==> (d.snapshot matches Some(s) && h.snaps[i]
        <= s.last_included.index)
    &&& d.log.last_included.index > 0 ==> (d.snapshot matches Some(s)
        && d.log.last_included.index <= s.last_included.index)
}

/// What a node has on disk once its writes are made.
pub open spec fn stored(n: NodeView) -> DiskView {
    DiskView {
        current_term: n.current_term,
        voted_for: n.voted_for,
        log: n.log,
        snapshot: n.snapshot,
        writes: 0,
    }
}

/// A candidate stands on the log it holds, and counts only votes that it got.
pub open spec fn stands(h: Chronicle, n: NodeView, x: Seq<EntryView>) -> bool {
    let t = n.current_term;
    &&& h.runs.contains_key((n.id, t))
    &&& h.runs[(n.id, t)] == x
    &&& forall|v: u32| #[trigger]
        n.votes_granted.contains(v) ==> h.votes.contains_key((v, t)) && h.votes[(v, t)] == n.id
    &&& h.reigns.contains_key(t) ==> h.reigns[t].owner != n.id
}

/// A leader holds its term's log, and counts on others for no more than they
/// acknowledged, or than is committed anyway.
pub open spec fn leads(h: Chronicle, n: NodeView, x: Seq<EntryView>) -> bool {
    let t = n.current_term;
    &&& h.reigns.contains_key(t)
    &&& h.reigns[t].owner == n.id
    &&& h.led(t) == x
    &&& h.acked(n.id, t) >= x.len()
    &&& h.told.contains_key(t)
    &&& h.told[t] == n.commit_index
    &&& forall|v: u32| #[trigger]
        n.match_index.contains_key(v) ==> n.match_index[v] <= h.acked(v, t) || n.match_index[v]
            <= n.commit_index
}

/// The membership that a node goes by is the one that its log puts in force.
pub open spec fn configured(h: Chronicle, n: NodeView, x: Seq<EntryView>) -> bool {
    &&& n.cluster == h.config_of(x)
    &&& n.base_config == h.config_of(x.take(n.log.start - 1))
    &&& last_config(x) <= n.config_index
}

/// The node was waiting to answer this at the moment that is remembered.
pub open spec fn asked_before(h: Chronicle, id: u32, request: RequestView) -> bool {
    h.past.reads.contains_key(id) && exists|j: int|
        0 <= j < h.past.reads[id].len() && (#[trigger] h.past.reads[id][j]).request == request
}

/// The round was begun for a read that was not waiting before, or it is one of
/// those.
pub open spec fn begun_for(h: Chronicle, id: u32, term: u64, r: u64, request: RequestView) -> bool {
    !h.past.rounds.contains((term, r)) || asked_before(h, id, request)
}

/// A read that waits at the leader of `term`.
pub open spec fn waits(h: Chronicle, id: u32, term: u64, read: ReadView) -> bool {
    match read.read_index {
        None => read.round is None && read.acks == Set::<u32>::empty(),
        Some(index) => {
            let r = read.round->0;
            &&& read.round is Some
            &&& r > 0
            &&& h.rounds.contains_key((term, r))
            &&& h.rounds[(term, r)].index == index
            &&& confirmed(h, term, r, read.acks)
            &&& begun_for(h, id, term, r, read.request)
        },
    }
}

/// Reads wait at a leader only, and each of them properly.
pub open spec fn reads_wait(h: Chronicle, n: NodeView) -> bool {
    &&& n.role != Role::Leader ==> n.pending_reads.len() == 0
    &&& n.role == Role::Leader ==> forall|r: u64| #[trigger]
        h.rounds.contains_key((n.current_term, r)) ==> r <= n.read_round
    &&& forall|k: int|
        0 <= k < n.pending_reads.len() ==> waits(
            h,
            n.id,
            n.current_term,
            #[trigger] n.pending_reads[k],
        )
}

/// What a node that is up knows is true.
pub open spec fn informed(h: Chronicle, n: NodeView, x: Seq<EntryView>) -> bool {
    &&& n.cfg.bugs == BugSwitches::none()
    &&& configured(h, n, x)
    &&& h.settled(n.current_term, x, n.commit_index as int)
    &&& h.known(n.current_term, n.commit_index)
    &&& reads_wait(h, n)
    &&& n.last_applied <= n.commit_index
    &&& n.snapshot matches Some(s) ==> {
        &&& s.last_included.index <= n.commit_index
        &&& s.last_included.index <= n.log.last_included.index
        &&& h.snaps.contains_key(n.id)
        &&& h.snaps[n.id] == s.last_included.index
    }
    &&& n.role == Role::Candidate ==> stands(h, n, x)
    &&& n.role == Role::Leader ==> leads(h, n, x)
}

/// All of it.
pub open spec fn sane(h: Chronicle, n: NodeView, x: Seq<EntryView>) -> bool {
    recorded(h, n.id, stored(n), x) && informed(h, n, x)
}

/// What a message says is true.
pub open spec fn honest(h: Chronicle, from: u32, to: u32, msg: MessageView) -> bool {
    match msg {
        MessageView::RequestVote(req) => {
            &&& req.candidate_id == from
            &&& h.runs.contains_key((from, req.term))
            &&& end_of(h.runs[(from, req.term)]) == (LogId {
                index: req.last_log_index,
                term: req.last_log_term,
            })
        },
        MessageView::RequestVoteResp(resp) => resp.vote_granted ==> h.votes.contains_key(
            (from, resp.term),
        ) && h.votes[(from, resp.term)] == to,
        MessageView::AppendEntries(req) => {
            let led = h.led(req.term);
            let prev = req.prev_log_index as int;
            &&& h.reigns.contains_key(req.term)
            &&& prev + req.entries.len() <= led.len()
            &&& req.entries == led.subrange(prev, prev + req.entries.len())
            &&& prev == 0 ==> req.prev_log_term == 0
            &&& prev > 0 ==> req.prev_log_term == led[prev - 1].term
            &&& h.settled(req.term, led, req.leader_commit as int)
            &&& h.known(req.term, req.leader_commit)
            &&& req.read_round > 0 ==> h.rounds.contains_key((req.term, req.read_round))
        },
        MessageView::AppendEntriesResp(resp) => resp.success ==> resp.match_index <= h.acked(
            from,
            resp.term,
        ) && (resp.read_round > 0 ==> h.confirms.contains((from, resp.term, resp.read_round))),
        MessageView::InstallSnapshot(req) => {
            &&& h.reigns.contains_key(req.term)
            &&& h.anchored(
                req.term,
                LogId { index: req.last_included_index, term: req.last_included_term },
                req.config,
            )
            &&& h.known(req.term, req.last_included_index)
            &&& h.snaps.contains_key(from)
            &&& req.last_included_index <= h.snaps[from]
        },
        MessageView::InstallSnapshotResp(resp) => resp.last_included_index <= h.acked(
            from,
            resp.term,
        ) || (h.snaps.contains_key(to) && resp.last_included_index <= h.snaps[to]),
    }
}

/// This entry is committed at this index.
pub open spec fn final_at(h: Chronicle, index: u64, term: u64, payload: PayloadView) -> bool {
    index > 0 && exists|t: u64, k: int| #[trigger]
        h.committed(t, k) && index <= k && h.led(t)[index - 1].term == term && h.led(t)[index
            - 1].payload == payload
}

/// A read that enough nodes confirmed while no later term had a leader.
pub open spec fn read_by(h: Chronicle, id: u32, term: u64, r: u64, request: RequestView) -> bool {
    &&& h.rounds.contains_key((term, r))
    &&& forall|w: u64| #[trigger] h.rounds[(term, r)].terms.contains(w) ==> w <= term
    &&& begun_for(h, id, term, r, request)
}

/// Such a read is served, at the index that its round stands for.
pub open spec fn read_true(h: Chronicle, id: u32, client: u32, seq: u64, index: u64) -> bool {
    exists|term: u64, r: u64, request: RequestView| #[trigger]
        read_by(h, id, term, r, request) && request.client == client && request.seq == seq
            && h.rounds[(term, r)].index == index
}

/// This effect is true.
pub open spec fn effect_true(h: Chronicle, id: u32, o: OutputView) -> bool {
    match o {
        OutputView::Apply { index, term, payload, client, respond } => final_at(
            h,
            index,
            term,
            payload,
        ),
        OutputView::ServeRead { client, seq, command, read_index } => read_true(
            h,
            id,
            client,
            seq,
            read_index,
        ),
        _ => true,
    }
}

pub open spec fn sends_true(h: Chronicle, t: Turn) -> bool {
    forall|k: int|
        0 <= k < t.out.sends.len() ==> (#[trigger] t.out.sends[k] matches OutputView::Send {
            to,
            msg,
        } ==> honest(h, t.node.id, to, msg))
}

pub open spec fn effects_true(h: Chronicle, t: Turn) -> bool {
    forall|k: int|
        0 <= k < t.out.effects.len() ==> effect_true(h, t.node.id, #[trigger] t.out.effects[k])
}

/// A turn in which everything said and done is true.
pub open spec fn fine(h: Chronicle, t: Turn, x: Seq<EntryView>) -> bool {
    &&& sane(h, t.node, x)
    &&& sends_true(h, t)
    &&& effects_true(h, t)
}

// ---------------------------------------------------------------------------
// Whole logs
// ---------------------------------------------------------------------------

pub proof fn lemma_whole(log: LogView, x: Seq<EntryView>)
    requires
        whole(log, x),
        plain(x),
    ensures
        log.last_index() == x.len(),
        log.last_log_id() == end_of(x),
        forall|i: u64|
            #![trigger log.term_at(i)]
            log.term_at(i) is Some ==> i <= x.len() && i >= log.start - 1 && (i == 0
                ==> log.term_at(i) == Some(0u64)) && (i > 0 ==> log.term_at(i) == Some(
                x[i - 1].term,
            )),
        forall|i: u64|
            #![trigger log.at(i)]
            log.start <= i <= x.len() ==> log.holds(i) && log.at(i) == x[i - 1]
                && log.term_at(i) == Some(x[i - 1].term),
{
    assert forall|i: u64| log.start <= i <= x.len() implies log.holds(i) && #[trigger] log.at(i)
        == x[i - 1] && log.term_at(i) == Some(x[i - 1].term) by {
        assert(log.entries[i - log.start] == x[i - 1]);
    }
    assert forall|i: u64| #![trigger log.term_at(i)] log.term_at(i) is Some implies i <= x.len()
        && i >= log.start - 1 && (i == 0 ==> log.term_at(i) == Some(0u64)) && (i > 0
        ==> log.term_at(i) == Some(x[i - 1].term)) by {
        if i != log.last_included.index {
            assert(log.entries[i - log.start] == x[i - 1]);
        }
    }
    if log.entries.len() > 0 {
        assert(log.entries.last() == x.last());
    }
}

/// More at the end.
pub proof fn lemma_whole_append(log: LogView, x: Seq<EntryView>, more: Seq<EntryView>)
    requires
        whole(log, x),
        log.appendable(more),
    ensures
        whole(log.append(more), x + more),
{
    crate::disk_laws::lemma_appended(log, more);
    assert(log.append(more).entries =~= (x + more).skip(log.start - 1));
}

/// Less at the end.
pub proof fn lemma_whole_truncate(log: LogView, x: Seq<EntryView>, index: u64)
    requires
        whole(log, x),
        log.start <= index <= x.len(),
    ensures
        whole(log.truncate_from(index), x.take(index - 1)),
{
    crate::disk_laws::lemma_truncated(log, index);
    let fewer = x.take(index - 1);
    assert(log.truncate_from(index).entries =~= fewer.skip(log.start - 1));
}

/// Less at the front.
pub proof fn lemma_whole_compact(log: LogView, x: Seq<EntryView>, through: LogId)
    requires
        whole(log, x),
        plain(x),
        log.term_at(through.index) == Some(through.term),
    ensures
        whole(log.compact(through), x),
{
    lemma_whole(log, x);
    crate::disk_laws::lemma_compacted(log, through);
    let c = log.compact(through);
    if through.index >= log.start {
        assert(c.entries =~= x.skip(c.start - 1));
    }
}

/// Nothing but what went before.
pub proof fn lemma_whole_reset(log: LogView, y: Seq<EntryView>, through: LogId)
    requires
        log.wf(),
        !log.zero_anchor,
        0 < through.index < u64::MAX,
        y.len() == through.index,
        y.last().term == through.term,
    ensures
        whole(log.reset_to(through), y),
{
    crate::disk_laws::lemma_compacted(log, through);
    assert(log.reset_to(through).entries =~= y.skip(through.index as int));
}

// ---------------------------------------------------------------------------
// What stays true
// ---------------------------------------------------------------------------

pub proof fn lemma_honest_stays(
    h: Chronicle,
    later: Chronicle,
    from: u32,
    to: u32,
    msg: MessageView,
)
    requires
        h.true_to_raft(),
        h.extends(later),
        honest(h, from, to, msg),
    ensures
        honest(later, from, to, msg),
{
    match msg {
        MessageView::RequestVote(req) => {},
        MessageView::RequestVoteResp(resp) => {},
        MessageView::AppendEntries(req) => {
            let t = req.term;
            let led = h.led(t);
            let prev = req.prev_log_index as int;
            crate::chronicle::lemma_holds_less(
                later.led(t),
                led,
                led.len() as int,
                led.len() as int,
            );
            assert(req.entries =~= later.led(t).subrange(prev, prev + req.entries.len()));
            crate::chronicle::lemma_settled_in(h, t, led, req.leader_commit as int, t);
            crate::chronicle::lemma_holds_less(
                later.led(t),
                led,
                led.len() as int,
                req.leader_commit as int,
            );
            crate::chronicle::lemma_settled_stays(h, later, t, t, led, req.leader_commit as int);
            lemma_known_stays(h, later, t, t, req.leader_commit, req.leader_commit);
            lemma_settled_longer(later, t, led, later.led(t), req.leader_commit as int);
        },
        MessageView::AppendEntriesResp(resp) => {
            assert(h.acked(from, resp.term) <= later.acked(from, resp.term));
        },
        MessageView::InstallSnapshot(req) => {
            crate::chronicle::lemma_anchored_stays(
                h,
                later,
                req.term,
                req.term,
                LogId { index: req.last_included_index, term: req.last_included_term },
                req.config,
            );
            lemma_known_stays(
                h,
                later,
                req.term,
                req.term,
                req.last_included_index,
                req.last_included_index,
            );
        },
        MessageView::InstallSnapshotResp(resp) => {
            assert(h.acked(from, resp.term) <= later.acked(from, resp.term));
        },
    }
}

/// What is settled of one log is settled of another that holds it.
pub proof fn lemma_settled_longer(
    h: Chronicle,
    bound: u64,
    s: Seq<EntryView>,
    r: Seq<EntryView>,
    n: int,
)
    requires
        h.settled(bound, s, n),
        n > 0 ==> holds(r, s, n),
    ensures
        h.settled(bound, r, n),
{
    if n > 0 {
        let (term, k) = choose|term: u64, k: int| #[trigger]
            h.committed(term, k) && term <= bound && n <= k && holds(s, h.led(term), n);
        assert(holds(r, h.led(term), n));
    }
}

/// Less of it is settled, too.
pub proof fn lemma_settled_less(h: Chronicle, bound: u64, s: Seq<EntryView>, n: int, m: int)
    requires
        h.settled(bound, s, n),
        m <= n,
    ensures
        h.settled(bound, s, m),
{
    if m > 0 {
        let (term, k) = choose|term: u64, k: int| #[trigger]
            h.committed(term, k) && term <= bound && n <= k && holds(s, h.led(term), n);
        crate::chronicle::lemma_holds_less(s, h.led(term), n, m);
        assert(h.committed(term, k));
    }
}

pub proof fn lemma_final_stays(
    h: Chronicle,
    later: Chronicle,
    index: u64,
    term: u64,
    payload: PayloadView,
)
    requires
        h.true_to_raft(),
        h.extends(later),
        final_at(h, index, term, payload),
    ensures
        final_at(later, index, term, payload),
{
    let (t, k) = choose|t: u64, k: int| #[trigger]
        h.committed(t, k) && index <= k && h.led(t)[index - 1].term == term && h.led(t)[index
            - 1].payload == payload;
    crate::chronicle::lemma_committed_stays(h, later, t, k);
    crate::chronicle::lemma_holds_less(
        later.led(t),
        h.led(t),
        h.led(t).len() as int,
        h.led(t).len() as int,
    );
    assert(later.led(t)[index - 1] == h.led(t)[index - 1]);
}

pub proof fn lemma_outs_stay(h: Chronicle, later: Chronicle, t: Turn)
    requires
        h.true_to_raft(),
        h.extends(later),
        later.past == h.past,
        sends_true(h, t),
        effects_true(h, t),
    ensures
        sends_true(later, t),
        effects_true(later, t),
{
    assert forall|k: int|
        0 <= k < t.out.sends.len() implies (#[trigger] t.out.sends[k] matches OutputView::Send {
        to,
        msg,
    } ==> honest(later, t.node.id, to, msg)) by {
        match t.out.sends[k] {
            OutputView::Send { to, msg } => lemma_honest_stays(h, later, t.node.id, to, msg),
            _ => {},
        }
    }
    assert forall|k: int| 0 <= k < t.out.effects.len() implies effect_true(
        later,
        t.node.id,
        #[trigger] t.out.effects[k],
    ) by {
        lemma_effect_stays(h, later, t.node.id, t.out.effects[k]);
    }
}

pub proof fn lemma_effect_stays(h: Chronicle, later: Chronicle, id: u32, o: OutputView)
    requires
        h.true_to_raft(),
        h.extends(later),
        later.past == h.past,
        effect_true(h, id, o),
    ensures
        effect_true(later, id, o),
{
    match o {
        OutputView::Apply { index, term, payload, client, respond } => lemma_final_stays(
            h,
            later,
            index,
            term,
            payload,
        ),
        OutputView::ServeRead { client, seq, command, read_index } => {
            let (term, r, request) = choose|term: u64, r: u64, request: RequestView| #[trigger]
                read_by(h, id, term, r, request) && request.client == client && request.seq == seq
                    && h.rounds[(term, r)].index == read_index;
            assert(read_by(later, id, term, r, request));
        },
        _ => {},
    }
}

/// What some leader knew, it knew.
pub proof fn lemma_known_stays(
    h: Chronicle,
    later: Chronicle,
    bound: u64,
    upto: u64,
    n: u64,
    m: u64,
)
    requires
        h.extends(later),
        h.known(bound, n),
        bound <= upto,
        m <= n,
    ensures
        later.known(upto, m),
{
    if m > 0 {
        let t = choose|t: u64| #[trigger]
            h.told.contains_key(t) && t <= bound && n <= h.told[t];
        assert(later.told.contains_key(t));
    }
}

/// The chronicle says nothing new of node `i` itself.
pub open spec fn silent(h: Chronicle, later: Chronicle, i: u32) -> bool {
    &&& forall|t: u64| #[trigger]
        later.votes.contains_key((i, t)) ==> h.votes.contains_key((i, t))
    &&& forall|t: u64| #[trigger] later.runs.contains_key((i, t)) ==> h.runs.contains_key((i, t))
    &&& forall|t: u64| #[trigger] later.acks.contains_key((i, t)) ==> h.acks.contains_key((i, t))
    &&& forall|t: u64| #[trigger] later.acked(i, t) == h.acked(i, t)
    &&& later.snaps.contains_key(i) ==> h.snaps.contains_key(i) && later.snaps[i] == h.snaps[i]
}

/// What is on a disk stays true.
pub proof fn lemma_recorded_stays(
    h: Chronicle,
    later: Chronicle,
    i: u32,
    d: DiskView,
    x: Seq<EntryView>,
)
    requires
        h.true_to_raft(),
        h.extends(later),
        silent(h, later, i),
        recorded(h, i, d, x),
    ensures
        recorded(later, i, d, x),
{
    crate::chronicle::lemma_rooted_stays(h, later, x);
    crate::chronicle::lemma_carries_stays(
        h,
        later,
        i,
        x,
        d.current_term as int,
        d.current_term as int,
    );
    lemma_snapshot_stays(h, later, d.snapshot, d.current_term, d.current_term);
}

/// So does what is said of a snapshot.
proof fn lemma_snapshot_stays(
    h: Chronicle,
    later: Chronicle,
    snapshot: Option<SnapshotView>,
    bound: u64,
    upto: u64,
)
    requires
        h.true_to_raft(),
        h.extends(later),
        bound <= upto,
        snapshot matches Some(s) ==> h.anchored(bound, s.last_included, s.config) && h.known(
            bound,
            s.last_included.index,
        ),
    ensures
        snapshot matches Some(s) ==> later.anchored(upto, s.last_included, s.config)
            && later.known(upto, s.last_included.index),
{
    match snapshot {
        Some(s) => {
            crate::chronicle::lemma_anchored_stays(
                h,
                later,
                bound,
                upto,
                s.last_included,
                s.config,
            );
            lemma_known_stays(
                h,
                later,
                bound,
                upto,
                s.last_included.index,
                s.last_included.index,
            );
        },
        None => {},
    }
}

/// And what is said of the reads, but for rounds of the node's own.
pub proof fn lemma_reads_wait_stay(h: Chronicle, later: Chronicle, a: NodeView, b: NodeView)
    requires
        h.extends(later),
        later.past == h.past,
        reads_wait(h, a),
        b.id == a.id,
        b.role == a.role,
        b.current_term == a.current_term,
        b.pending_reads == a.pending_reads,
        b.read_round == a.read_round,
        b.role == Role::Leader ==> forall|r: u64| #[trigger]
            later.rounds.contains_key((b.current_term, r)) ==> h.rounds.contains_key(
                (b.current_term, r),
            ),
    ensures
        reads_wait(later, b),
{
    assert forall|k: int| 0 <= k < b.pending_reads.len() implies waits(
        later,
        b.id,
        b.current_term,
        #[trigger] b.pending_reads[k],
    ) by {
        let read = a.pending_reads[k];
        assert(waits(h, a.id, a.current_term, read));
        if read.read_index is Some {
            lemma_confirmed_stays(h, later, a.current_term, read.round->0, read.acks);
        }
    }
}

proof fn lemma_confirmed_stays(h: Chronicle, later: Chronicle, term: u64, r: u64, acks: Set<u32>)
    requires
        h.extends(later),
        confirmed(h, term, r, acks),
    ensures
        confirmed(later, term, r, acks),
{
    assert forall|v: u32| #[trigger] acks.contains(v) implies exists|q: u64|
        r <= q && #[trigger] later.confirms.contains((v, term, q)) by {
        let q = choose|q: u64| r <= q && #[trigger] h.confirms.contains((v, term, q));
        assert(later.confirms.contains((v, term, q)));
    }
}

pub proof fn lemma_others_silent(h: Chronicle, later: Chronicle, node: u32, i: u32)
    requires
        h.extends(later),
        h.made_by(later, node),
        i != node,
    ensures
        silent(h, later, i),
{
}

/// So does what a node knows.
pub proof fn lemma_informed_stays(
    h: Chronicle,
    later: Chronicle,
    node: u32,
    n: NodeView,
    x: Seq<EntryView>,
)
    requires
        h.true_to_raft(),
        h.extends(later),
        h.made_by(later, node),
        n.id != node,
        informed(h, n, x),
    ensures
        informed(later, n, x),
{
    let t = n.current_term;
    crate::chronicle::lemma_settled_stays(h, later, t, t, x, n.commit_index as int);
    lemma_known_stays(h, later, t, t, n.commit_index, n.commit_index);
    if n.role == Role::Leader {
        assert(later.reigns.contains_key(t) && later.reigns[t].owner == n.id);
    }
    lemma_reads_wait_stay(h, later, n, n);
    if n.role == Role::Candidate {
        if later.reigns.contains_key(t) && later.reigns[t].owner == n.id {
            assert(later.reigns[t].owner != node);
            assert(h.reigns.contains_key(t));
        }
        assert forall|v: u32| #[trigger]
            n.votes_granted.contains(v) implies later.votes.contains_key((v, t))
            && later.votes[(v, t)] == n.id by {
            assert(h.votes.contains_key((v, t)));
        }
    }
    if n.role == Role::Leader {
        assert(later.reigns.contains_key(t));
        assert(later.reigns[t] == h.reigns[t]);
        assert(h.acked(n.id, t) <= later.acked(n.id, t));
        assert forall|v: u32| #[trigger]
            n.match_index.contains_key(v) implies n.match_index[v] <= later.acked(v, t)
            || n.match_index[v] <= n.commit_index by {
            assert(h.acked(v, t) <= later.acked(v, t));
        }
    }
}

// ---------------------------------------------------------------------------
// Steps that write nothing
// ---------------------------------------------------------------------------

/// The two differ in nothing that is said to be true here.
pub open spec fn same_core(a: NodeView, b: NodeView) -> bool {
    &&& b.id == a.id
    &&& b.cluster == a.cluster
    &&& b.base_config == a.base_config
    &&& b.config_index == a.config_index
    &&& b.cfg == a.cfg
    &&& b.current_term == a.current_term
    &&& b.voted_for == a.voted_for
    &&& b.log == a.log
    &&& b.snapshot == a.snapshot
    &&& b.commit_index == a.commit_index
    &&& b.last_applied == a.last_applied
    &&& b.role == a.role
    &&& b.votes_granted == a.votes_granted
    &&& b.match_index == a.match_index
    &&& b.pending_reads == a.pending_reads
    &&& b.read_round == a.read_round
}

/// The two differ in nothing else but the reads.
spec fn same_but_reads(a: NodeView, b: NodeView) -> bool {
    same_core(a, NodeView { pending_reads: a.pending_reads, read_round: a.read_round, ..b })
}

proof fn lemma_reads_changed(h: Chronicle, t: Turn, node: NodeView, x: Seq<EntryView>)
    requires
        fine(h, t, x),
        same_but_reads(t.node, node),
        reads_wait(h, node),
    ensures
        fine(h, t.with_node(node), x),
{
}

proof fn lemma_same_core(h: Chronicle, t: Turn, node: NodeView, x: Seq<EntryView>)
    requires
        fine(h, t, x),
        same_core(t.node, node),
    ensures
        fine(h, t.with_node(node), x),
{
}

proof fn lemma_send(h: Chronicle, t: Turn, x: Seq<EntryView>, to: u32, msg: MessageView)
    requires
        fine(h, t, x),
        honest(h, t.node.id, to, msg),
    ensures
        fine(h, t.send(to, msg), x),
{
    let s = t.send(to, msg);
    assert forall|k: int|
        0 <= k < s.out.sends.len() implies (#[trigger] s.out.sends[k] matches OutputView::Send {
        to,
        msg,
    } ==> honest(h, s.node.id, to, msg)) by {
        if k < t.out.sends.len() {
            assert(s.out.sends[k] == t.out.sends[k]);
        }
    }
}

proof fn lemma_effect(h: Chronicle, t: Turn, x: Seq<EntryView>, o: OutputView)
    requires
        fine(h, t, x),
        effect_true(h, t.node.id, o),
    ensures
        fine(h, t.effect(o), x),
{
    let s = t.effect(o);
    assert forall|k: int| 0 <= k < s.out.effects.len() implies effect_true(
        h,
        s.node.id,
        #[trigger] s.out.effects[k],
    ) by {
        if k < t.out.effects.len() {
            assert(s.out.effects[k] == t.out.effects[k]);
        }
    }
}

/// A later term, or stepping down.
pub proof fn lemma_follow(h: Chronicle, t: Turn, x: Seq<EntryView>, term: u64, leader: Option<u32>)
    requires
        h.true_to_raft(),
        fine(h, t, x),
    ensures
        fine(h, t.with_node(t.node.become_follower(term, leader)), x),
{
    let a = t.node;
    let b = a.become_follower(term, leader);
    let was = a.current_term;
    let is = b.current_term;
    crate::chronicle::lemma_extends_refl(h, a.id);
    assert forall|u: u64| was < u <= is implies #[trigger] h.acked(a.id, u) == 0 by {
        if h.acks.contains_key((a.id, u)) {
        }
    }
    crate::chronicle::lemma_carries_stays(h, h, a.id, x, was as int, is as int);
    crate::chronicle::lemma_settled_stays(h, h, was, is, x, a.commit_index as int);
    lemma_snapshot_stays(h, h, a.snapshot, was, is);
    lemma_known_stays(h, h, was, is, a.commit_index, a.commit_index);
    assert(recorded(h, b.id, stored(b), x)) by {
        assert forall|u: u64| #[trigger] h.votes.contains_key((b.id, u)) implies u <= is && (u
            == is ==> b.voted_for == Some(h.votes[(b.id, u)])) by {}
        assert forall|j: int| 0 <= j < x.len() implies (#[trigger] x[j]).term <= is by {}
    }
    assert(informed(h, b, x));
}

/// A leader replicates to one node.
proof fn lemma_send_append(h: Chronicle, t: Turn, x: Seq<EntryView>, to: u32, round: u64)
    requires
        h.true_to_raft(),
        fine(h, t, x),
        t.node.role == Role::Leader,
        round > 0 ==> h.rounds.contains_key((t.node.current_term, round)),
    ensures
        fine(h, t.send_append_entries_for(to, round), x),
        t.send_append_entries_for(to, round).node == t.node,
{
    reveal(Turn::send_append_entries_for);
    let n = t.node;
    let log = n.log;
    lemma_whole(log, x);
    let next = t.next_for(to);
    let prev = crate::model::one_less(next);
    match log.term_at(prev) {
        None => {
            match n.snapshot {
                None => {},
                Some(s) => {
                    lemma_known_stays(
                        h,
                        h,
                        n.current_term,
                        n.current_term,
                        s.last_included.index,
                        s.last_included.index,
                    );
                    lemma_send(
                        h,
                        t,
                        x,
                        to,
                        MessageView::InstallSnapshot(
                            InstallView {
                                term: n.current_term,
                                leader_id: n.id,
                                last_included_index: s.last_included.index,
                                last_included_term: s.last_included.term,
                                config: s.config,
                                data: s.data,
                            },
                        ),
                    );
                },
            }
        },
        Some(prev_term) => {
            let entries = log.entries_from(next, n.cfg.max_entries_per_append);
            let from = prev as int;
            assert(entries =~= x.subrange(from, from + entries.len())) by {
                if next <= log.last_index() {
                    let offset = if next < log.start {
                        0
                    } else {
                        next - log.start
                    };
                    assert(log.start - 1 + offset == from);
                } else {
                    assert(from <= x.len());
                }
            }
            let req = AppendView {
                term: n.current_term,
                leader_id: n.id,
                prev_log_index: prev,
                prev_log_term: prev_term,
                entries,
                leader_commit: n.commit_index,
                read_round: round,
            };
            lemma_send(h, t, x, to, MessageView::AppendEntries(req));
        },
    }
}

proof fn lemma_broadcast_to(
    h: Chronicle,
    t: Turn,
    x: Seq<EntryView>,
    voters: Seq<u32>,
    n: int,
    round: u64,
)
    requires
        h.true_to_raft(),
        fine(h, t, x),
        t.node.role == Role::Leader,
        round > 0 ==> h.rounds.contains_key((t.node.current_term, round)),
    ensures
        fine(h, t.broadcast_to(voters, n, round), x),
        t.broadcast_to(voters, n, round).node == t.node,
    decreases n,
{
    if n > 0 {
        lemma_broadcast_to(h, t, x, voters, n - 1, round);
        let before = t.broadcast_to(voters, n - 1, round);
        if voters[n - 1] != t.node.id {
            lemma_send_append(h, before, x, voters[n - 1], round);
        }
    }
}

/// A leader replicates to everyone.
proof fn lemma_broadcast(h: Chronicle, t: Turn, x: Seq<EntryView>, round: u64)
    requires
        h.true_to_raft(),
        fine(h, t, x),
        t.node.role == Role::Leader,
        round > 0 ==> h.rounds.contains_key((t.node.current_term, round)),
    ensures
        fine(h, t.broadcast(round), x),
        t.broadcast(round).node == t.node,
        t.broadcast(round).out.persists == t.out.persists,
{
    reveal(Turn::broadcast);
    let voters = crate::order::in_order(t.node.cluster.voters());
    lemma_broadcast_to(h, t, x, voters, voters.len() as int, round);
    crate::node_laws::lemma_broadcast(t, round);
}

/// A longer chronicle, by this node's doing.
pub open spec fn grows(h: Chronicle, later: Chronicle, node: u32) -> bool {
    later.true_to_raft() && h.extends(later) && h.made_by(later, node)
}

/// A leader counts replicas.
proof fn lemma_advance_commit(h: Chronicle, t: Turn, x: Seq<EntryView>) -> (later: Chronicle)
    requires
        h.true_to_raft(),
        fine(h, t, x),
        t.node.role == Role::Leader,
    ensures
        grows(h, later, t.node.id),
        fine(later, t.with_node(t.node.maybe_advance_commit()), x),
{
    let n = t.node;
    let b = n.maybe_advance_commit();
    let target = b.commit_index;
    lemma_whole(n.log, x);
    crate::node_laws::lemma_commit_target(n, n.log.last_index());
    if target > n.commit_index {
        let term = n.current_term;
        crate::chronicle::lemma_reign(h, term);
        assert forall|v: u32| #[trigger] n.holders(target).contains(v) implies h.holders(
            term,
            target as int,
        ).contains(v) by {
            if v == n.id {
                assert(h.acked(v, term) >= x.len());
            } else {
                assert(n.match_index.contains_key(v));
            }
        }
        crate::chronicle::lemma_config_wf(h, x);
        crate::chronicle::lemma_quorum_grows(
            n.cluster,
            n.holders(target),
            h.holders(term, target as int),
        );
        assert(n.log.term_at(target) == Some(term));
        let m = x.len() as int;
        assert(h.led(term).take(m) =~= x);
        assert(h.committed_at(term, target as int, m));
        assert(h.committed(term, target as int));
        assert(holds(x, h.led(term), target as int));
        assert(h.settled(term, x, target as int));
        crate::chronicle::lemma_with_told(h, term, target);
        let later = h.with_told(term, target);
        lemma_outs_stay(h, later, t);
        assert(forall|v: u32, u: u64| #[trigger] later.acked(v, u) == h.acked(v, u));
        assert(later.told.contains_key(term));
        lemma_recorded_told(h, later, n.id, stored(n), x);
        crate::chronicle::lemma_settled_stays(h, later, term, term, x, target as int);
        lemma_reads_wait_stay(h, later, n, b);
        assert(informed(later, b, x));
        assert(fine(later, t.with_node(b), x));
        later
    } else {
        crate::chronicle::lemma_extends_refl(h, n.id);
        h
    }
}

/// What is on a disk stays true where only the reads' part of the chronicle
/// grows.
proof fn lemma_recorded_told(
    h: Chronicle,
    later: Chronicle,
    i: u32,
    d: DiskView,
    x: Seq<EntryView>,
)
    requires
        h.true_to_raft(),
        h.extends(later),
        later == (Chronicle {
            told: later.told,
            rounds: later.rounds,
            confirms: later.confirms,
            ..h
        }),
        recorded(h, i, d, x),
    ensures
        recorded(later, i, d, x),
{
    assert(forall|v: u32, u: u64| #[trigger] later.acked(v, u) == h.acked(v, u));
    assert(silent(h, later, i));
    lemma_recorded_stays(h, later, i, d, x);
}


// ---------------------------------------------------------------------------
// Votes
// ---------------------------------------------------------------------------

/// A node that has not voted in its term, or has voted for `c`, votes for `c`.
pub proof fn lemma_vote(h: Chronicle, t: Turn, x: Seq<EntryView>, c: u32, node: NodeView) -> (later:
    Chronicle)
    requires
        h.true_to_raft(),
        fine(h, t, x),
        t.node.voted_for is None || t.node.voted_for == Some(c),
        node.voted_for == Some(c),
        same_core(t.node, NodeView { voted_for: t.node.voted_for, ..node }),
        h.runs.contains_key((c, t.node.current_term)),
        end_of(h.runs[(c, t.node.current_term)]).up_to_date_with(end_of(x)),
    ensures
        later.true_to_raft(),
        h.extends(later),
        h.made_by(later, t.node.id),
        fine(later, t.with_node(node), x),
        later.votes.contains_key((t.node.id, t.node.current_term)),
        later.votes[(t.node.id, t.node.current_term)] == c,
{
    let a = t.node;
    let term = a.current_term;
    if a.voted_for == Some(c) {
        crate::chronicle::lemma_extends_refl(h, a.id);
        assert(h.votes.contains_key((a.id, term)));
        assert(same_core(a, node));
        h
    } else {
        let later = h.with_vote(a.id, term, c, x);
        crate::chronicle::lemma_with_vote(h, a.id, term, c, x);
        lemma_outs_stay(h, later, t);
        lemma_voted(h, later, a, node, x, c);
        later
    }
}

proof fn lemma_voted(
    h: Chronicle,
    later: Chronicle,
    a: NodeView,
    b: NodeView,
    x: Seq<EntryView>,
    c: u32,
)
    requires
        h.true_to_raft(),
        sane(h, a, x),
        later == h.with_vote(a.id, a.current_term, c, x),
        h.extends(later),
        b.voted_for == Some(c),
        same_core(a, NodeView { voted_for: a.voted_for, ..b }),
    ensures
        sane(later, b, x),
{
    let term = a.current_term;
    let i = a.id;
    crate::chronicle::lemma_rooted_stays(h, later, x);
    crate::chronicle::lemma_carries_stays(h, later, i, x, term as int, term as int);
    crate::chronicle::lemma_settled_stays(h, later, term, term, x, a.commit_index as int);
    lemma_snapshot_stays(h, later, a.snapshot, term, term);
    lemma_known_stays(h, later, term, term, a.commit_index, a.commit_index);
    lemma_reads_wait_stay(h, later, a, b);
    assert forall|u: u64| #[trigger] later.votes.contains_key((i, u)) implies u <= term && (u
        == term ==> b.voted_for == Some(later.votes[(i, u)])) by {
        if u != term {
            assert(h.votes.contains_key((i, u)));
        }
    }
    if b.role == Role::Candidate {
        assert(stands(h, a, x));
        assert forall|v: u32| #[trigger]
            b.votes_granted.contains(v) implies later.votes.contains_key((v, term))
            && later.votes[(v, term)] == b.id by {
            assert(a.votes_granted.contains(v));
            assert(h.votes.contains_key((v, term)));
        }
    }
    if b.role == Role::Leader {
        assert(leads(h, a, x));
        assert(later.reigns == h.reigns && later.acks == h.acks);
        assert(forall|v: u32, u: u64| #[trigger] later.acked(v, u) == h.acked(v, u));
    }
}

/// A node stands for election in the next term.
pub proof fn lemma_stand(h: Chronicle, t: Turn, x: Seq<EntryView>, node: NodeView) -> (later:
    Chronicle)
    requires
        h.true_to_raft(),
        fine(h, t, x),
        t.node.role != Role::Leader,
        t.node.current_term < u64::MAX,
        node.current_term == t.node.current_term + 1,
        node.role == Role::Candidate,
        node.voted_for == Some(t.node.id),
        node.votes_granted == Set::<u32>::empty().insert(t.node.id),
        same_core(
            t.node,
            NodeView {
                current_term: t.node.current_term,
                role: t.node.role,
                voted_for: t.node.voted_for,
                votes_granted: t.node.votes_granted,
                ..node
            },
        ),
    ensures
        later.true_to_raft(),
        h.extends(later),
        h.made_by(later, t.node.id),
        fine(later, t.with_node(node), x),
{
    let a = t.node;
    let i = a.id;
    let was = a.current_term;
    let term = node.current_term;
    assert(terms_below(x, term)) by {
        assert forall|j: int| 0 <= j < x.len() implies (#[trigger] x[j]).term < term by {}
    }
    let ran = h.with_run(i, term, x);
    crate::chronicle::lemma_with_run(h, i, term, x);
    let later = ran.with_vote(i, term, i, x);
    assert(forall|v: u32, u: u64| #[trigger] ran.acked(v, u) == h.acked(v, u));
    crate::chronicle::lemma_rooted_stays(h, ran, x);
    assert forall|u: u64| was < u <= term implies #[trigger] h.acked(i, u) == 0 by {
        if h.acks.contains_key((i, u)) {
        }
    }
    crate::chronicle::lemma_carries_stays(h, ran, i, x, was as int, term as int);
    assert(!ran.votes.contains_key((i, term)));
    crate::chronicle::lemma_with_vote(ran, i, term, i, x);
    crate::chronicle::lemma_extends_trans(h, ran, later, i);
    lemma_outs_stay(h, later, t);
    // The disk.
    crate::chronicle::lemma_rooted_stays(h, later, x);
    assert(forall|v: u32, u: u64| #[trigger] later.acked(v, u) == h.acked(v, u));
    crate::chronicle::lemma_carries_stays(h, later, i, x, was as int, term as int);
    lemma_snapshot_stays(h, later, a.snapshot, was, term);
    lemma_known_stays(h, later, was, term, a.commit_index, a.commit_index);
    assert(recorded(later, i, stored(node), x)) by {
        assert forall|u: u64| #[trigger] later.votes.contains_key((i, u)) implies u <= term && (u
            == term ==> node.voted_for == Some(later.votes[(i, u)])) by {
            if u != term {
                assert(h.votes.contains_key((i, u)));
            }
        }
        assert forall|u: u64| #[trigger] later.runs.contains_key((i, u)) implies u <= term by {
            if u != term {
                assert(h.runs.contains_key((i, u)));
            }
        }
        assert forall|u: u64| #[trigger] later.acks.contains_key((i, u)) implies u <= term by {
            assert(h.acks.contains_key((i, u)));
        }
    }
    crate::chronicle::lemma_settled_stays(h, later, was, term, x, a.commit_index as int);
    assert(stands(later, node, x)) by {
        if later.reigns.contains_key(term) && later.reigns[term].owner == i {
            // It would have been elected in a term that it had not reached.
            crate::chronicle::lemma_reign(h, term);
            lemma_owner_ran(h, term);
            assert(h.runs.contains_key((i, term)));
        }
    }
    later
}

/// Whoever won a term had stood in it.
proof fn lemma_owner_ran(h: Chronicle, term: u64)
    requires
        h.true_to_raft(),
        h.reigns.contains_key(term),
    ensures
        h.runs.contains_key((h.reigns[term].owner, term)),
{
    reveal(Chronicle::true_to_raft);
}

// ---------------------------------------------------------------------------
// Growing a log
// ---------------------------------------------------------------------------

/// What a log carries, a longer one does.
proof fn lemma_carries_longer(
    h: Chronicle,
    node: u32,
    s: Seq<EntryView>,
    r: Seq<EntryView>,
    bound: int,
)
    requires
        h.true_to_raft(),
        h.carries(node, s, bound),
        holds(r, s, s.len() as int),
    ensures
        h.carries(node, r, bound),
{
    assert forall|t0: u64, k: int|
        0 < k <= h.acked(node, t0) && t0 <= bound implies #[trigger] h.carried(
        r,
        t0,
        k,
        bound,
    ) by {
        assert(h.carried(s, t0, k, bound));
        if holds(s, h.led(t0), k) {
            crate::chronicle::lemma_holds_less(r, s, s.len() as int, k);
        }
    }
}

/// A node acknowledges what it holds of its term's leader's log.
pub proof fn lemma_acknowledge(h: Chronicle, i: u32, d: DiskView, x: Seq<EntryView>, n: nat)
    requires
        h.true_to_raft(),
        recorded(h, i, d, x),
        h.reigns.contains_key(d.current_term),
        holds(x, h.led(d.current_term), n as int),
    ensures
        h.with_ack(i, d.current_term, n).true_to_raft(),
        h.extends(h.with_ack(i, d.current_term, n)),
        h.made_by(h.with_ack(i, d.current_term, n), i),
        recorded(h.with_ack(i, d.current_term, n), i, d, x),
        h.with_ack(i, d.current_term, n).acked(i, d.current_term) >= n,
{
    let term = d.current_term;
    let later = h.with_ack(i, term, n);
    crate::chronicle::lemma_with_ack(h, i, term, n);
    crate::chronicle::lemma_rooted_stays(h, later, x);
    assert forall|t0: u64, k: int|
        0 < k <= later.acked(i, t0) && t0 <= term as int implies #[trigger] later.carried(
        x,
        t0,
        k,
        term as int,
    ) by {
        if t0 == term && k <= n {
            crate::chronicle::lemma_holds_less(x, h.led(term), n as int, k);
        } else {
            assert(0 < k <= h.acked(i, t0));
            assert(h.carried(x, t0, k, term as int));
            lemma_ack_room(h, i, t0, k);
            crate::chronicle::lemma_carried_stays(h, later, x, t0, k, term as int, term as int);
        }
    }
    lemma_snapshot_stays(h, later, d.snapshot, term, term);
}

proof fn lemma_ack_room(h: Chronicle, i: u32, t: u64, k: int)
    requires
        h.true_to_raft(),
        0 < k <= h.acked(i, t),
    ensures
        h.reigns.contains_key(t),
        k <= h.led(t).len(),
{
    crate::chronicle::lemma_ack(h, i, t);
}

/// A chronicle of the writes of a step, one of all of it, and the log after it.
pub struct Grown {
    pub mid: Chronicle,
    pub end: Chronicle,
    pub x: Seq<EntryView>,
}

/// The chronicle goes on through the writes to the end of the step.
pub open spec fn goes_on(h: Chronicle, mid: Chronicle, end: Chronicle, node: u32) -> bool {
    &&& mid.true_to_raft()
    &&& h.extends(mid)
    &&& h.made_by(mid, node)
    &&& end.true_to_raft()
    &&& mid.extends(end)
    &&& mid.made_by(end, node)
}

/// The leader's log as the chronicle has it has one entry more.
proof fn lemma_led_grows(
    h: Chronicle,
    mid: Chronicle,
    n: NodeView,
    d: DiskView,
    x: Seq<EntryView>,
    e: EntryView,
)
    requires
        h.true_to_raft(),
        mid.true_to_raft(),
        h.extends(mid),
        silent(h, mid, n.id),
        recorded(h, n.id, stored(n), x),
        mid.reigns.contains_key(n.current_term),
        mid.led(n.current_term) == x.push(e),
        e.term == n.current_term,
        e.index == x.len() + 1,
        e.payload matches PayloadView::Config(c) ==> c.wf(),
        x.len() + 1 < u64::MAX,
        d == stored(NodeView { log: n.log.append(seq![e]), ..n }),
    ensures
        recorded(mid, n.id, stored(n), x),
        recorded(mid, n.id, d, x.push(e)),
{
    let x2 = x.push(e);
    let term = n.current_term;
    lemma_recorded_stays(h, mid, n.id, stored(n), x);
    lemma_whole(n.log, x);
    lemma_whole_append(n.log, x, seq![e]);
    assert(x + seq![e] =~= x2);
    assert forall|j: int| 0 <= j < x2.len() implies #[trigger] mid.from_leader(x2, j) by {
        if j < x.len() {
            assert(mid.from_leader(x, j));
            assert(x2[j] == x[j]);
            assert(x2.take(j + 1) =~= x.take(j + 1));
        } else {
            assert(x2[j] == e);
        }
    }
    assert(holds(x2, x, x.len() as int)) by {
        assert(x2.take(x.len() as int) =~= x.take(x.len() as int));
    }
    lemma_carries_longer(mid, n.id, x, x2, term as int);
}

/// An entry that does not change the membership leaves it in force.
proof fn lemma_configured_push(
    h: Chronicle,
    a: NodeView,
    b: NodeView,
    x: Seq<EntryView>,
    e: EntryView,
)
    requires
        configured(h, a, x),
        !(e.payload is Config),
        b.cluster == a.cluster,
        b.base_config == a.base_config,
        b.config_index == a.config_index,
        b.log.start == a.log.start,
        0 < a.log.start <= x.len() + 1,
    ensures
        configured(h, b, x.push(e)),
{
    let x2 = x.push(e);
    assert(x2.drop_last() =~= x);
    assert(x2.take(a.log.start - 1) =~= x.take(a.log.start - 1));
    crate::chronicle::lemma_last_config(x);
}

/// An entry of its own goes into a leader's log.
pub proof fn lemma_append_own(
    h: Chronicle,
    t: Turn,
    x: Seq<EntryView>,
    payload: PayloadView,
    client: Option<(u32, u64)>,
) -> (g: Grown)
    requires
        h.true_to_raft(),
        fine(h, t, x),
        t.node.role == Role::Leader,
        !(payload is Config),
        x.len() + 1 < u64::MAX,
    ensures
        goes_on(h, g.mid, g.end, t.node.id),
        fine(g.end, t.append_own(payload, client), g.x),
        recorded(g.mid, t.node.id, stored(t.node), x),
        recorded(g.mid, t.node.id, stored(t.append_own(payload, client).node), g.x),
        g.x.len() == x.len() + 1,
{
    let n = t.node;
    let term = n.current_term;
    lemma_whole(n.log, x);
    let e = EntryView {
        term,
        index: (n.log.last_index() + 1) as u64,
        payload,
        client,
    };
    let x2 = x.push(e);
    let mid = h.with_entry(term, e);
    assert(plain(x2));
    crate::chronicle::lemma_with_entry(h, term, e);
    assert(forall|v: u32, u: u64| #[trigger] mid.acked(v, u) == h.acked(v, u));
    let t2 = t.append_own(payload, client);
    lemma_led_grows(h, mid, n, stored(t2.node), x, e);
    lemma_acknowledge(mid, n.id, stored(t2.node), x2, x2.len());
    let end = mid.with_ack(n.id, term, x2.len());
    crate::chronicle::lemma_extends_trans(h, mid, end, n.id);
    lemma_outs_stay(h, end, t);
    lemma_configured_push(h, n, t2.node, x, e);
    lemma_leader_grown(h, end, n, t2.node, x, x2);
    assert(sends_true(end, t2));
    assert(effects_true(end, t2));
    Grown { mid, end, x: x2 }
}

/// A leader whose membership is committed changes it.
pub proof fn lemma_append_config(
    h: Chronicle,
    t: Turn,
    x: Seq<EntryView>,
    config: ConfigView,
) -> (g:
    Grown)
    requires
        h.true_to_raft(),
        fine(h, t, x),
        t.node.role == Role::Leader,
        config.wf(),
        succeeds(t.node.cluster, config),
        t.node.config_index <= t.node.commit_index,
        x.len() + 1 < u64::MAX,
    ensures
        goes_on(h, g.mid, g.end, t.node.id),
        fine(g.end, t.append_config(config), g.x),
        recorded(g.mid, t.node.id, stored(t.node), x),
        recorded(g.mid, t.node.id, stored(t.append_config(config).node), g.x),
        t.append_config(config).out.persists.len() == t.out.persists.len() + 1,
        t.append_config(config).out.persists.take(t.out.persists.len() as int)
            == t.out.persists,
        !(t.append_config(config).out.persists.last() matches OutputView::Persist(
            PersistView::TruncateFrom(i),
        )),
        holds(g.x, x, x.len() as int),
        t.append_config(config).node.id == t.node.id,
        t.append_config(config).node.current_term == t.node.current_term,
        t.append_config(config).node.voted_for == t.node.voted_for,
{
    let n = t.node;
    let term = n.current_term;
    lemma_whole(n.log, x);
    let payload = PayloadView::Config(config);
    let e = EntryView { term, index: (n.log.last_index() + 1) as u64, payload, client: None };
    let x2 = x.push(e);
    let mid = h.with_entry(term, e);
    assert(plain(x2));
    lemma_settled_less(h, term, x, n.commit_index as int, last_config(x));
    crate::chronicle::lemma_with_entry(h, term, e);
    assert(forall|v: u32, u: u64| #[trigger] mid.acked(v, u) == h.acked(v, u));
    let t2 = t.append_own(payload, None);
    lemma_led_grows(h, mid, n, stored(t2.node), x, e);
    lemma_acknowledge(mid, n.id, stored(t2.node), x2, x2.len());
    let end = mid.with_ack(n.id, term, x2.len());
    crate::chronicle::lemma_extends_trans(h, mid, end, n.id);
    lemma_outs_stay(h, end, t);
    let n3 = NodeView {
        cluster: config,
        config_index: (n.log.last_index() + 1) as u64,
        ..t2.node
    }.reset_replication_state();
    let t3 = t2.with_node(n3);
    assert(configured(end, n3, x2)) by {
        assert(x2.last() == e);
        assert(x2.take(n.log.start - 1) =~= x.take(n.log.start - 1));
    }
    lemma_leader_grown(h, end, n, n3, x, x2);
    assert(sends_true(end, t3));
    assert(effects_true(end, t3));
    assert(recorded(end, n.id, stored(n3), x2));
    lemma_broadcast(end, t3, x2, 0);
    let later = lemma_advance_commit(end, t3.broadcast(0), x2);
    crate::chronicle::lemma_extends_trans(mid, end, later, n.id);
    assert(t2.out.persists.take(t.out.persists.len() as int) =~= t.out.persists);
    assert(x2.take(x.len() as int) =~= x.take(x.len() as int));
    Grown { mid, end: later, x: x2 }
}

/// What a leader knows stays true as its log grows.
proof fn lemma_leader_grown(
    h: Chronicle,
    end: Chronicle,
    a: NodeView,
    b: NodeView,
    x: Seq<EntryView>,
    x2: Seq<EntryView>,
)
    requires
        h.true_to_raft(),
        h.extends(end),
        informed(h, a, x),
        a.role == Role::Leader,
        same_core(
            a,
            NodeView {
                log: a.log,
                cluster: a.cluster,
                config_index: a.config_index,
                match_index: a.match_index,
                ..b
            },
        ),
        forall|v: u32| #[trigger]
            b.match_index.contains_key(v) ==> b.match_index[v] == 0 || (a.match_index.contains_key(
                v,
            ) && b.match_index[v] == a.match_index[v]),
        b.log.last_included == a.log.last_included,
        configured(end, b, x2),
        holds(x2, x, x.len() as int),
        end.led(a.current_term) == x2,
        end.acked(a.id, a.current_term) >= x2.len(),
        end.snaps == h.snaps,
        end.told == h.told,
        end.rounds == h.rounds,
        end.past == h.past,
    ensures
        informed(end, b, x2),
{
    let term = a.current_term;
    let c = a.commit_index as int;
    crate::chronicle::lemma_settled_stays(h, end, term, term, x, c);
    if c > 0 {
        let (tc, k) = choose|tc: u64, k: int| #[trigger]
            end.committed(tc, k) && tc <= term && c <= k && holds(x, end.led(tc), c);
        crate::chronicle::lemma_holds_less(x2, x, x.len() as int, c);
    }
    lemma_settled_longer(end, term, x, x2, c);
    lemma_known_stays(h, end, term, term, a.commit_index, a.commit_index);
    lemma_reads_wait_stay(h, end, a, b);
    assert(end.reigns.contains_key(term));
    assert forall|v: u32| #[trigger]
        b.match_index.contains_key(v) implies b.match_index[v] <= end.acked(v, term)
        || b.match_index[v] <= b.commit_index by {
        assert(h.acked(v, term) <= end.acked(v, term));
    }
}

/// A candidate with a quorum of votes becomes the leader of its term: nobody
/// else is.
pub proof fn lemma_become_leader(h: Chronicle, t: Turn, x: Seq<EntryView>) -> (g: Grown)
    requires
        h.true_to_raft(),
        fine(h, t, x),
        t.node.role == Role::Candidate,
        t.node.cluster.is_quorum(t.node.votes_granted),
        x.len() + 1 < u64::MAX,
    ensures
        goes_on(h, g.mid, g.end, t.node.id),
        fine(g.end, t.become_leader(), g.x),
        recorded(g.mid, t.node.id, stored(t.node), x),
        recorded(g.mid, t.node.id, stored(t.become_leader().node), g.x),
        g.x.len() == x.len() + 1,
        t.become_leader().node.role == Role::Leader,
{
    reveal(Turn::become_leader);
    let n = t.node;
    let i = n.id;
    let term = n.current_term;
    lemma_whole(n.log, x);
    if h.reigns.contains_key(term) {
        crate::chronicle::lemma_one_winner(h, term, i, n.votes_granted);
        assert(false);
    }
    let next = (n.log.last_index() + 1) as u64;
    let e = EntryView { term, index: next, payload: PayloadView::Noop, client: None };
    let x2 = x.push(e);
    let r = Reign { owner: i, electors: n.votes_granted, won: x, led: x2 };
    assert(plain(x2));
    assert(terms_below(x, term)) by {
        reveal(Chronicle::true_to_raft);
        assert(h.run_true(i, term));
    }
    assert(x2.take(x.len() as int) =~= x);
    let mid = h.with_reign(term, r);
    crate::chronicle::lemma_with_reign(h, term, r, e);
    assert(forall|v: u32, u: u64| #[trigger] mid.acked(v, u) == h.acked(v, u));
    let elected = NodeView {
        role: Role::Leader,
        leader_id: Some(i),
        votes_granted: Set::empty(),
        next_index: Map::new(|id: u32| n.peers().contains(id), |id: u32| next),
        match_index: Map::new(|id: u32| n.peers().contains(id), |id: u32| 0u64),
        ..n
    };
    let t1 = t.with_node(elected);
    let t2 = t1.append_own(PayloadView::Noop, None);
    lemma_led_grows(h, mid, elected, stored(t2.node), x, e);
    lemma_acknowledge(mid, i, stored(t2.node), x2, x2.len());
    let acked = mid.with_ack(i, term, x2.len());
    crate::chronicle::lemma_extends_trans(h, mid, acked, i);
    if acked.told.contains_key(term) {
        crate::chronicle::lemma_told(h, term);
    }
    if exists|r: u64| #[trigger] acked.rounds.contains_key((term, r)) {
        let r = choose|r: u64| #[trigger] acked.rounds.contains_key((term, r));
        crate::chronicle::lemma_round(h, term, r);
    }
    let end = acked.with_told(term, n.commit_index);
    lemma_first_told(h, acked, t, x, x2, term);
    crate::chronicle::lemma_with_told(acked, term, n.commit_index);
    lemma_recorded_told(acked, end, i, stored(t2.node), x2);
    crate::chronicle::lemma_extends_trans(mid, acked, end, i);
    crate::chronicle::lemma_extends_trans(h, mid, end, i);
    lemma_outs_stay(h, end, t);
    assert(forall|v: u32, u: u64| #[trigger] end.acked(v, u) == acked.acked(v, u));
    assert(informed(end, t2.node, x2)) by {
        let c = n.commit_index as int;
        crate::chronicle::lemma_settled_stays(h, end, term, term, x, c);
        lemma_known_stays(h, end, term, term, n.commit_index, n.commit_index);
        assert(holds(x2, x, x.len() as int)) by {
            assert(x2.take(x.len() as int) =~= x.take(x.len() as int));
        }
        if c > 0 {
            let (tc, k) = choose|tc: u64, k: int| #[trigger]
                end.committed(tc, k) && tc <= term && c <= k && holds(x, end.led(tc), c);
            crate::chronicle::lemma_holds_less(x2, x, x.len() as int, c);
        }
        lemma_settled_longer(end, term, x, x2, c);
        lemma_configured_push(h, n, t2.node, x, e);
    }
    assert(fine(end, t2, x2));
    let n3 = NodeView {
        heartbeat_deadline: (n.now + n.cfg.heartbeat_interval) as u64,
        last_heard_from_leader: n.now,
        ..t2.node
    };
    lemma_same_core(end, t2, n3, x2);
    let t3 = t2.with_node(n3);
    lemma_broadcast(end, t3, x2, 0);
    let later = lemma_advance_commit(end, t3.broadcast(0), x2);
    crate::chronicle::lemma_extends_trans(mid, end, later, i);
    Grown { mid, end: later, x: x2 }
}

/// What a new leader knows to be committed is committed of its log.
proof fn lemma_first_told(
    h: Chronicle,
    acked: Chronicle,
    t: Turn,
    x: Seq<EntryView>,
    x2: Seq<EntryView>,
    term: u64,
)
    requires
        h.true_to_raft(),
        h.extends(acked),
        h.settled(term, x, t.node.commit_index as int),
        acked.led(term) == x2,
        x2.len() == x.len() + 1,
        x2.take(x.len() as int) == x,
    ensures
        acked.settled(term, acked.led(term), t.node.commit_index as int),
{
    let c = t.node.commit_index as int;
    crate::chronicle::lemma_settled_stays(h, acked, term, term, x, c);
    if c > 0 {
        let (tc, k) = choose|tc: u64, k: int| #[trigger]
            acked.committed(tc, k) && tc <= term && c <= k && holds(x, acked.led(tc), c);
        assert(holds(x2, x, x.len() as int)) by {
            assert(x.take(x.len() as int) =~= x);
        }
        crate::chronicle::lemma_holds_less(x2, x, x.len() as int, c);
    }
    lemma_settled_longer(acked, term, x, x2, c);
}

// ---------------------------------------------------------------------------
// What a step leaves behind
// ---------------------------------------------------------------------------

/// The chronicle of a step: what is true once its writes are made, what is true
/// at its end, and the log halfway through the writes and after them.
pub struct Outcome {
    pub mid: Chronicle,
    pub end: Chronicle,
    pub half: Seq<EntryView>,
    pub x: Seq<EntryView>,
}

/// This disk with the node's term and vote.
pub open spec fn with_term(d: DiskView, n: NodeView) -> DiskView {
    DiskView { current_term: n.current_term, voted_for: n.voted_for, ..d }
}

/// The turn is fine, and so is the disk wherever in its writes the process may
/// die.
pub open spec fn reached(
    h: Chronicle,
    base: DiskView,
    before: Seq<EntryView>,
    t: Turn,
    o: Outcome,
) -> bool {
    let id = t.node.id;
    let p = t.out.persists;
    &&& goes_on(h, o.mid, o.end, id)
    &&& fine(o.end, t, o.x)
    &&& p.len() <= 2
    &&& recorded(o.mid, id, with_term(base, t.node), before)
    &&& p.len() == 2 ==> recorded(
        o.mid,
        id,
        with_term(crate::disk_laws::kept(base, p, 1), t.node),
        o.half,
    )
    &&& p.len() > 0 ==> recorded(o.mid, id, stored(t.node), o.x)
    &&& cuts_differ(before, p, o.x)
}

/// Entries are discarded only where the log is another one from there on.
pub open spec fn cuts_differ(
    before: Seq<EntryView>,
    p: Seq<OutputView>,
    x: Seq<EntryView>,
) -> bool {
    forall|k: int|
        0 <= k < p.len() ==> (#[trigger] p[k] matches OutputView::Persist(
            PersistView::TruncateFrom(i),
        ) ==> 0 < i <= before.len() && i <= x.len() && before[i - 1] != x[i - 1])
}

/// A turn that has asked for nothing yet, on a disk that is in step with it.
pub open spec fn begun(base: DiskView, t: Turn) -> bool {
    &&& t.out.persists.len() == 0
    &&& crate::disk_laws::in_step(t.node, base)
}

proof fn lemma_quiet(
    h: Chronicle,
    later: Chronicle,
    base: DiskView,
    t: Turn,
    x: Seq<EntryView>,
) -> (o: Outcome)
    requires
        later.true_to_raft(),
        h.extends(later),
        h.made_by(later, t.node.id),
        fine(later, t, x),
        begun(base, t),
    ensures
        reached(h, base, x, t, o),
        o.end == later,
        o.x == x,
{
    crate::chronicle::lemma_extends_refl(later, t.node.id);
    assert(recorded(later, t.node.id, with_term(base, t.node), x));
    Outcome { mid: later, end: later, half: x, x }
}

proof fn lemma_request_votes(h: Chronicle, t: Turn, x: Seq<EntryView>, voters: Seq<u32>, n: int)
    requires
        fine(h, t, x),
        t.node.role == Role::Candidate,
    ensures
        fine(h, t.request_votes(voters, n), x),
        t.request_votes(voters, n).node == t.node,
        t.request_votes(voters, n).out.persists == t.out.persists,
    decreases n,
{
    if n > 0 {
        lemma_request_votes(h, t, x, voters, n - 1);
        lemma_whole(t.node.log, x);
        let before = t.request_votes(voters, n - 1);
        if voters[n - 1] != t.node.id {
            lemma_send(
                h,
                before,
                x,
                voters[n - 1],
                MessageView::RequestVote(
                    RequestVoteReq {
                        term: t.node.current_term,
                        candidate_id: t.node.id,
                        last_log_index: t.node.log.last_log_id().index,
                        last_log_term: t.node.log.last_log_id().term,
                    },
                ),
            );
        }
    }
}

proof fn lemma_on_tick(h: Chronicle, base: DiskView, t: Turn, x: Seq<EntryView>) -> (o: Outcome)
    requires
        h.true_to_raft(),
        fine(h, t, x),
        begun(base, t),
        t.node.current_term < u64::MAX,
        x.len() + 1 < u64::MAX,
    ensures
        reached(h, base, x, t.on_tick(), o),
{
    reveal(Turn::on_tick);
    reveal(Turn::start_election);
    crate::chronicle::lemma_extends_refl(h, t.node.id);
    let n = t.node;
    if n.role == Role::Leader {
        if n.now >= n.heartbeat_deadline {
            let n1 = NodeView {
                heartbeat_deadline: (n.now + n.cfg.heartbeat_interval) as u64,
                last_heard_from_leader: n.now,
                ..n
            };
            lemma_same_core(h, t, n1, x);
            lemma_broadcast(h, t.with_node(n1), x, 0);
            lemma_quiet(h, h, base, t.on_tick(), x)
        } else {
            lemma_quiet(h, h, base, t, x)
        }
    } else if n.now >= n.election_deadline {
        if !n.cluster.contains(n.id) {
            lemma_same_core(h, t, n.reset_election_deadline(), x);
            lemma_quiet(h, h, base, t.on_tick(), x)
        } else {
            let c = NodeView {
                current_term: (n.current_term + 1) as u64,
                role: Role::Candidate,
                voted_for: Some(n.id),
                leader_id: None,
                votes_granted: Set::empty().insert(n.id),
                hard_state_dirty: true,
                ..n
            }.reset_election_deadline();
            let later = lemma_stand(h, t, x, c);
            let t1 = t.with_node(c);
            let voters = crate::order::in_order(n.cluster.voters());
            lemma_request_votes(later, t1, x, voters, voters.len() as int);
            let t2 = t1.request_votes(voters, voters.len() as int);
            if t2.node.cluster.is_quorum(t2.node.votes_granted) {
                let g = lemma_become_leader(later, t2, x);
                lemma_won(h, later, base, t2, x, g)
            } else {
                lemma_quiet(h, later, base, t2, x)
            }
        }
    } else {
        lemma_quiet(h, h, base, t, x)
    }
}

/// A candidate that became the leader has made one write.
proof fn lemma_won(
    h: Chronicle,
    later: Chronicle,
    base: DiskView,
    t: Turn,
    x: Seq<EntryView>,
    g: Grown,
) -> (o: Outcome)
    requires
        grows(h, later, t.node.id),
        begun(base, t),
        goes_on(later, g.mid, g.end, t.node.id),
        fine(g.end, t.become_leader(), g.x),
        recorded(g.mid, t.node.id, stored(t.node), x),
        recorded(g.mid, t.node.id, stored(t.become_leader().node), g.x),
    ensures
        reached(h, base, x, t.become_leader(), o),
        o.x == g.x,
{
    reveal(Turn::become_leader);
    let n = t.node;
    let next = (n.log.last_index() + 1) as u64;
    let elected = NodeView {
        role: Role::Leader,
        leader_id: Some(n.id),
        votes_granted: Set::empty(),
        next_index: Map::new(|id: u32| n.peers().contains(id), |id: u32| next),
        match_index: Map::new(|id: u32| n.peers().contains(id), |id: u32| 0u64),
        ..n
    };
    let ready = t.with_node(elected).append_own(PayloadView::Noop, None);
    let t3 = ready.with_node(
        NodeView {
            heartbeat_deadline: (n.now + n.cfg.heartbeat_interval) as u64,
            last_heard_from_leader: n.now,
            ..ready.node
        },
    );
    crate::node_laws::lemma_broadcast(t3, 0);
    crate::chronicle::lemma_extends_trans(h, later, g.mid, n.id);
    assert(t.become_leader().out.persists.len() == 1);
    assert(t.become_leader().out.persists[0] == ready.out.persists[0]);
    Outcome { mid: g.mid, end: g.end, half: x, x: g.x }
}

// ---------------------------------------------------------------------------
// Taking a leader's entries
// ---------------------------------------------------------------------------

proof fn lemma_first_difference(log: LogView, entries: Seq<EntryView>, i: int)
    requires
        0 <= i <= entries.len(),
    ensures
        i <= log.first_difference(entries, i) <= entries.len(),
        forall|j: int|
            i <= j < log.first_difference(entries, i) ==> log.term_at((#[trigger] entries[j]).index)
                == Some(entries[j].term),
        log.first_difference(entries, i) < entries.len() ==> log.term_at(
            entries[log.first_difference(entries, i)].index,
        ) != Some(entries[log.first_difference(entries, i)].term),
    decreases entries.len() - i,
{
    if i < entries.len() && log.term_at(entries[i].index) == Some(entries[i].term) {
        lemma_first_difference(log, entries, i + 1);
    }
}

/// The last change of the membership that is left in the log, or the one below.
proof fn lemma_latest(log: LogView, x: Seq<EntryView>, upto: u64)
    requires
        whole(log, x),
        plain(x),
        log.start - 1 <= upto <= x.len(),
    ensures
        match log.latest_config(upto) {
            Some(i) => {
                &&& log.start <= i <= upto
                &&& i == last_config(x.take(upto as int))
                &&& log.at(i) == x[i - 1]
            },
            None => last_config(x.take(upto as int)) <= log.start - 1,
        },
    decreases upto,
{
    let s = x.take(upto as int);
    crate::chronicle::lemma_last_config(s);
    if !(upto < log.start || upto == 0) {
        lemma_whole(log, x);
        assert(log.at(upto) == x[upto - 1]);
        assert(s.last() == x[upto - 1]);
        assert(s.drop_last() =~= x.take(upto - 1));
        lemma_latest(log, x, (upto - 1) as u64);
    }
}

/// The membership in force at an index.
proof fn lemma_config_at(h: Chronicle, n: NodeView, x: Seq<EntryView>, index: u64)
    requires
        whole(n.log, x),
        plain(x),
        n.base_config == h.config_of(x.take(n.log.start - 1)),
        n.log.start - 1 <= index <= x.len(),
    ensures
        n.config_at(index) == h.config_of(x.take(index as int)),
{
    lemma_whole(n.log, x);
    lemma_latest(n.log, x, index);
    let s = x.take(index as int);
    if n.log.latest_config(index) is None {
        crate::chronicle::lemma_config_kept(h, s, n.log.start - 1);
        assert(s.take(n.log.start - 1) =~= x.take(n.log.start - 1));
    }
}

/// Looking through the log gives the membership in force.
pub proof fn lemma_refreshed(h: Chronicle, n: NodeView, x: Seq<EntryView>)
    requires
        whole(n.log, x),
        plain(x),
        n.base_config == h.config_of(x.take(n.log.start - 1)),
    ensures
        configured(h, n.refresh_config(), x),
{
    lemma_whole(n.log, x);
    let upto = n.log.last_index();
    assert(x.take(upto as int) =~= x);
    lemma_latest(n.log, x, upto);
    if n.log.latest_config(upto) is None {
        crate::chronicle::lemma_config_kept(h, x, n.log.start - 1);
    }
}

/// So does looking through what is appended.
proof fn lemma_adopted(h: Chronicle, n: NodeView, cut: Seq<EntryView>, rest: Seq<EntryView>)
    requires
        n.cluster == h.config_of(cut),
        last_config(cut) <= n.config_index,
        forall|j: int|
            0 <= j < rest.len() ==> (#[trigger] rest[j]).index == cut.len() + j + 1,
    ensures
        n.adopt_configs(rest) == (NodeView {
            cluster: n.adopt_configs(rest).cluster,
            config_index: n.adopt_configs(rest).config_index,
            ..n
        }),
        n.adopt_configs(rest).cluster == h.config_of(cut + rest),
        last_config(cut + rest) <= n.adopt_configs(rest).config_index,
    decreases rest.len(),
{
    let all = cut + rest;
    if rest.len() == 0 {
        assert(all =~= cut);
    } else {
        assert(all.last() == rest.last());
        assert(rest[rest.len() - 1].index == all.len());
        assert(all.drop_last() =~= cut + rest.drop_last());
        if !(rest.last().payload is Config) {
            lemma_adopted(h, n, cut, rest.drop_last());
            crate::chronicle::lemma_last_config(all.drop_last());
        }
    }
}

/// The first entries of a log that came from leaders did.
proof fn lemma_rooted_take(h: Chronicle, s: Seq<EntryView>, n: int)
    requires
        h.rooted(s),
        0 <= n <= s.len(),
    ensures
        h.rooted(s.take(n)),
{
    let r = s.take(n);
    assert forall|j: int| 0 <= j < r.len() implies #[trigger] h.from_leader(r, j) by {
        assert(h.from_leader(s, j));
        assert(r.take(j + 1) =~= s.take(j + 1));
    }
}

/// No entry of a leader's log is of a later term.
proof fn lemma_led_terms(h: Chronicle, term: u64, j: int)
    requires
        h.true_to_raft(),
        h.reigns.contains_key(term),
        0 <= j < h.led(term).len(),
    ensures
        h.led(term)[j].term <= term,
{
    crate::chronicle::lemma_reign(h, term);
    let r = h.reigns[term];
    if j < r.won.len() {
        assert(r.led.take(r.won.len() as int)[j] == r.led[j]);
        assert(r.won[j].term < term);
    }
}

/// A disk whose log is replaced by another that is as good.
proof fn lemma_relogged(
    h: Chronicle,
    i: u32,
    d: DiskView,
    x: Seq<EntryView>,
    e: DiskView,
    y: Seq<EntryView>,
)
    requires
        recorded(h, i, d, x),
        e.current_term == d.current_term,
        e.voted_for == d.voted_for,
        e.snapshot == d.snapshot,
        whole(e.log, y),
        plain(y),
        h.rooted(y),
        forall|j: int| 0 <= j < y.len() ==> (#[trigger] y[j]).term <= d.current_term,
        h.carries(i, y, d.current_term as int),
        e.log.last_included.index > 0 ==> (e.snapshot matches Some(s)
            && e.log.last_included.index <= s.last_included.index),
    ensures
        recorded(h, i, e, y),
{
}

/// The two differ at most in the log and the membership.
spec fn same_rest(a: NodeView, b: NodeView) -> bool {
    same_core(
        a,
        NodeView { log: a.log, cluster: a.cluster, config_index: a.config_index, ..b },
    )
}

/// What a follower that agrees with the leader before them makes of entries:
/// its log, and what of it is the leader's.
proof fn lemma_agreement(h: Chronicle, log: LogView, x: Seq<EntryView>, req: AppendView) -> (k: int)
    requires
        h.true_to_raft(),
        whole(log, x),
        plain(x),
        h.rooted(x),
        h.reigns.contains_key(req.term),
        req.prev_log_index + req.entries.len() <= h.led(req.term).len(),
        req.entries == h.led(req.term).subrange(
            req.prev_log_index as int,
            req.prev_log_index + req.entries.len(),
        ),
        req.prev_log_index > 0 ==> req.prev_log_term == h.led(req.term)[req.prev_log_index
            - 1].term,
        log.term_at(req.prev_log_index) == Some(req.prev_log_term),
    ensures
        k == log.first_difference(req.entries, 0),
        0 <= k <= req.entries.len(),
        log.start - 1 <= req.prev_log_index,
        holds(x, h.led(req.term), req.prev_log_index + k),
        k < req.entries.len() ==> {
            let pos = req.prev_log_index + k;
            &&& req.entries[k] == h.led(req.term)[pos]
            &&& req.entries[k].index == pos + 1
            &&& log.term_at(req.entries[k].index) is Some == (pos < x.len())
            &&& pos < x.len() ==> x[pos].term != h.led(req.term)[pos].term
        },
{
    let led = h.led(req.term);
    let prev = req.prev_log_index as int;
    crate::chronicle::lemma_reign(h, req.term);
    lemma_whole(log, x);
    lemma_first_difference(log, req.entries, 0);
    let k = log.first_difference(req.entries, 0);
    assert forall|j: int| 0 <= j < req.entries.len() implies #[trigger] req.entries[j] == led[prev
        + j] && req.entries[j].index == prev + j + 1 by {}
    // Everything up to the first difference is the leader's.
    if prev + k > 0 {
        let top = prev + k - 1;
        if k > 0 {
            assert(log.term_at(req.entries[k - 1].index) == Some(req.entries[k - 1].term));
            assert(x[top].term == led[top].term);
        } else {
            assert(x[top].term == led[top].term);
        }
        crate::chronicle::lemma_same_up_to(h, x, led, top);
    } else {
        assert(x.take(0) =~= led.take(0));
    }
    if k < req.entries.len() {
        let pos = prev + k;
        let index = req.entries[k].index;
        if pos < x.len() {
            assert(log.at(index) == x[index - 1]);
        }
    }
    k
}

/// A node without its log from `index` on.
spec fn cut_node(n: NodeView, index: u64) -> NodeView {
    let shorter = NodeView { log: n.log.truncate_from(index), ..n };
    if n.config_index >= index {
        shorter.refresh_config()
    } else {
        shorter
    }
}

/// Nothing is lost with what the leader of its term has otherwise.
proof fn lemma_cut_node(h: Chronicle, n: NodeView, x: Seq<EntryView>, term: u64, index: u64)
    requires
        h.true_to_raft(),
        recorded(h, n.id, stored(n), x),
        configured(h, n, x),
        n.current_term == term,
        h.reigns.contains_key(term),
        n.log.start <= index <= x.len(),
        index <= h.led(term).len(),
        holds(x, h.led(term), index - 1),
        x[index - 1] != h.led(term)[index - 1],
    ensures
        recorded(h, n.id, stored(cut_node(n, index)), x.take(index - 1)),
        configured(h, cut_node(n, index), x.take(index - 1)),
        same_rest(n, cut_node(n, index)),
        cut_node(n, index).log == n.log.truncate_from(index),
{
    let pos = index - 1;
    let cut = x.take(pos);
    let shorter = NodeView { log: n.log.truncate_from(index), ..n };
    let n1 = cut_node(n, index);
    lemma_whole(n.log, x);
    lemma_whole_truncate(n.log, x, index);
    assert(holds(cut, x, pos)) by {
        assert(cut.take(pos) =~= x.take(pos));
    }
    crate::chronicle::lemma_cut_carries(h, n.id, x, term, pos, cut);
    lemma_rooted_take(h, x, pos);
    assert(plain(cut));
    assert(cut.take(n.log.start - 1) =~= x.take(n.log.start - 1));
    if n.config_index >= index {
        lemma_refreshed(h, shorter, cut);
    } else {
        crate::chronicle::lemma_config_kept(h, x, pos);
    }
    lemma_relogged(h, n.id, stored(n), x, stored(n1), cut);
}

/// What a follower's log becomes: what it had up to where it differs, and the
/// leader's entries from there.
proof fn lemma_take_entries(
    h: Chronicle,
    base: DiskView,
    t: Turn,
    x: Seq<EntryView>,
    req: AppendView,
    k: int,
) -> (half: Seq<EntryView>)
    requires
        h.true_to_raft(),
        recorded(h, t.node.id, stored(t.node), x),
        configured(h, t.node, x),
        begun(base, t),
        t.node.current_term == req.term,
        h.reigns.contains_key(req.term),
        req.prev_log_index + req.entries.len() <= h.led(req.term).len(),
        req.entries == h.led(req.term).subrange(
            req.prev_log_index as int,
            req.prev_log_index + req.entries.len(),
        ),
        t.node.log.start - 1 <= req.prev_log_index,
        0 <= k < req.entries.len(),
        holds(x, h.led(req.term), req.prev_log_index + k),
        req.entries[k].index == req.prev_log_index + k + 1,
        t.node.log.term_at(req.entries[k].index) is Some == (req.prev_log_index + k < x.len()),
        req.prev_log_index + k < x.len() ==> x[req.prev_log_index + k].term != h.led(
            req.term,
        )[req.prev_log_index + k].term,
    ensures
        ({
            let t2 = t.take_entries(req.entries, k);
            let n = req.prev_log_index + req.entries.len();
            let y = h.led(req.term).take(n);
            &&& recorded(h, t.node.id, stored(t2.node), y)
            &&& same_rest(t.node, t2.node)
            &&& configured(h, t2.node, y)
            &&& t2.node.log.last_included == t.node.log.last_included
            &&& t2.node.log.last_index() == n
            &&& t2.out.sends == t.out.sends
            &&& t2.out.effects == t.out.effects
            &&& t2.out.persists.len() <= 2
            &&& t2.out.persists.len() > 0
            &&& cuts_differ(x, t2.out.persists, y)
            &&& t2.out.persists.len() == 2 ==> recorded(
                h,
                t.node.id,
                with_term(crate::disk_laws::kept(base, t2.out.persists, 1), t2.node),
                half,
            )
        }),
{
    let n = t.node;
    let term = req.term;
    let led = h.led(term);
    let prev = req.prev_log_index as int;
    let pos = prev + k;
    let entry = req.entries[k];
    let rest = req.entries.skip(k);
    let total = prev + req.entries.len();
    let y = led.take(total);
    let cut = x.take(pos);
    crate::chronicle::lemma_reign(h, term);
    lemma_whole(n.log, x);
    // The leader's entries are as good as what they replace.
    lemma_rooted_take(h, led, total);
    assert forall|j: int| 0 <= j < y.len() implies (#[trigger] y[j]).term <= term by {
        lemma_led_terms(h, term, j);
    }
    assert(plain(y));
    assert forall|j: int| 0 <= j < rest.len() implies #[trigger] rest[j] == led[pos + j] by {
        assert(rest[j] == req.entries[k + j]);
    }
    crate::chronicle::lemma_holds_less(x, led, pos, pos);
    assert(cut + rest =~= y) by {
        assert forall|j: int| 0 <= j < total implies (cut + rest)[j] == y[j] by {
            if j < pos {
                assert(x[j] == led[j]);
            } else {
                assert((cut + rest)[j] == rest[j - pos]);
            }
        }
    }
    assert(holds(y, cut, cut.len() as int)) by {
        assert(y.take(pos) =~= cut.take(pos));
    }
    let t1 = if n.log.term_at(entry.index) is Some {
        lemma_cut_node(h, n, x, term, entry.index);
        t.with_node(cut_node(n, entry.index)).persist(PersistView::TruncateFrom(entry.index))
    } else {
        assert(cut =~= x);
        t
    };
    assert(recorded(h, n.id, stored(t1.node), cut));
    assert(same_rest(n, t1.node));
    assert(configured(h, t1.node, cut));
    let log1 = t1.node.log;
    lemma_whole(log1, cut);
    assert(log1.appendable(rest)) by {
        assert forall|j: int| 0 <= j < rest.len() implies (#[trigger] rest[j]).index == log1.start
            + log1.entries.len() + j by {}
        assert forall|j: int| 0 <= j < rest.len() implies (#[trigger] rest[j]).index
            < u64::MAX by {}
    }
    lemma_whole_append(log1, cut, rest);
    lemma_carries_longer(h, n.id, cut, y, term as int);
    let longer = NodeView { log: log1.append(rest), ..t1.node };
    lemma_adopted(h, longer, cut, rest);
    let t2 = t.take_entries(req.entries, k);
    assert(t2.node == longer.adopt_configs(rest));
    assert(y.take(n.log.start - 1) =~= cut.take(n.log.start - 1));
    assert(configured(h, t2.node, y));
    lemma_relogged(h, n.id, stored(t1.node), cut, stored(longer), y);
    assert(t2.out.persists.last() == OutputView::Persist(PersistView::Append(rest)));
    assert(cuts_differ(x, t2.out.persists, y)) by {
        assert(y[pos] == led[pos]);
    }
    if n.log.term_at(entry.index) is Some {
        let p = t2.out.persists;
        assert(p[0] == OutputView::Persist(PersistView::TruncateFrom(entry.index)));
        reveal_with_fuel(crate::disk_laws::kept, 2);
        let d = with_term(crate::disk_laws::kept(base, p, 1), t2.node);
        assert(d.log == t1.node.log);
        assert(recorded(h, n.id, d, cut));
    }
    cut
}

/// The log after taking the entries from position `k` on.
spec fn log_after(led: Seq<EntryView>, x: Seq<EntryView>, req: AppendView, k: int) -> Seq<
    EntryView,
> {
    if k < req.entries.len() {
        led.take(req.prev_log_index + req.entries.len())
    } else {
        x
    }
}

spec fn taken_after(t: Turn, req: AppendView, k: int) -> Turn {
    if k < req.entries.len() {
        t.take_entries(req.entries, k)
    } else {
        t
    }
}

/// How far the two agree then.
spec fn agreed_after(t: Turn, req: AppendView, k: int) -> u64 {
    if k < req.entries.len() {
        taken_after(t, req, k).node.log.last_index()
    } else if req.entries.len() > 0 {
        req.entries.last().index
    } else {
        req.prev_log_index
    }
}

/// What follows from taking the entries: the log, what of it is the leader's,
/// and how far that goes.
proof fn lemma_taken(
    h: Chronicle,
    base: DiskView,
    t: Turn,
    x: Seq<EntryView>,
    from: u32,
    req: AppendView,
    k: int,
) -> (half: Seq<EntryView>)
    requires
        h.true_to_raft(),
        sane(h, t.node, x),
        begun(base, t),
        t.node.role == Role::Follower,
        t.node.current_term == req.term,
        honest(h, from, t.node.id, MessageView::AppendEntries(req)),
        t.node.log.term_at(req.prev_log_index) == Some(req.prev_log_term),
        k == t.node.log.first_difference(req.entries, 0),
    ensures
        ({
            let taken = taken_after(t, req, k);
            let led = h.led(req.term);
            let y = log_after(led, x, req, k);
            let p = taken.out.persists;
            &&& recorded(h, t.node.id, stored(taken.node), y)
            &&& same_rest(t.node, taken.node)
            &&& configured(h, taken.node, y)
            &&& taken.node.log.last_included == t.node.log.last_included
            &&& agreed_after(t, req, k) == req.prev_log_index + req.entries.len()
            &&& holds(y, led, agreed_after(t, req, k) as int)
            &&& taken.out.sends == t.out.sends
            &&& taken.out.effects == t.out.effects
            &&& p.len() <= 2
            &&& cuts_differ(x, p, y)
            &&& p.len() == 2 ==> recorded(
                h,
                t.node.id,
                with_term(crate::disk_laws::kept(base, p, 1), taken.node),
                half,
            )
            &&& h.settled(req.term, y, t.node.commit_index as int)
            &&& h.settled(
                req.term,
                y,
                taken.node.learned_commit(req.leader_commit, agreed_after(t, req, k)) as int,
            )
        }),
{
    let led = h.led(req.term);
    let prev = req.prev_log_index as int;
    let total = prev + req.entries.len();
    let at = lemma_agreement(h, t.node.log, x, req);
    crate::chronicle::lemma_reign(h, req.term);
    let half = if k < req.entries.len() {
        lemma_take_entries(h, base, t, x, req, k)
    } else {
        x
    };
    let y = log_after(led, x, req, k);
    if k < req.entries.len() {
        assert(y.take(total) =~= led.take(total));
    } else if req.entries.len() > 0 {
        assert(req.entries.last() == led[total - 1]);
    }
    lemma_learned(
        h,
        t.node.id,
        req.term,
        x,
        y,
        t.node.commit_index,
        req.leader_commit,
        agreed_after(t, req, k),
        k,
        prev,
    );
    half
}

/// A node confirms a round of its term's leader.
proof fn lemma_confirm(h: Chronicle, i: u32, d: DiskView, x: Seq<EntryView>, r: u64) -> (later:
    Chronicle)
    requires
        h.true_to_raft(),
        recorded(h, i, d, x),
        r > 0 ==> h.rounds.contains_key((d.current_term, r)),
    ensures
        grows(h, later, i),
        recorded(later, i, d, x),
        r > 0 ==> later.confirms.contains((i, d.current_term, r)),
        later == (Chronicle { confirms: later.confirms, ..h }),
{
    if r > 0 {
        let later = h.with_confirm(i, d.current_term, r);
        crate::chronicle::lemma_with_confirm(h, i, d.current_term, r);
        lemma_recorded_told(h, later, i, d, x);
        later
    } else {
        crate::chronicle::lemma_extends_refl(h, i);
        h
    }
}

/// A follower that agrees with its leader takes the entries and says so.
proof fn lemma_accept(
    h: Chronicle,
    base: DiskView,
    t: Turn,
    x: Seq<EntryView>,
    from: u32,
    req: AppendView,
    k: int,
    msg: MessageView,
    after: Turn,
) -> (o: Outcome)
    requires
        h.true_to_raft(),
        fine(h, t, x),
        begun(base, t),
        t.node.role == Role::Follower,
        t.node.current_term == req.term,
        honest(h, from, t.node.id, MessageView::AppendEntries(req)),
        t.node.log.term_at(req.prev_log_index) == Some(req.prev_log_term),
        k == t.node.log.first_difference(req.entries, 0),
        msg matches MessageView::AppendEntriesResp(resp) && resp.term == taken_after(
            t,
            req,
            k,
        ).node.current_term && resp.match_index == agreed_after(t, req, k) && resp.read_round
            == req.read_round,
        after == taken_after(t, req, k).with_node(
            NodeView {
                commit_index: taken_after(t, req, k).node.learned_commit(
                    req.leader_commit,
                    agreed_after(t, req, k),
                ),
                ..taken_after(t, req, k).node
            },
        ).send(from, msg),
    ensures
        reached(h, base, x, after, o),
{
    let n = t.node;
    let term = req.term;
    let y = log_after(h.led(term), x, req, k);
    let taken = taken_after(t, req, k);
    let agreed = agreed_after(t, req, k);
    let half = lemma_taken(h, base, t, x, from, req, k);
    let commit = taken.node.learned_commit(req.leader_commit, agreed);
    let n3 = NodeView { commit_index: commit, ..taken.node };
    let learned = taken.with_node(n3);
    // It acknowledges what it now holds.
    lemma_acknowledge(h, n.id, stored(taken.node), y, agreed as nat);
    let acked = h.with_ack(n.id, term, agreed as nat);
    // And with it that its leader still is.
    let end = lemma_confirm(acked, n.id, stored(taken.node), y, req.read_round);
    crate::chronicle::lemma_extends_trans(h, acked, end, n.id);
    crate::chronicle::lemma_settled_stays(h, end, term, term, y, commit as int);
    lemma_outs_stay(h, end, t);
    lemma_known_stays(h, end, term, term, n.commit_index, n.commit_index);
    lemma_known_stays(h, end, term, term, req.leader_commit, req.leader_commit);
    lemma_known_stays(
        end,
        end,
        term,
        term,
        if req.leader_commit > n.commit_index {
            req.leader_commit
        } else {
            n.commit_index
        },
        commit,
    );
    assert(informed(end, n3, y));
    assert(sends_true(end, learned));
    assert(effects_true(end, learned));
    lemma_send(end, learned, y, from, msg);
    crate::chronicle::lemma_extends_refl(h, n.id);
    assert(recorded(h, n.id, with_term(base, after.node), x));
    Outcome { mid: h, end, half, x: y }
}

/// A leader's message reaches a follower of its term.
proof fn lemma_on_append_entries(
    h: Chronicle,
    base: DiskView,
    t: Turn,
    x: Seq<EntryView>,
    from: u32,
    req: AppendView,
) -> (o: Outcome)
    requires
        h.true_to_raft(),
        fine(h, t, x),
        begun(base, t),
        t.node.role == Role::Follower,
        t.node.current_term == req.term,
        honest(h, from, t.node.id, MessageView::AppendEntries(req)),
    ensures
        reached(h, base, x, t.on_append_entries(from, req), o),
{
    reveal(Turn::on_append_entries);
    let heard = t.hear_from(req.leader_id);
    crate::chronicle::lemma_extends_refl(h, t.node.id);
    lemma_same_core(h, t, heard.node, x);
    let after = t.on_append_entries(from, req);
    let msg = after.out.sends.last()->msg;
    if heard.node.log.term_at(req.prev_log_index) != Some(req.prev_log_term) {
        lemma_send(h, heard, x, from, msg);
        lemma_quiet(h, h, base, after, x)
    } else {
        let k = heard.node.log.first_difference(req.entries, 0);
        lemma_accept(h, base, heard, x, from, req, k, msg, after)
    }
}

/// What is committed stays so through the change, and so is what the leader
/// says is, as far as the two agree.
proof fn lemma_learned(
    h: Chronicle,
    i: u32,
    term: u64,
    x: Seq<EntryView>,
    y: Seq<EntryView>,
    commit: u64,
    leader_commit: u64,
    agreed: u64,
    k: int,
    prev: int,
)
    requires
        h.true_to_raft(),
        h.reigns.contains_key(term),
        h.settled(term, x, commit as int),
        h.settled(term, h.led(term), leader_commit as int),
        holds(y, h.led(term), agreed as int),
        0 <= k,
        0 <= prev,
        prev + k <= agreed,
        holds(x, h.led(term), prev + k),
        y == x || (prev + k <= y.len() && y == h.led(term).take(agreed as int) && (prev + k
            < x.len() ==> prev + k < h.led(term).len() && x[prev + k] != h.led(term)[prev + k])),
    ensures
        h.settled(term, y, commit as int),
        h.settled(
            term,
            y,
            if leader_commit > commit {
                crate::model::max_of(crate::model::min_of(leader_commit, agreed), commit)
            } else {
                commit
            } as int,
        ),
{
    let led = h.led(term);
    crate::chronicle::lemma_settled_in(h, term, x, commit as int, term);
    if y != x {
        crate::chronicle::lemma_holds_less(x, led, commit as int, commit as int);
        assert(commit <= prev + k) by {
            if commit > prev + k {
                assert(x[prev + k] == led[prev + k]);
            }
        }
        crate::chronicle::lemma_holds_less(y, led, agreed as int, commit as int);
        lemma_settled_longer(h, term, x, y, commit as int);
    }
    if leader_commit > commit {
        let m = crate::model::min_of(leader_commit, agreed);
        lemma_settled_less(h, term, led, leader_commit as int, m as int);
        crate::chronicle::lemma_holds_less(y, led, agreed as int, m as int);
        lemma_settled_longer(h, term, led, y, m as int);
    }
}

// ---------------------------------------------------------------------------
// Snapshots
// ---------------------------------------------------------------------------

/// The log fixed up against a snapshot whose position is that of a committed
/// entry: what it held, or what was committed.
pub proof fn lemma_fixed_up(
    h: Chronicle,
    i: u32,
    d: DiskView,
    x: Seq<EntryView>,
    through: LogId,
) -> (y: Seq<EntryView>)
    requires
        h.true_to_raft(),
        recorded(h, i, d, x),
        d.snapshot matches Some(s) && s.last_included == through,
    ensures
        recorded(h, i, DiskView { log: d.log.reconcile(through), ..d }, y),
        h.settled(d.current_term, y, through.index as int),
        y.len() >= through.index,
        y[through.index - 1].term == through.term,
        d.log.term_at(through.index) == Some(through.term) ==> y == x,
        d.log.reconcile(through).last_included.index == through.index,
        h.config_of(y.take(through.index as int)) == d.snapshot->0.config,
{
    let bound = d.current_term;
    let (term, k) = choose|term: u64, k: int| #[trigger]
        h.committed(term, k) && term <= bound && through.index <= k && h.led(term)[through.index
            - 1].term == through.term && h.config_of(h.led(term).take(through.index as int))
            == d.snapshot->0.config;
    let led = h.led(term);
    let n = through.index as int;
    crate::chronicle::lemma_reign(h, term);
    lemma_whole(d.log, x);
    if d.log.term_at(through.index) == Some(through.term) {
        crate::chronicle::lemma_same_up_to(h, x, led, n - 1);
        lemma_whole_compact(d.log, x, through);
        assert(h.committed(term, k));
        lemma_relogged(h, i, d, x, DiskView { log: d.log.compact(through), ..d }, x);
        x
    } else {
        let y = led.take(n);
        assert(!(x.len() >= n && x[n - 1].term == led[n - 1].term)) by {
            if x.len() >= n && x[n - 1].term == led[n - 1].term {
                if through.index >= d.log.start {
                    assert(d.log.at(through.index) == x[n - 1]);
                }
            }
        }
        crate::chronicle::lemma_reset_carries(h, i, x, term, k, n, bound);
        lemma_rooted_take(h, led, n);
        assert forall|j: int| 0 <= j < y.len() implies (#[trigger] y[j]).term <= bound by {
            lemma_led_terms(h, term, j);
        }
        assert(plain(y));
        lemma_whole_reset(d.log, y, through);
        assert(holds(y, led, n)) by {
            assert(y.take(n) =~= led.take(n));
        }
        assert(h.committed(term, k));
        lemma_relogged(h, i, d, x, DiskView { log: d.log.reset_to(through), ..d }, y);
        y
    }
}

/// A disk takes a snapshot of what is committed.
proof fn lemma_snapped(h: Chronicle, i: u32, d: DiskView, x: Seq<EntryView>, s: SnapshotView)
    requires
        recorded(h, i, d, x),
        s.last_included.index < u64::MAX,
        h.anchored(d.current_term, s.last_included, s.config),
        h.known(d.current_term, s.last_included.index),
        d.snapshot matches Some(old) ==> old.last_included.index <= s.last_included.index,
    ensures
        recorded(h, i, DiskView { snapshot: Some(s), ..d }, x),
{
}

/// The chronicle notes that a node has a snapshot.
pub proof fn lemma_noted(h: Chronicle, i: u32, d: DiskView, x: Seq<EntryView>, s: SnapshotView)
    requires
        h.true_to_raft(),
        recorded(h, i, d, x),
        d.snapshot == Some(s),
    ensures
        h.with_snap(i, s.last_included.index).true_to_raft(),
        h.extends(h.with_snap(i, s.last_included.index)),
        h.made_by(h.with_snap(i, s.last_included.index), i),
        recorded(h.with_snap(i, s.last_included.index), i, d, x),
{
    let later = h.with_snap(i, s.last_included.index);
    crate::chronicle::lemma_with_snap(h, i, s.last_included.index);
    crate::chronicle::lemma_rooted_stays(h, later, x);
    assert(forall|v: u32, u: u64| #[trigger] later.acked(v, u) == h.acked(v, u));
    crate::chronicle::lemma_carries_stays(
        h,
        later,
        i,
        x,
        d.current_term as int,
        d.current_term as int,
    );
    crate::chronicle::lemma_anchored_stays(
        h,
        later,
        d.current_term,
        d.current_term,
        s.last_included,
        s.config,
    );
    lemma_snapshot_stays(h, later, d.snapshot, d.current_term, d.current_term);
}

/// A leader's snapshot reaches a follower of its term.
proof fn lemma_on_install_snapshot(
    h: Chronicle,
    base: DiskView,
    t: Turn,
    x: Seq<EntryView>,
    from: u32,
    req: InstallView,
) -> (o: Outcome)
    requires
        h.true_to_raft(),
        fine(h, t, x),
        begun(base, t),
        t.node.role == Role::Follower,
        t.node.current_term == req.term,
        req.last_included_index < u64::MAX,
        honest(h, from, t.node.id, MessageView::InstallSnapshot(req)),
    ensures
        reached(h, base, x, t.on_install_snapshot(from, req), o),
{
    reveal(Turn::on_install_snapshot);
    let n = t.node;
    let i = n.id;
    let term = req.term;
    let heard = t.hear_from(req.leader_id);
    crate::chronicle::lemma_extends_refl(h, i);
    lemma_same_core(h, t, heard.node, x);
    let after = t.on_install_snapshot(from, req);
    let msg = after.out.sends.last()->msg;
    let through = LogId { index: req.last_included_index, term: req.last_included_term };
    if through.index <= heard.node.commit_index {
        // It holds all that and more.
        let c = n.commit_index as nat;
        crate::chronicle::lemma_settled_in(h, term, x, c as int, term);
        lemma_acknowledge(h, i, stored(heard.node), x, c);
        let end = h.with_ack(i, term, c);
        lemma_outs_stay(h, end, heard);
        crate::chronicle::lemma_settled_stays(h, end, term, term, x, c as int);
        lemma_known_stays(h, end, term, term, n.commit_index, n.commit_index);
        assert(informed(end, heard.node, x));
        lemma_send(end, heard, x, from, msg);
        lemma_quiet(h, end, base, after, x)
    } else {
        let snapshot = SnapshotView { last_included: through, config: req.config, data: req.data };
        let confirmed = heard.node.log.term_at(through.index) == Some(through.term);
        let d0 = stored(heard.node);
        let d1 = DiskView { snapshot: Some(snapshot), ..d0 };
        lemma_snapped(h, i, d0, x, snapshot);
        let y = lemma_fixed_up(h, i, d1, x, through);
        let d2 = DiskView { log: d1.log.reconcile(through), ..d1 };
        lemma_whole(d2.log, y);
        let rebased = NodeView { log: d2.log, base_config: req.config, ..heard.node };
        lemma_refreshed(h, rebased, y);
        assert(stored(after.node) == d2);
        assert(configured(h, after.node, y));
        // The chronicle.
        lemma_noted(h, i, d2, y, snapshot);
        let noted = h.with_snap(i, through.index);
        crate::chronicle::lemma_settled_stays(h, noted, term, term, y, through.index as int);
        crate::chronicle::lemma_settled_in(noted, term, y, through.index as int, term);
        lemma_acknowledge(noted, i, d2, y, through.index as nat);
        let end = noted.with_ack(i, term, through.index as nat);
        crate::chronicle::lemma_extends_trans(h, noted, end, i);
        lemma_outs_stay(h, end, heard);
        crate::chronicle::lemma_settled_stays(noted, end, term, term, y, through.index as int);
        lemma_known_stays(h, end, term, term, through.index, through.index);
        assert(informed(end, after.node, y));
        let op = if confirmed {
            PersistView::Compact(through)
        } else {
            PersistView::ResetLog(through)
        };
        let written = heard.with_node(after.node).persist(PersistView::Snapshot(snapshot)).persist(
            op,
        );
        assert(fine(end, written, y));
        lemma_effect(end, written, y, OutputView::RestoreSnapshot { snapshot });
        let restored = written.effect(OutputView::RestoreSnapshot { snapshot });
        lemma_send(end, restored, y, from, msg);
        assert(restored.send(from, msg) == after);
        let p = after.out.persists;
        assert(p.len() == 2);
        assert(p[0] == OutputView::Persist(PersistView::Snapshot(snapshot)));
        reveal_with_fuel(crate::disk_laws::kept, 2);
        assert(recorded(h, i, with_term(crate::disk_laws::kept(base, p, 1), after.node), x));
        Outcome { mid: h, end, half: x, x: y }
    }
}

/// A node takes a snapshot of what it applied.
proof fn lemma_on_compact(
    h: Chronicle,
    base: DiskView,
    t: Turn,
    x: Seq<EntryView>,
    snapshot: SnapshotView,
) -> (o: Outcome)
    requires
        h.true_to_raft(),
        fine(h, t, x),
        begun(base, t),
    ensures
        reached(h, base, x, t.on_compact(snapshot), o),
{
    reveal(Turn::on_compact);
    let n = t.node;
    let i = n.id;
    let term = n.current_term;
    let through = snapshot.last_included;
    crate::chronicle::lemma_extends_refl(h, i);
    let kept_one = SnapshotView { config: n.config_at(through.index), ..snapshot };
    if through.index > n.last_applied || through.index <= n.log.last_included.index
        || n.log.term_at(through.index) != Some(through.term) {
        lemma_quiet(h, h, base, t, x)
    } else {
        let after = t.on_compact(snapshot);
        lemma_whole(n.log, x);
        lemma_config_at(h, n, x, through.index);
        assert(h.anchored(term, through, kept_one.config)) by {
            lemma_settled_less(h, term, x, n.commit_index as int, through.index as int);
            let (tc, k) = choose|tc: u64, k: int| #[trigger]
                h.committed(tc, k) && tc <= term && through.index <= k && holds(
                    x,
                    h.led(tc),
                    through.index as int,
                );
            crate::chronicle::lemma_holds_less(
                x,
                h.led(tc),
                through.index as int,
                through.index as int,
            );
            assert(x[through.index - 1] == h.led(tc)[through.index - 1]);
            assert(h.committed(tc, k));
        }
        let d0 = stored(n);
        let d1 = DiskView { snapshot: Some(kept_one), ..d0 };
        lemma_known_stays(h, h, term, term, n.commit_index, through.index);
        lemma_snapped(h, i, d0, x, kept_one);
        let y = lemma_fixed_up(h, i, d1, x, through);
        let d2 = DiskView { log: d1.log.reconcile(through), ..d1 };
        assert(stored(after.node) == d2);
        lemma_noted(h, i, d2, x, kept_one);
        let end = h.with_snap(i, through.index);
        lemma_outs_stay(h, end, t);
        crate::chronicle::lemma_settled_stays(h, end, term, term, x, n.commit_index as int);
        assert(forall|v: u32, u: u64| #[trigger] end.acked(v, u) == h.acked(v, u));
        lemma_known_stays(h, end, term, term, n.commit_index, n.commit_index);
        lemma_reads_wait_stay(h, end, n, after.node);
        assert(informed(end, after.node, x));
        assert(fine(end, after, x));
        let p = after.out.persists;
        assert(p.len() == 2);
        assert(p[0] == OutputView::Persist(PersistView::Snapshot(kept_one)));
        reveal_with_fuel(crate::disk_laws::kept, 2);
        assert(recorded(h, i, with_term(crate::disk_laws::kept(base, p, 1), after.node), x));
        Outcome { mid: h, end, half: x, x }
    }
}

// ---------------------------------------------------------------------------
// Everything else
// ---------------------------------------------------------------------------

/// A leader learns how far a follower is.
proof fn lemma_advance_match(
    h: Chronicle,
    t: Turn,
    x: Seq<EntryView>,
    from: u32,
    index: u64,
) -> (later: Chronicle)
    requires
        h.true_to_raft(),
        fine(h, t, x),
        t.node.role == Role::Leader,
        index <= h.acked(from, t.node.current_term) || index <= t.node.commit_index,
    ensures
        grows(h, later, t.node.id),
        fine(later, t.advance_match(from, index), x),
        t.advance_match(from, index).out.persists == t.out.persists,
        t.advance_match(from, index).node.log == t.node.log,
        t.advance_match(from, index).node.snapshot == t.node.snapshot,
        t.advance_match(from, index).node.id == t.node.id,
{
    let n = t.node;
    let known = if n.match_index.contains_key(from) {
        n.match_index[from]
    } else {
        0
    };
    let m = crate::model::max_of(known, index);
    let n1 = NodeView {
        match_index: n.match_index.insert(from, m),
        next_index: n.next_index.insert(from, (m + 1) as u64),
        ..n
    };
    let t1 = t.with_node(n1);
    assert(fine(h, t1, x));
    let later = lemma_advance_commit(h, t1, x);
    let t2 = t.with_node(n1.maybe_advance_commit());
    lemma_send_append(later, t2, x, from, 0);
    reveal(Turn::send_append_entries_for);
    later
}

/// The reads that are ready are served properly, and the others wait on.
proof fn lemma_served(h: Chronicle, n: NodeView, x: Seq<EntryView>, k: int)
    requires
        h.true_to_raft(),
        reads_wait(h, n),
        n.role == Role::Leader,
        h.reigns.contains_key(n.current_term),
        h.led(n.current_term) == x,
        n.cluster == h.config_of(x),
        0 <= k <= n.pending_reads.len(),
    ensures
        forall|i: int|
            0 <= i < n.served(k).len() ==> effect_true(h, n.id, #[trigger] n.served(k)[i]),
        forall|i: int|
            0 <= i < n.waiting(k).len() ==> waits(
                h,
                n.id,
                n.current_term,
                #[trigger] n.waiting(k)[i],
            ),
    decreases k,
{
    if k > 0 {
        lemma_served(h, n, x, k - 1);
        let read = n.pending_reads[k - 1];
        let term = n.current_term;
        assert(waits(h, n.id, term, read));
        if n.is_ready(read) {
            let r = read.round->0;
            crate::chronicle::lemma_still_leading(h, term, r, read.acks, u64::MAX);
            assert(read_by(h, n.id, term, r, read.request)) by {
                assert forall|w: u64| #[trigger]
                    h.rounds[(term, r)].terms.contains(w) implies w <= term by {}
            }
            assert(n.served(k) == n.served(k - 1).push(n.served(k).last()));
            assert(n.waiting(k) == n.waiting(k - 1));
        } else {
            assert(n.served(k) == n.served(k - 1));
            let w = n.waiting(k - 1);
            assert(n.waiting(k) == w.push(read));
            assert forall|i: int| 0 <= i < n.waiting(k).len() implies waits(
                h,
                n.id,
                term,
                #[trigger] n.waiting(k)[i],
            ) by {
                if i < w.len() {
                    assert(n.waiting(k)[i] == w[i]);
                }
            }
        }
    }
}

/// A leader that has an entry of its term committed begins a round for the reads
/// that have none.
proof fn lemma_pin_reads(h: Chronicle, t: Turn, x: Seq<EntryView>) -> (later: Chronicle)
    requires
        h.true_to_raft(),
        fine(h, t, x),
        t.node.role == Role::Leader,
        t.node.read_round < u64::MAX,
        t.node.log.term_at(t.node.commit_index) == Some(t.node.current_term),
    ensures
        grows(h, later, t.node.id),
        fine(later, t.with_node(t.node.pin_reads()), x),
        later.rounds.contains_key((t.node.current_term, t.node.pin_reads().read_round)),
{
    let n = t.node;
    let i = n.id;
    let term = n.current_term;
    let r = (n.read_round + 1) as u64;
    let p = n.pin_reads();
    lemma_whole(n.log, x);
    crate::chronicle::lemma_reign(h, term);
    assert(term > 0) by {
        reveal(Chronicle::true_to_raft);
        assert(h.run_true(i, term));
    }
    let c = n.commit_index;
    assert(c > 0 && x[c - 1].term == term);
    assert(h.settled(term, x, c as int));
    assert(c <= x.len()) by {
        let (w, k) = choose|w: u64, k: int| #[trigger]
            h.committed(w, k) && w <= term && c <= k && holds(x, h.led(w), c as int);
    }
    crate::chronicle::lemma_with_round(h, term, r, c);
    let opened = h.with_round(term, r, c);
    lemma_recorded_told(h, opened, i, stored(n), x);
    crate::chronicle::lemma_with_confirm(opened, i, term, r);
    let later = opened.with_confirm(i, term, r);
    lemma_recorded_told(opened, later, i, stored(n), x);
    crate::chronicle::lemma_extends_trans(h, opened, later, i);
    lemma_outs_stay(h, later, t);
    crate::chronicle::lemma_settled_stays(h, later, term, term, x, c as int);
    lemma_known_stays(h, later, term, term, c, c);
    assert(forall|v: u32, u: u64| #[trigger] later.acked(v, u) == h.acked(v, u));
    assert(!h.rounds.contains_key((term, r)));
    assert(!h.past.rounds.contains((term, r))) by {
        reveal(Chronicle::true_to_raft);
    }
    assert(reads_wait(later, p)) by {
        assert forall|k: int| 0 <= k < p.pending_reads.len() implies waits(
            later,
            i,
            term,
            #[trigger] p.pending_reads[k],
        ) by {
            let read = n.pending_reads[k];
            assert(waits(h, i, term, read));
            if read.read_index is Some {
                lemma_confirmed_stays(h, later, term, read.round->0, read.acks);
            } else {
                let now = p.pending_reads[k];
                assert(now == n.pinned(read, r));
                assert forall|v: u32| #[trigger] now.acks.contains(v) implies exists|q: u64|
                    r <= q && #[trigger] later.confirms.contains((v, term, q)) by {
                    assert(v == i);
                    assert(later.confirms.contains((i, term, r)));
                }
            }
        }
        assert forall|q: u64| #[trigger] later.rounds.contains_key((term, q)) implies q
            <= p.read_round by {
            if q != r {
                assert(h.rounds.contains_key((term, q)));
            }
        }
    }
    assert(informed(later, p, x));
    later
}

proof fn lemma_resolve_reads(h: Chronicle, t: Turn, x: Seq<EntryView>) -> (later: Chronicle)
    requires
        h.true_to_raft(),
        fine(h, t, x),
        t.node.read_round < u64::MAX,
    ensures
        grows(h, later, t.node.id),
        fine(later, t.resolve_reads(), x),
        t.resolve_reads().out.persists == t.out.persists,
        same_but_reads(t.node, t.resolve_reads().node),
{
    reveal(Turn::resolve_reads);
    crate::chronicle::lemma_extends_refl(h, t.node.id);
    if t.node.pending_reads.len() > 0 && t.node.log.term_at(t.node.commit_index) == Some(
        t.node.current_term,
    ) {
        let fresh = t.node.has_fresh_read();
        let later = if fresh {
            lemma_pin_reads(h, t, x)
        } else {
            h
        };
        let pinned = if fresh {
            let p = t.with_node(t.node.pin_reads());
            lemma_broadcast(later, p, x, p.node.read_round);
            p.broadcast(p.node.read_round)
        } else {
            t
        };
        let k = pinned.node.pending_reads.len() as int;
        let after = pinned.serve_ready();
        lemma_served(later, pinned.node, x, k);
        lemma_reads_changed(later, pinned, after.node, x);
        assert forall|j: int| 0 <= j < after.out.effects.len() implies effect_true(
            later,
            after.node.id,
            #[trigger] after.out.effects[j],
        ) by {
            let e = pinned.out.effects;
            if j < e.len() {
                assert(after.out.effects[j] == e[j]);
            } else {
                assert(after.out.effects[j] == pinned.node.served(k)[j - e.len()]);
            }
        }
        assert(sends_true(later, after));
        later
    } else {
        h
    }
}

/// What a node applies is committed.
proof fn lemma_advance_apply(h: Chronicle, t: Turn, x: Seq<EntryView>)
    requires
        h.true_to_raft(),
        fine(h, t, x),
    ensures
        fine(h, t.advance_apply(), x),
        t.advance_apply().out.persists == t.out.persists,
        t.advance_apply().node == (NodeView {
            last_applied: t.advance_apply().node.last_applied,
            ..t.node
        }),
    decreases t.node.commit_index - t.node.last_applied,
{
    reveal_with_fuel(Turn::advance_apply, 2);
    let n = t.node;
    let index = (n.last_applied + 1) as u64;
    if !(n.last_applied >= n.commit_index || !n.log.holds(index)) {
        lemma_whole(n.log, x);
        let entry = n.log.at(index);
        assert(entry == x[index - 1]);
        assert(final_at(h, index, entry.term, entry.payload)) by {
            let c = n.commit_index as int;
            let (tc, k) = choose|tc: u64, k: int| #[trigger]
                h.committed(tc, k) && tc <= n.current_term && c <= k && holds(x, h.led(tc), c);
            crate::chronicle::lemma_holds_less(x, h.led(tc), c, c);
            assert(x[index - 1] == h.led(tc)[index - 1]);
            assert(h.committed(tc, k));
        }
        let n1 = NodeView { last_applied: index, ..n };
        let t1 = t.with_node(n1);
        assert(fine(h, t1, x));
        let o = OutputView::Apply {
            index,
            term: entry.term,
            payload: entry.payload,
            client: entry.client,
            respond: n.role == Role::Leader,
        };
        lemma_effect(h, t1, x, o);
        lemma_advance_apply(h, t1.effect(o), x);
    }
}

proof fn lemma_append_config_rounds(t: Turn, config: ConfigView)
    ensures
        t.append_config(config).node.read_round == t.node.read_round,
{
    let t1 = t.append_own(PayloadView::Config(config), None);
    let t2 = t1.with_node(
        NodeView {
            cluster: config,
            config_index: (t.node.log.last_index() + 1) as u64,
            ..t1.node
        }.reset_replication_state(),
    );
    crate::node_laws::lemma_broadcast(t2, 0);
}

/// A leader goes on to the new membership once the joint one is committed, and
/// steps down once it is no part of it.
proof fn lemma_after_commit(h: Chronicle, t: Turn, x: Seq<EntryView>) -> (g: Grown)
    requires
        h.true_to_raft(),
        fine(h, t, x),
        t.node.role == Role::Leader ==> x.len() + 1 < u64::MAX,
    ensures
        goes_on(h, g.mid, g.end, t.node.id),
        fine(g.end, t.after_commit(), g.x),
        follows_up(g.mid, t, x, t.after_commit(), g.x),
{
    reveal(Turn::after_commit);
    let n = t.node;
    crate::chronicle::lemma_extends_refl(h, n.id);
    if n.role != Role::Leader {
        Grown { mid: h, end: h, x }
    } else if n.cluster.is_joint() && n.config_index <= n.commit_index {
        let config = n.cluster.to_new()->0;
        crate::chronicle::lemma_reign(h, n.current_term);
        crate::chronicle::lemma_config_wf(h, x);
        let g = lemma_append_config(h, t, x, config);
        let changed = t.append_config(config);
        lemma_follow(g.end, changed, g.x, changed.node.current_term, None);
        g
    } else {
        lemma_follow(h, t, x, n.current_term, None);
        Grown { mid: h, end: h, x }
    }
}

/// What a node does once something is committed writes at most one entry, and
/// leaves the term and the vote alone.
spec fn follows_up(
    mid: Chronicle,
    a: Turn,
    x: Seq<EntryView>,
    b: Turn,
    y: Seq<EntryView>,
) -> bool {
    let n = a.out.persists.len();
    &&& b.node.id == a.node.id
    &&& b.node.current_term == a.node.current_term
    &&& b.node.voted_for == a.node.voted_for
    &&& b.out.persists == a.out.persists ==> stored(b.node) == stored(a.node) && y == x
    &&& holds(y, x, x.len() as int)
    &&& b.out.persists != a.out.persists ==> {
        &&& b.out.persists.len() == n + 1
        &&& !(b.out.persists.last() matches OutputView::Persist(PersistView::TruncateFrom(i)))
        &&& b.out.persists.take(n as int) == a.out.persists
        &&& recorded(mid, a.node.id, stored(a.node), x)
        &&& recorded(mid, a.node.id, stored(b.node), y)
    }
}

/// What follows every input.
proof fn lemma_settle(h: Chronicle, t: Turn, x: Seq<EntryView>) -> (g: Grown)
    requires
        h.true_to_raft(),
        fine(h, t, x),
        t.node.read_round < u64::MAX,
        t.node.role == Role::Leader ==> x.len() + 1 < u64::MAX,
    ensures
        goes_on(h, g.mid, g.end, t.node.id),
        fine(g.end, t.settle(), g.x),
        follows_up(g.mid, t, x, t.settle(), g.x),
{
    reveal(Turn::settle);
    let g = lemma_after_commit(h, t, x);
    let t1 = t.after_commit();
    assert(t1.node.read_round == t.node.read_round) by {
        reveal(Turn::after_commit);
        lemma_append_config_rounds(t, t.node.cluster.to_new()->0);
    }
    lemma_advance_apply(g.end, t1, g.x);
    let later = lemma_resolve_reads(g.end, t1.advance_apply(), g.x);
    crate::chronicle::lemma_extends_trans(g.mid, g.end, later, t.node.id);
    Grown { mid: g.mid, end: later, x: g.x }
}

/// A message that says what is true reaches a node.
proof fn lemma_on_message(
    h: Chronicle,
    base: DiskView,
    t: Turn,
    x: Seq<EntryView>,
    from: u32,
    msg: MessageView,
) -> (o: Outcome)
    requires
        h.true_to_raft(),
        fine(h, t, x),
        begun(base, t),
        honest(h, from, t.node.id, msg),
        x.len() + 1 < u64::MAX,
        msg matches MessageView::InstallSnapshot(req) ==> req.last_included_index < u64::MAX,
    ensures
        reached(h, base, x, t.on_message(from, msg), o),
{
    reveal(Turn::on_message);
    reveal(Turn::on_current_message);
    crate::chronicle::lemma_extends_refl(h, t.node.id);
    let after = t.on_message(from, msg);
    if msg is RequestVote && t.node.ignores_vote_requests() {
        lemma_quiet(h, h, base, t, x)
    } else {
        let leader = match msg {
            MessageView::AppendEntries(m) => Some(m.leader_id),
            _ => None,
        };
        let t1 = if msg.term() > t.node.current_term {
            lemma_follow(h, t, x, msg.term(), leader);
            t.with_node(t.node.become_follower(msg.term(), leader))
        } else {
            t
        };
        if msg.term() < t1.node.current_term {
            reveal(Turn::reject_stale);
            match msg {
                MessageView::RequestVote(_) => {
                    lemma_send(h, t1, x, from, after.out.sends.last()->msg);
                },
                MessageView::AppendEntries(req) => {
                    lemma_send(h, t1, x, from, after.out.sends.last()->msg);
                },
                MessageView::InstallSnapshot(req) => {
                    lemma_send(h, t1, x, from, after.out.sends.last()->msg);
                },
                _ => {},
            }
            lemma_quiet(h, h, base, after, x)
        } else {
            let term = t1.node.current_term;
            match msg {
                MessageView::RequestVote(req) => lemma_on_request_vote(h, base, t1, x, from, req),
                MessageView::AppendEntries(req) => {
                    let c = t1.concede_to(req.leader_id);
                    lemma_follow(h, t1, x, term, Some(req.leader_id));
                    lemma_on_append_entries(h, base, c, x, from, req)
                },
                MessageView::InstallSnapshot(req) => {
                    let c = t1.concede_to(req.leader_id);
                    lemma_follow(h, t1, x, term, Some(req.leader_id));
                    lemma_on_install_snapshot(h, base, c, x, from, req)
                },
                MessageView::InstallSnapshotResp(resp) => {
                    reveal(Turn::on_install_snapshot_resp);
                    if t1.node.role == Role::Leader && t1.node.cluster.contains(from) {
                        let later = lemma_advance_match(h, t1, x, from, resp.last_included_index);
                        lemma_quiet(h, later, base, after, x)
                    } else {
                        lemma_quiet(h, h, base, after, x)
                    }
                },
                MessageView::RequestVoteResp(resp) => {
                    reveal(Turn::on_request_vote_resp);
                    if t1.node.role == Role::Candidate && resp.vote_granted {
                        let n2 = NodeView {
                            votes_granted: t1.node.votes_granted.insert(from),
                            ..t1.node
                        };
                        let t2 = t1.with_node(n2);
                        assert(fine(h, t2, x));
                        if n2.cluster.is_quorum(n2.votes_granted) {
                            let g = lemma_become_leader(h, t2, x);
                            lemma_won(h, h, base, t2, x, g)
                        } else {
                            lemma_quiet(h, h, base, t2, x)
                        }
                    } else {
                        lemma_quiet(h, h, base, t1, x)
                    }
                },
                MessageView::AppendEntriesResp(resp) => {
                    if t1.node.role == Role::Leader {
                        let later = lemma_on_append_entries_resp(h, t1, x, from, resp);
                        lemma_quiet(h, later, base, after, x)
                    } else {
                        lemma_quiet(h, h, base, after, x)
                    }
                },
            }
        }
    }
}

/// A confirmation counts for every read that waits for it or an earlier one.
proof fn lemma_read_ack(h: Chronicle, n: NodeView, from: u32, round: u64)
    requires
        reads_wait(h, n),
        round > 0 ==> h.confirms.contains((from, n.current_term, round)),
    ensures
        reads_wait(h, n.note_read_ack(from, round)),
{
    let b = n.note_read_ack(from, round);
    let term = n.current_term;
    if round > 0 {
        assert forall|k: int| 0 <= k < b.pending_reads.len() implies waits(
            h,
            n.id,
            term,
            #[trigger] b.pending_reads[k],
        ) by {
            let read = n.pending_reads[k];
            assert(waits(h, n.id, term, read));
            let now = b.pending_reads[k];
            if read.round is Some && read.round->0 <= round {
                let r = read.round->0;
                assert forall|v: u32| #[trigger] now.acks.contains(v) implies exists|q: u64|
                    r <= q && #[trigger] h.confirms.contains((v, term, q)) by {
                    if v == from {
                        assert(h.confirms.contains((from, term, round)));
                    } else {
                        assert(read.acks.contains(v));
                    }
                }
            }
        }
    }
}

proof fn lemma_on_append_entries_resp(
    h: Chronicle,
    t: Turn,
    x: Seq<EntryView>,
    from: u32,
    resp: crate::AppendEntriesResp,
) -> (later: Chronicle)
    requires
        h.true_to_raft(),
        fine(h, t, x),
        t.node.role == Role::Leader,
        t.node.current_term == resp.term,
        honest(h, from, t.node.id, MessageView::AppendEntriesResp(resp)),
    ensures
        grows(h, later, t.node.id),
        fine(later, t.on_append_entries_resp(from, resp), x),
        t.on_append_entries_resp(from, resp).out.persists == t.out.persists,
        t.on_append_entries_resp(from, resp).node.log == t.node.log,
        t.on_append_entries_resp(from, resp).node.snapshot == t.node.snapshot,
        t.on_append_entries_resp(from, resp).node.id == t.node.id,
{
    reveal(Turn::on_append_entries_resp);
    crate::chronicle::lemma_extends_refl(h, t.node.id);
    if !t.node.cluster.contains(from) {
        h
    } else if resp.success {
        let n1 = t.node.note_read_ack(from, resp.read_round);
        lemma_read_ack(h, t.node, from, resp.read_round);
        lemma_reads_changed(h, t, n1, x);
        lemma_advance_match(h, t.with_node(n1), x, from, resp.match_index)
    } else {
        let next = t.next_for(from);
        let n1 = NodeView {
            next_index: t.node.next_index.insert(from, t.node.backed_up(next, resp.conflict)),
            ..t.node
        };
        lemma_same_core(h, t, n1, x);
        lemma_send_append(h, t.with_node(n1), x, from, 0);
        reveal(Turn::send_append_entries_for);
        h
    }
}

/// A candidate asks for a vote.
proof fn lemma_on_request_vote(
    h: Chronicle,
    base: DiskView,
    t: Turn,
    x: Seq<EntryView>,
    from: u32,
    req: RequestVoteReq,
) -> (o: Outcome)
    requires
        h.true_to_raft(),
        fine(h, t, x),
        begun(base, t),
        t.node.current_term == req.term,
        honest(h, from, t.node.id, MessageView::RequestVote(req)),
    ensures
        reached(h, base, x, t.on_request_vote(from, req), o),
{
    reveal(Turn::on_request_vote);
    let n = t.node;
    crate::chronicle::lemma_extends_refl(h, n.id);
    lemma_whole(n.log, x);
    let after = t.on_request_vote(from, req);
    let msg = after.out.sends.last()->msg;
    let resp = msg->RequestVoteResp_0;
    if resp.vote_granted {
        let voted = NodeView {
            voted_for: Some(req.candidate_id),
            hard_state_dirty: true,
            ..n
        }.reset_election_deadline();
        let later = lemma_vote(h, t, x, from, voted);
        lemma_send(later, t.with_node(voted), x, from, msg);
        lemma_quiet(h, later, base, after, x)
    } else {
        lemma_send(h, t, x, from, msg);
        lemma_quiet(h, h, base, after, x)
    }
}

/// A client asks for something.
proof fn lemma_on_client_request(
    h: Chronicle,
    base: DiskView,
    t: Turn,
    x: Seq<EntryView>,
    req: RequestView,
) -> (o: Outcome)
    requires
        h.true_to_raft(),
        fine(h, t, x),
        begun(base, t),
        x.len() + 1 < u64::MAX,
        t.node.read_round < u64::MAX,
    ensures
        reached(h, base, x, t.on_client_request(req), o),
{
    reveal(Turn::on_client_request);
    crate::chronicle::lemma_extends_refl(h, t.node.id);
    let after = t.on_client_request(req);
    if t.node.role != Role::Leader {
        lemma_effect(h, t, x, after.out.effects.last());
        lemma_quiet(h, h, base, after, x)
    } else if req.read_only {
        reveal(Turn::begin_read);
        let queued = t.with_node(
            NodeView {
                pending_reads: t.node.pending_reads.push(
                    crate::model::ReadView {
                        request: req,
                        arrival_index: t.node.commit_index,
                        read_index: None,
                        round: None,
                        acks: Set::empty(),
                    },
                ),
                ..t.node
            },
        );
        assert(!t.node.cfg.bugs.read_index_at_arrival);
        assert(reads_wait(h, queued.node)) by {
            let k = t.node.pending_reads.len();
            assert forall|j: int| 0 <= j < queued.node.pending_reads.len() implies waits(
                h,
                queued.node.id,
                queued.node.current_term,
                #[trigger] queued.node.pending_reads[j],
            ) by {
                if j < k {
                    assert(queued.node.pending_reads[j] == t.node.pending_reads[j]);
                }
            }
        }
        lemma_reads_changed(h, t, queued.node, x);
        let later = lemma_resolve_reads(h, queued, x);
        assert(after == queued.resolve_reads());
        lemma_quiet(h, later, base, after, x)
    } else {
        let payload = PayloadView::Command(req.command);
        let client = Some((req.client, req.seq));
        let g = lemma_append_own(h, t, x, payload, client);
        let t1 = t.append_own(payload, client);
        lemma_broadcast(g.end, t1, g.x, 0);
        let later = lemma_advance_commit(g.end, t1.broadcast(0), g.x);
        crate::chronicle::lemma_extends_trans(g.mid, g.end, later, t.node.id);
        assert(after.out.persists.len() == 1);
        assert(after.out.persists[0] == t1.out.persists[0]);
        Outcome { mid: g.mid, end: later, half: x, x: g.x }
    }
}

/// Someone asks for another membership.
proof fn lemma_on_change_membership(
    h: Chronicle,
    base: DiskView,
    t: Turn,
    x: Seq<EntryView>,
    voters: Set<u32>,
) -> (o: Outcome)
    requires
        h.true_to_raft(),
        fine(h, t, x),
        begun(base, t),
        voters.finite(),
        x.len() + 1 < u64::MAX,
    ensures
        reached(h, base, x, t.on_change_membership(voters), o),
{
    reveal(Turn::on_change_membership);
    let n = t.node;
    crate::chronicle::lemma_extends_refl(h, n.id);
    let after = t.on_change_membership(voters);
    if n.role != Role::Leader || n.cluster.is_joint() || n.config_index > n.commit_index {
        lemma_effect(h, t, x, after.out.effects.last());
        lemma_quiet(h, h, base, after, x)
    } else if voters == Set::<u32>::empty() {
        lemma_quiet(h, h, base, after, x)
    } else {
        crate::chronicle::lemma_reign(h, n.current_term);
        crate::chronicle::lemma_config_wf(h, x);
        assert(voters.len() > 0) by {
            if voters.len() == 0 {
                voters.lemma_len0_is_empty();
            }
        }
        let config = ConfigView { old: n.cluster.old, new: Some(voters) };
        let g = lemma_append_config(h, t, x, config);
        Outcome { mid: g.mid, end: g.end, half: x, x: g.x }
    }
}

/// Any input.
proof fn lemma_on_input(
    h: Chronicle,
    base: DiskView,
    t: Turn,
    x: Seq<EntryView>,
    input: InputView,
) -> (o: Outcome)
    requires
        h.true_to_raft(),
        fine(h, t, x),
        begun(base, t),
        t.node.accepts(input, t.node.now),
        input matches InputView::ChangeMembership(voters) ==> voters.finite(),
        input matches InputView::Message { from, msg } ==> honest(h, from, t.node.id, msg),
    ensures
        reached(h, base, x, t.on_input(input), o),
{
    reveal(Turn::on_input);
    lemma_whole(t.node.log, x);
    match input {
        InputView::Tick => lemma_on_tick(h, base, t, x),
        InputView::Message { from, msg } => lemma_on_message(h, base, t, x, from, msg),
        InputView::ClientRequest(req) => lemma_on_client_request(h, base, t, x, req),
        InputView::Compact(snapshot) => lemma_on_compact(h, base, t, x, snapshot),
        InputView::ChangeMembership(voters) => lemma_on_change_membership(h, base, t, x, voters),
    }
}

/// A chronicle and a log.
pub struct Mark {
    pub h: Chronicle,
    pub x: Seq<EntryView>,
}

/// The chronicle of a whole step: what is true after each number of its log
/// writes, and at its end.
pub struct Ending {
    pub marks: Seq<Mark>,
    pub end: Chronicle,
    pub x: Seq<EntryView>,
}

/// What is on the disk is true of a longer chronicle.
pub open spec fn marked(h: Chronicle, i: u32, d: DiskView, m: Mark) -> bool {
    &&& m.h.true_to_raft()
    &&& h.extends(m.h)
    &&& h.made_by(m.h, i)
    &&& recorded(m.h, i, d, m.x)
}

/// The step is fine, and so is the disk wherever in its log writes the process
/// may die.
pub open spec fn ended(
    h: Chronicle,
    base: DiskView,
    before: Seq<EntryView>,
    t: Turn,
    e: Ending,
) -> bool {
    let p = t.out.persists;
    &&& e.end.true_to_raft()
    &&& h.extends(e.end)
    &&& h.made_by(e.end, t.node.id)
    &&& fine(e.end, t, e.x)
    &&& p.len() <= 3
    &&& cuts_differ(before, p, e.x)
    &&& e.marks.len() == p.len() + 1
    &&& forall|q: int|
        0 <= q <= p.len() ==> marked(
            h,
            t.node.id,
            with_term(crate::disk_laws::kept(base, p, q), t.node),
            #[trigger] e.marks[q],
        )
}

/// What is on the disk after each write up to the end of the input's handler.
proof fn lemma_marks(
    h: Chronicle,
    base: DiskView,
    before: Seq<EntryView>,
    t: Turn,
    o: Outcome,
) -> (marks: Seq<Mark>)
    requires
        reached(h, base, before, t, o),
        crate::disk_laws::in_step(
            t.node,
            crate::disk_laws::kept(base, t.out.persists, t.out.persists.len() as int),
        ),
    ensures
        marks.len() == t.out.persists.len() + 1,
        forall|q: int|
            0 <= q <= t.out.persists.len() ==> marked(
                h,
                t.node.id,
                with_term(crate::disk_laws::kept(base, t.out.persists, q), t.node),
                #[trigger] marks[q],
            ),
{
    let n = t.out.persists.len() as int;
    let first = Mark { h: o.mid, x: before };
    let half = Mark { h: o.mid, x: o.half };
    let last = Mark { h: o.mid, x: o.x };
    assert(crate::disk_laws::kept(base, t.out.persists, 0) == base);
    if n == 0 {
        seq![first]
    } else if n == 1 {
        seq![first, last]
    } else {
        seq![first, half, last]
    }
}

/// Whatever input reaches a node whose part is true, its part stays true, and
/// so is everything that it says.
pub proof fn lemma_turn(
    h: Chronicle,
    node: NodeView,
    disk: DiskView,
    x: Seq<EntryView>,
    input: InputView,
    now: u64,
) -> (e: Ending)
    requires
        h.true_to_raft(),
        sane(h, node, x),
        disk.wf(),
        crate::disk_laws::in_step(node, disk),
        node.accepts(input, now),
        input matches InputView::ChangeMembership(voters) ==> voters.finite(),
        input matches InputView::Message { from, msg } ==> honest(h, from, node.id, msg),
    ensures
        ended(h, disk, x, node.turn(input, now), e),
        node.turn(input, now).node.id == node.id,
{
    let t = Turn::begin(NodeView { now, ..node });
    assert(same_core(node, t.node));
    assert(fine(h, t, x));
    let o = lemma_on_input(h, disk, t, x, input);
    let t1 = t.on_input(input);
    crate::disk_laws::lemma_input_in_step(node, disk, input, now);
    let marks = lemma_marks(h, disk, x, t1, o);
    crate::pace::lemma_few_rounds(node, input, now);
    lemma_whole(t1.node.log, o.x);
    let g = lemma_settle(o.end, t1, o.x);
    crate::node_laws::lemma_turn(node, input, now);
    let t2 = node.turn(input, now);
    crate::chronicle::lemma_extends_trans(h, o.mid, o.end, node.id);
    crate::chronicle::lemma_extends_trans(h, o.end, g.mid, node.id);
    crate::chronicle::lemma_extends_trans(h, g.mid, g.end, node.id);
    let p1 = t1.out.persists;
    let p2 = t2.out.persists;
    let n = p1.len() as int;
    let all = if p2 == p1 {
        marks
    } else {
        marks.push(Mark { h: g.mid, x: g.x })
    };
    assert forall|q: int| 0 <= q <= p2.len() implies marked(
        h,
        node.id,
        with_term(crate::disk_laws::kept(disk, p2, q), t2.node),
        #[trigger] all[q],
    ) by {
        if q <= n {
            assert forall|i: int| 0 <= i < q implies p2[i] == p1[i] by {
                assert(p2.take(n)[i] == p2[i]);
            }
            crate::disk_laws::lemma_kept_prefix(disk, p2, p1, q);
            assert(all[q] == marks[q]);
        } else {
            crate::disk_laws::lemma_writes_in_step(node, disk, input, now);
        }
    }
    assert(cuts_differ(x, p2, g.x)) by {
        crate::chronicle::lemma_holds_less(g.x, o.x, o.x.len() as int, o.x.len() as int);
        assert forall|k: int| 0 <= k < p2.len() implies (#[trigger] p2[k] matches OutputView::Persist(
            PersistView::TruncateFrom(i),
        ) ==> 0 < i <= x.len() && i <= g.x.len() && x[i - 1] != g.x[i - 1]) by {
            if k < n {
                assert(p2.take(n)[k] == p2[k]);
                assert(p2[k] == p1[k]);
            } else {
                assert(p2[k] == p2.last());
            }
        }
    }
    Ending { marks: all, end: g.end, x: g.x }
}

/// Two disks with the same log and snapshot stay so through the same writes.
proof fn lemma_kept_alike(a: DiskView, b: DiskView, p: Seq<OutputView>, n: int)
    requires
        a.log == b.log,
        a.snapshot == b.snapshot,
        0 <= n <= p.len(),
    ensures
        crate::disk_laws::kept(a, p, n).log == crate::disk_laws::kept(b, p, n).log,
        crate::disk_laws::kept(a, p, n).snapshot == crate::disk_laws::kept(b, p, n).snapshot,
    decreases n,
{
    if n > 0 {
        lemma_kept_alike(a, b, p, n - 1);
    }
}

/// Where a step's writes stop, what is on the disk is true.
pub proof fn lemma_torn(
    h: Chronicle,
    node: NodeView,
    disk: DiskView,
    x: Seq<EntryView>,
    input: InputView,
    now: u64,
    e: Ending,
    p: int,
) -> (m: Mark)
    requires
        h.true_to_raft(),
        sane(h, node, x),
        disk.wf(),
        crate::disk_laws::in_step(node, disk),
        crate::disk_laws::vote_in_step(node, disk),
        !node.hard_state_dirty,
        node.accepts(input, now),
        ended(h, disk, x, node.turn(input, now), e),
        0 <= p <= node.turn(input, now).hard_state().len() + node.turn(
            input,
            now,
        ).out.persists.len(),
    ensures
        marked(h, node.id, crate::disk_laws::kept(disk, node.step_outputs(input, now), p), m),
        crate::disk_laws::kept(disk, node.step_outputs(input, now), p).current_term
            >= disk.current_term,
{
    let t = node.turn(input, now);
    let outputs = node.step_outputs(input, now);
    let hs = t.hard_state();
    let w = t.out.persists;
    crate::node_laws::lemma_turn(node, input, now);
    crate::chronicle::lemma_extends_refl(h, node.id);
    if p < hs.len() {
        assert(p == 0);
        assert(recorded(h, node.id, disk, x));
        Mark { h, x }
    } else {
        let q = p - hs.len();
        let base = crate::disk_laws::kept(disk, hs, hs.len() as int);
        reveal_with_fuel(crate::disk_laws::kept, 2);
        assert(base.log == disk.log && base.snapshot == disk.snapshot);
        assert(base.current_term == t.node.current_term && base.voted_for == t.node.voted_for);
        crate::disk_laws::lemma_kept_then(disk, hs, w, q);
        crate::disk_laws::lemma_kept_prefix(disk, outputs, hs + w, p);
        let d = crate::disk_laws::kept(disk, outputs, p);
        assert(d == crate::disk_laws::kept(base, w, q));
        crate::disk_laws::lemma_log_writes(base, w, q);
        lemma_kept_alike(base, disk, w, q);
        let like = with_term(crate::disk_laws::kept(disk, w, q), t.node);
        assert(d.log == like.log && d.snapshot == like.snapshot && d.current_term
            == like.current_term && d.voted_for == like.voted_for);
        let m = e.marks[q];
        assert(recorded(m.h, node.id, like, m.x));
        assert(recorded(m.h, node.id, d, m.x));
        m
    }
}

} // verus!
