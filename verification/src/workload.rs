//! Client request generators.
//!
//! Everything comes from a seeded generator on its own stream, so a workload is
//! as reproducible as the run it drives.
use crate::cluster::Cluster;
use crate::cluster_model::ClusterView;
use crate::kv::{CommandView, KvCommand};
use crate::text::push_decimal;
use crate::{ClientId, NodeId, Rng, Tick};
use vstd::prelude::*;

verus! {

/// The stream that a workload draws from, so that adding a draw in the simulator
/// does not change what the clients ask for.
pub const WORKLOAD_STREAM: u64 = 0x574f_524b_4c44_0000;

#[derive(Clone, Copy, Debug, PartialEq, Eq, Structural)]
pub struct WorkloadConfig {
    /// Distinct logical clients issuing requests concurrently.
    pub clients: u32,
    /// Key space. Small on purpose: contention is what makes a history
    /// interesting to check.
    pub keys: u32,
    /// Relative weights for the operation mix.
    pub weight_put: u32,
    pub weight_get: u32,
    pub weight_cas: u32,
    pub weight_delete: u32,
    /// Chance per mille of aiming at some node other than the current leader,
    /// modelling a client with a stale leader hint.
    pub stale_target_permille: u32,
    /// Ticks between requests, sampled uniformly.
    pub gap_min: Tick,
    pub gap_max: Tick,
}

impl Default for WorkloadConfig {
    fn default() -> (r: Self)
        ensures
            r == WorkloadConfig::standard(),
    {
        WorkloadConfig::standard()
    }
}

impl WorkloadConfig {
    /// A few clients on a few keys.
    #[verifier::allow_in_spec]
    pub fn standard() -> (r: Self)
        returns
            (WorkloadConfig {
                clients: 3,
                keys: 4,
                weight_put: 5,
                weight_get: 3,
                weight_cas: 2,
                weight_delete: 1,
                stale_target_permille: 150,
                gap_min: 80,
                gap_max: 300,
            }),
    {
        WorkloadConfig {
            clients: 3,
            keys: 4,
            weight_put: 5,
            weight_get: 3,
            weight_cas: 2,
            weight_delete: 1,
            stale_target_permille: 150,
            gap_min: 80,
            gap_max: 300,
        }
    }

    /// Writes only, one client. The simplest thing that still replicates.
    pub fn writes_only() -> (r: Self)
        ensures
            r == (WorkloadConfig {
                clients: 1,
                weight_get: 0,
                weight_cas: 0,
                weight_delete: 0,
                ..WorkloadConfig::standard()
            }),
    {
        WorkloadConfig {
            clients: 1,
            weight_get: 0,
            weight_cas: 0,
            weight_delete: 0,
            ..WorkloadConfig::standard()
        }
    }

    /// Heavy contention on very few keys.
    pub fn contended() -> (r: Self)
        ensures
            r == (WorkloadConfig {
                clients: 5,
                keys: 2,
                weight_cas: 5,
                ..WorkloadConfig::standard()
            }),
    {
        WorkloadConfig { clients: 5, keys: 2, weight_cas: 5, ..WorkloadConfig::standard() }
    }

    pub open spec fn total(self) -> u64 {
        (self.weight_put + self.weight_get + self.weight_cas + self.weight_delete) as u64
    }

    /// There are clients, keys, and something to do.
    pub open spec fn valid(self) -> bool {
        self.clients > 0 && self.keys > 0 && self.total() > 0
    }

    fn total_weight(&self) -> (r: u64)
        ensures
            r == self.total(),
            r == self.weight_put + self.weight_get + self.weight_cas + self.weight_delete,
    {
        self.weight_put as u64 + self.weight_get as u64 + self.weight_cas as u64
            + self.weight_delete as u64
    }
}

/// One generated request, before it has been aimed at a node.
#[derive(Debug, PartialEq, Eq)]
pub struct Request {
    pub client: ClientId,
    pub seq: u64,
    pub command: KvCommand,
}

pub struct AskView {
    pub client: u32,
    pub seq: u64,
    pub command: CommandView,
}

impl View for Request {
    type V = AskView;

    open spec fn view(&self) -> AskView {
        AskView { client: self.client, seq: self.seq, command: self.command@ }
    }
}

impl Clone for Request {
    fn clone(&self) -> (r: Self)
        ensures
            r@ == self@,
    {
        Request { client: self.client, seq: self.seq, command: self.command.clone() }
    }
}

/// A workload as a mathematical value.
#[verifier::ext_equal]
pub struct WorkloadView {
    pub cfg: WorkloadConfig,
    pub rng: u64,
    /// Per-client sequence numbers. A retry reuses its number.
    pub next_seq: Seq<u64>,
    pub issued: u64,
}

/// `prefix` and a number.
pub open spec fn numbered(prefix: Seq<char>, n: u64) -> Seq<char> {
    Seq::<char>::empty() + prefix + crate::text::decimal(n as nat)
}

fn numbered_text(prefix: &str, n: u64) -> (r: String)
    ensures
        r@ == numbered(prefix@, n),
{
    let mut r = String::new();
    r.append(prefix);
    push_decimal(&mut r, n);
    r
}

impl WorkloadView {
    pub open spec fn wf(self) -> bool {
        self.cfg.valid() && self.next_seq.len() == self.cfg.clients
    }

    pub open spec fn start(seed: u64, cfg: WorkloadConfig) -> WorkloadView {
        WorkloadView {
            cfg,
            rng: crate::rand::stream_state(seed, WORKLOAD_STREAM),
            next_seq: Seq::new(cfg.clients as nat, |i: int| 0u64),
            issued: 0,
        }
    }

    /// Who asks next.
    pub open spec fn next_client(self) -> u32 {
        crate::rand::in_range(self.rng, 0, self.cfg.clients as u64) as u32
    }

    /// The next request: who asks and under which number, then about which key,
    /// then for what.
    pub open spec fn ask(self) -> (AskView, WorkloadView) {
        let client = self.next_client();
        let seq = self.next_seq[client as int];
        let issued = self.issued.saturating_add(1);
        let r1 = crate::rand::advanced(self.rng);
        let key = numbered("k"@, crate::rand::in_range(r1, 0, self.cfg.keys as u64));
        let value = numbered("v"@, issued);
        let r2 = crate::rand::advanced(r1);
        let roll = crate::rand::in_range(r2, 0, self.cfg.total()) as int;
        let r3 = crate::rand::advanced(r2);
        let r4 = crate::rand::advanced(r3);
        let blind = crate::rand::comes_up(r3, 1, 2);
        let is_cas = self.cfg.weight_put + self.cfg.weight_get <= roll < self.cfg.weight_put
            + self.cfg.weight_get + self.cfg.weight_cas;
        let command = if roll < self.cfg.weight_put {
            CommandView::Put { key, value }
        } else if roll < self.cfg.weight_put + self.cfg.weight_get {
            CommandView::Get { key }
        } else if is_cas {
            CommandView::Cas {
                key,
                expect: if blind {
                    None
                } else {
                    Some(
                        numbered(
                            "v"@,
                            crate::rand::in_range(r4, 0, crate::model::max_of(issued, 1)),
                        ),
                    )
                },
                value,
            }
        } else {
            CommandView::Delete { key }
        };
        (
            AskView { client, seq, command },
            WorkloadView {
                rng: if !is_cas {
                    r3
                } else if blind {
                    r4
                } else {
                    crate::rand::advanced(r4)
                },
                next_seq: self.next_seq.update(client as int, seq.saturating_add(1)),
                issued,
                ..self
            },
        )
    }

    /// Which node to send to, usually the leader, and the workload after.
    pub open spec fn aim(self, leader: Option<u32>, nodes: nat) -> (u32, WorkloadView) {
        let draws = self.cfg.stale_target_permille > 0;
        let stale = draws && crate::rand::comes_up(
            self.rng,
            self.cfg.stale_target_permille as u64,
            1000,
        );
        let r1 = if draws {
            crate::rand::advanced(self.rng)
        } else {
            self.rng
        };
        match leader {
            Some(id) if !stale => (id, WorkloadView { rng: r1, ..self }),
            _ => (
                crate::rand::in_range(r1, 0, nodes as u64) as u32,
                WorkloadView { rng: crate::rand::advanced(r1), ..self },
            ),
        }
    }

    pub open spec fn rewind(self, client: u32) -> WorkloadView {
        WorkloadView {
            next_seq: self.next_seq.update(
                client as int,
                self.next_seq[client as int].saturating_sub(1),
            ),
            ..self
        }
    }

    pub open spec fn gap(self) -> u64 {
        crate::faults::sampled(self.cfg.gap_min, self.cfg.gap_max, self.rng)
    }

    pub open spec fn after_gap(self) -> WorkloadView {
        WorkloadView {
            rng: crate::faults::after_sample(self.cfg.gap_min, self.cfg.gap_max, self.rng),
            ..self
        }
    }
}

/// Sequence numbers are per client and monotonic: a request takes its client's
/// next number, and no other client's number moves. Handing a number back makes
/// it the next one again.
pub proof fn law_numbers_are_gapless(w: WorkloadView, other: u32)
    requires
        w.wf(),
        w.next_seq[w.next_client() as int] < u64::MAX,
        other < w.cfg.clients,
    ensures
        ({
            let (request, after) = w.ask();
            &&& after.wf()
            &&& request.client < w.cfg.clients
            &&& request.seq == w.next_seq[request.client as int]
            &&& after.next_seq[request.client as int] == request.seq + 1
            &&& other != request.client ==> after.next_seq[other as int]
                == w.next_seq[other as int]
            &&& after.rewind(request.client).next_seq == w.next_seq
        }),
{
    crate::rand::lemma_range_bounds(w.rng, 0, w.cfg.clients as u64);
    let (request, after) = w.ask();
    assert(after.rewind(request.client).next_seq =~= w.next_seq);
}

#[derive(Debug)]
pub struct Workload {
    cfg: WorkloadConfig,
    rng: Rng,
    next_seq: Vec<u64>,
    issued: u64,
}

impl View for Workload {
    type V = WorkloadView;

    closed spec fn view(&self) -> WorkloadView {
        WorkloadView {
            cfg: self.cfg,
            rng: self.rng@,
            next_seq: self.next_seq@,
            issued: self.issued,
        }
    }
}

impl Workload {
    pub fn new(seed: u64, cfg: WorkloadConfig) -> (r: Self)
        requires
            cfg.valid(),
        ensures
            r@ == WorkloadView::start(seed, cfg),
            r@.wf(),
    {
        let mut next_seq: Vec<u64> = Vec::new();
        let mut i: u32 = 0;
        while i < cfg.clients
            invariant
                i <= cfg.clients,
                next_seq@ == Seq::new(i as nat, |k: int| 0u64),
            decreases cfg.clients - i,
        {
            next_seq.push(0);
            i = i + 1;
            assert(next_seq@ =~= Seq::new(i as nat, |k: int| 0u64));
        }
        Workload { cfg, rng: Rng::derive(seed, WORKLOAD_STREAM), next_seq, issued: 0 }
    }

    pub fn issued(&self) -> (r: u64)
        ensures
            r == self@.issued,
    {
        self.issued
    }

    pub fn config(&self) -> (r: &WorkloadConfig)
        ensures
            *r == self@.cfg,
    {
        &self.cfg
    }

    pub fn next_request(&mut self) -> (r: Request)
        requires
            old(self)@.wf(),
        ensures
            (r@, final(self)@) == old(self)@.ask(),
            final(self)@.wf(),
            r.client < old(self)@.cfg.clients,
    {
        let clients: u64 = self.cfg.clients as u64;
        proof {
            crate::rand::lemma_range_bounds(self.rng@, 0, clients);
        }
        let drawn: u64 = self.rng.gen_range(0, clients);
        let client: u32 = drawn as u32;
        let seq: u64 = self.next_seq[client as usize];
        self.next_seq.set(client as usize, seq.saturating_add(1));
        self.issued = self.issued.saturating_add(1);
        let key = numbered_text("k", self.rng.gen_range(0, self.cfg.keys as u64));
        let value = numbered_text("v", self.issued);
        let total: u64 = self.cfg.total_weight();
        let roll: u64 = self.rng.gen_range(0, total);
        let put: u64 = self.cfg.weight_put as u64;
        let get: u64 = put + self.cfg.weight_get as u64;
        let cas: u64 = get + self.cfg.weight_cas as u64;
        let command = if roll < put {
            KvCommand::Put { key, value }
        } else if roll < get {
            KvCommand::Get { key }
        } else if roll < cas {
            // Half the time expect nothing, half the time expect a value that
            // may or may not be there. Both outcomes are worth generating.
            let expect = if self.rng.chance(1, 2) {
                None
            } else {
                let most: u64 = if self.issued < 1 {
                    1
                } else {
                    self.issued
                };
                Some(numbered_text("v", self.rng.gen_range(0, most)))
            };
            KvCommand::Cas { key, expect, value }
        } else {
            KvCommand::Delete { key }
        };
        Request { client, seq, command }
    }

    /// Which node to send to. Usually the leader, sometimes not.
    pub fn target(&mut self, leader: Option<NodeId>, nodes: usize) -> (r: NodeId)
        requires
            0 < nodes <= u32::MAX,
        ensures
            (r, final(self)@) == old(self)@.aim(leader, nodes as nat),
            leader is None ==> r < nodes,
            leader matches Some(id) ==> r == id || r < nodes,
    {
        let stale = self.cfg.stale_target_permille > 0 && self.rng.chance(
            self.cfg.stale_target_permille as u64,
            1000,
        );
        let known: Option<NodeId> = if stale {
            None
        } else {
            leader
        };
        match known {
            Some(id) => id,
            None => {
                proof {
                    crate::rand::lemma_range_bounds(self.rng@, 0, nodes as u64);
                }
                let drawn: u64 = self.rng.gen_range(0, nodes as u64);
                drawn as u32
            },
        }
    }

    /// Undo the most recent sequence number handed out for a client.
    ///
    /// Used when a generated request is not actually sent, so a client's
    /// numbering has no holes in it.
    pub fn rewind(&mut self, client: ClientId)
        requires
            old(self)@.wf(),
            client < old(self)@.cfg.clients,
        ensures
            final(self)@ == old(self)@.rewind(client),
    {
        let slot: u64 = self.next_seq[client as usize];
        self.next_seq.set(client as usize, slot.saturating_sub(1));
    }

    pub fn gap(&mut self) -> (r: Tick)
        ensures
            r == old(self)@.gap(),
            final(self)@ == old(self)@.after_gap(),
    {
        crate::faults::sample(self.cfg.gap_min, self.cfg.gap_max, &mut self.rng)
    }
}

// ---------------------------------------------------------------------------
// A client that keeps trying
// ---------------------------------------------------------------------------

#[derive(Debug)]
struct InFlight {
    client: ClientId,
    seq: u64,
    command: KvCommand,
    attempts: u32,
    resend_at: Tick,
}

pub struct FlightView {
    pub client: u32,
    pub seq: u64,
    pub command: CommandView,
    pub attempts: u32,
    pub resend_at: u64,
}

impl View for InFlight {
    type V = FlightView;

    closed spec fn view(&self) -> FlightView {
        FlightView {
            client: self.client,
            seq: self.seq,
            command: self.command@,
            attempts: self.attempts,
            resend_at: self.resend_at,
        }
    }
}

spec fn flights_view(s: Seq<InFlight>) -> Seq<FlightView> {
    Seq::new(s.len(), |i: int| s[i]@)
}

spec fn asks_view(s: Seq<Request>) -> Seq<AskView> {
    Seq::new(s.len(), |i: int| s[i]@)
}

/// A client driver as a mathematical value.
#[verifier::ext_equal]
pub struct DriverView {
    pub work: WorkloadView,
    pub in_flight: Seq<FlightView>,
    pub retry_after: u64,
    pub max_attempts: u32,
    pub retries: u64,
    pub abandoned: u64,
}

/// What to do about a request in flight.
pub enum Fate {
    /// It was answered.
    Done,
    /// Not yet time to do anything.
    Wait,
    Resend,
    GiveUp,
}

impl DriverView {
    pub open spec fn wf(self) -> bool {
        self.work.wf()
    }

    pub open spec fn fate(self, f: FlightView, sim: ClusterView) -> Fate {
        if sim.history.is_answered(f.client, f.seq) {
            Fate::Done
        } else if sim.now < f.resend_at {
            Fate::Wait
        } else if f.attempts >= self.max_attempts {
            Fate::GiveUp
        } else {
            Fate::Resend
        }
    }

    /// What is still in flight of the first `n`.
    pub open spec fn kept(self, sim: ClusterView, n: int) -> Seq<FlightView>
        decreases n,
    {
        if n <= 0 {
            Seq::empty()
        } else {
            let before = self.kept(sim, n - 1);
            let f = self.in_flight[n - 1];
            match self.fate(f, sim) {
                Fate::Wait => before.push(f),
                Fate::Resend => before.push(
                    FlightView {
                        attempts: (f.attempts + 1) as u32,
                        resend_at: sim.now.saturating_add(self.retry_after),
                        ..f
                    },
                ),
                _ => before,
            }
        }
    }

    /// What is to be sent again of the first `n`.
    pub open spec fn overdue(self, sim: ClusterView, n: int) -> Seq<AskView>
        decreases n,
    {
        if n <= 0 {
            Seq::empty()
        } else {
            let before = self.overdue(sim, n - 1);
            let f = self.in_flight[n - 1];
            if self.fate(f, sim) is Resend {
                before.push(AskView { client: f.client, seq: f.seq, command: f.command })
            } else {
                before
            }
        }
    }

    /// What the clients stop trying of the first `n`.
    pub open spec fn hopeless(self, sim: ClusterView, n: int) -> Seq<(u32, u64)>
        decreases n,
    {
        if n <= 0 {
            Seq::empty()
        } else {
            let before = self.hopeless(sim, n - 1);
            let f = self.in_flight[n - 1];
            if self.fate(f, sim) is GiveUp {
                before.push((f.client, f.seq))
            } else {
                before
            }
        }
    }

    /// The first `n` of these requests are given up.
    pub open spec fn give_up(
        self,
        sim: ClusterView,
        list: Seq<(u32, u64)>,
        n: int,
    ) -> (DriverView, ClusterView)
        decreases n,
    {
        if n <= 0 {
            (self, sim)
        } else {
            let (d, s) = self.give_up(sim, list, n - 1);
            (
                DriverView { abandoned: d.abandoned.saturating_add(1), ..d },
                s.abandon(list[n - 1].0, list[n - 1].1),
            )
        }
    }

    /// Aim a request and send it.
    pub open spec fn fire(self, sim: ClusterView, ask: AskView) -> (DriverView, ClusterView) {
        let (target, work) = self.work.aim(sim.leader(), sim.hosts.len());
        (
            DriverView { work, ..self },
            sim.submit(target, ask.client, ask.seq, ask.command),
        )
    }

    /// The first `n` of these requests are sent again.
    pub open spec fn resend(
        self,
        sim: ClusterView,
        list: Seq<AskView>,
        n: int,
    ) -> (DriverView, ClusterView)
        decreases n,
    {
        if n <= 0 {
            (self, sim)
        } else {
            let (d, s) = self.resend(sim, list, n - 1);
            DriverView { retries: d.retries.saturating_add(1), ..d }.fire(s, list[n - 1])
        }
    }

    /// Some request of this client is in flight.
    pub open spec fn is_waiting(self, client: u32) -> bool {
        exists|i: int|
            0 <= i < self.in_flight.len() && (#[trigger] self.in_flight[i]).client == client
    }

    /// A new request, for a client that is not already waiting on one.
    pub open spec fn issue(self, sim: ClusterView) -> (DriverView, ClusterView) {
        let (ask, work) = self.work.ask();
        let asked = DriverView { work, ..self };
        if asked.is_waiting(ask.client) {
            (DriverView { work: work.rewind(ask.client), ..asked }, sim)
        } else {
            let (d, s) = asked.fire(sim, ask);
            (
                DriverView {
                    in_flight: d.in_flight.push(
                        FlightView {
                            client: ask.client,
                            seq: ask.seq,
                            command: ask.command,
                            attempts: 1,
                            resend_at: sim.now.saturating_add(self.retry_after),
                        },
                    ),
                    ..d
                },
                s,
            )
        }
    }

    /// Everything before a new request is issued.
    pub open spec fn tidied(self, sim: ClusterView) -> (DriverView, ClusterView) {
        let n = self.in_flight.len() as int;
        let overdue = self.overdue(sim, n);
        let hopeless = self.hopeless(sim, n);
        let kept = DriverView { in_flight: self.kept(sim, n), ..self };
        let (d, s) = kept.give_up(sim, hopeless, hopeless.len() as int);
        d.resend(s, overdue, overdue.len() as int)
    }

    /// One round of the clients: the driver after it, the cluster after it, and
    /// how long to run before the next one.
    pub open spec fn step(self, sim: ClusterView) -> (DriverView, ClusterView, u64) {
        let (d1, s1) = self.tidied(sim);
        let (d2, s2) = d1.issue(s1);
        (DriverView { work: d2.work.after_gap(), ..d2 }, s2, d2.work.gap())
    }
}

/// No client has two requests in flight.
pub open spec fn one_each(flights: Seq<FlightView>) -> bool {
    forall|i: int, j: int|
        0 <= i < j < flights.len() ==> (#[trigger] flights[i]).client != (
        #[trigger] flights[j]).client
}

pub(crate) proof fn lemma_kept_clients(d: DriverView, sim: ClusterView, n: int)
    requires
        0 <= n <= d.in_flight.len(),
        one_each(d.in_flight),
    ensures
        one_each(d.kept(sim, n)),
        forall|i: int|
            0 <= i < d.kept(sim, n).len() ==> exists|k: int|
                0 <= k < n && (#[trigger] d.in_flight[k]).client == (
                #[trigger] d.kept(sim, n)[i]).client,
    decreases n,
{
    if n > 0 {
        lemma_kept_clients(d, sim, n - 1);
        let before = d.kept(sim, n - 1);
        let after = d.kept(sim, n);
        assert forall|i: int| 0 <= i < after.len() implies exists|k: int|
            0 <= k < n && (#[trigger] d.in_flight[k]).client == (#[trigger] after[i]).client by {
            if i < before.len() {
                assert(after[i] == before[i]);
                let k = choose|k: int|
                    0 <= k < n - 1 && (#[trigger] d.in_flight[k]).client == before[i].client;
                assert(d.in_flight[k].client == after[i].client);
            } else {
                assert(d.in_flight[n - 1].client == after[i].client);
            }
        }
        assert forall|i: int, j: int| 0 <= i < j < after.len() implies (
        #[trigger] after[i]).client != (#[trigger] after[j]).client by {
            assert(after[i] == before[i]);
            if j == before.len() {
                let k = choose|k: int|
                    0 <= k < n - 1 && (#[trigger] d.in_flight[k]).client == before[i].client;
                assert(d.in_flight[k].client != d.in_flight[n - 1].client);
            } else {
                assert(after[j] == before[j]);
            }
        }
    }
}

proof fn lemma_give_up_keeps(d: DriverView, sim: ClusterView, list: Seq<(u32, u64)>, n: int)
    ensures
        d.give_up(sim, list, n).0.in_flight == d.in_flight,
    decreases n,
{
    if n > 0 {
        lemma_give_up_keeps(d, sim, list, n - 1);
    }
}

proof fn lemma_resend_keeps(d: DriverView, sim: ClusterView, list: Seq<AskView>, n: int)
    ensures
        d.resend(sim, list, n).0.in_flight == d.in_flight,
    decreases n,
{
    if n > 0 {
        lemma_resend_keeps(d, sim, list, n - 1);
    }
}

proof fn lemma_give_up_frame(d: DriverView, sim: ClusterView, list: Seq<(u32, u64)>, n: int)
    ensures
        d.give_up(sim, list, n).0.work == d.work,
        d.give_up(sim, list, n).1.now == sim.now,
    decreases n,
{
    if n > 0 {
        lemma_give_up_frame(d, sim, list, n - 1);
    }
}

proof fn lemma_resend_frame(d: DriverView, sim: ClusterView, list: Seq<AskView>, n: int)
    ensures
        d.resend(sim, list, n).0.work.cfg == d.work.cfg,
        d.resend(sim, list, n).1.now == sim.now,
    decreases n,
{
    reveal(ClusterView::submit);
    if n > 0 {
        lemma_resend_frame(d, sim, list, n - 1);
    }
}

/// A round of the clients takes no time and leaves their settings alone.
pub proof fn lemma_step_keeps(d: DriverView, sim: ClusterView)
    ensures
        d.step(sim).0.work.cfg == d.work.cfg,
        d.step(sim).1.now == sim.now,
        d.tidied(sim).0.issue(d.tidied(sim).1).0.work.cfg == d.work.cfg,
{
    reveal(ClusterView::submit);
    let n = d.in_flight.len() as int;
    let kept = DriverView { in_flight: d.kept(sim, n), ..d };
    let hopeless = d.hopeless(sim, n);
    let overdue = d.overdue(sim, n);
    let (d0, s0) = kept.give_up(sim, hopeless, hopeless.len() as int);
    lemma_give_up_frame(kept, sim, hopeless, hopeless.len() as int);
    lemma_resend_frame(d0, s0, overdue, overdue.len() as int);
}

/// One outstanding request per client, always: a session table keeps a single
/// slot per client, so a client with several requests in flight could be handed
/// the wrong command's answer.
pub proof fn law_one_request_per_client(d: DriverView, sim: ClusterView)
    requires
        one_each(d.in_flight),
    ensures
        one_each(d.step(sim).0.in_flight),
{
    let n = d.in_flight.len() as int;
    lemma_kept_clients(d, sim, n);
    let kept = DriverView { in_flight: d.kept(sim, n), ..d };
    let hopeless = d.hopeless(sim, n);
    let overdue = d.overdue(sim, n);
    let (d0, s0) = kept.give_up(sim, hopeless, hopeless.len() as int);
    lemma_give_up_keeps(kept, sim, hopeless, hopeless.len() as int);
    lemma_resend_keeps(d0, s0, overdue, overdue.len() as int);
    let (d1, s1) = d.tidied(sim);
    assert(one_each(d1.in_flight));
    let (ask, work) = d1.work.ask();
    let asked = DriverView { work, ..d1 };
    let (d2, s2) = d1.issue(s1);
    if !asked.is_waiting(ask.client) {
        assert forall|i: int, j: int| 0 <= i < j < d2.in_flight.len() implies (
        #[trigger] d2.in_flight[i]).client != (#[trigger] d2.in_flight[j]).client by {
            assert(d2.in_flight[i] == d1.in_flight[i]);
            assert(asked.in_flight[i] == d1.in_flight[i]);
            if j < d1.in_flight.len() {
                assert(d2.in_flight[j] == d1.in_flight[j]);
            }
        }
    }
}

/// A client that keeps trying.
///
/// Retries are what make deduplication testable: a client that never hears back
/// resends with the **same** sequence number, so the command can reach the log
/// twice.
#[derive(Debug)]
pub struct ClientDriver {
    work: Workload,
    in_flight: Vec<InFlight>,
    /// Ticks to wait for an answer before resending.
    pub retry_after: Tick,
    /// Attempts before the client gives up.
    pub max_attempts: u32,
    retries: u64,
    abandoned: u64,
}

impl View for ClientDriver {
    type V = DriverView;

    closed spec fn view(&self) -> DriverView {
        DriverView {
            work: self.work@,
            in_flight: flights_view(self.in_flight@),
            retry_after: self.retry_after,
            max_attempts: self.max_attempts,
            retries: self.retries,
            abandoned: self.abandoned,
        }
    }
}

impl ClientDriver {
    pub fn new(seed: u64, cfg: WorkloadConfig, retry_after: Tick, max_attempts: u32) -> (r: Self)
        requires
            cfg.valid(),
        ensures
            r@ == (DriverView {
                work: WorkloadView::start(seed, cfg),
                in_flight: Seq::empty(),
                retry_after,
                max_attempts,
                retries: 0,
                abandoned: 0,
            }),
            r@.wf(),
    {
        let r = ClientDriver {
            work: Workload::new(seed, cfg),
            in_flight: Vec::new(),
            retry_after,
            max_attempts,
            retries: 0,
            abandoned: 0,
        };
        assert(r@.in_flight =~= Seq::empty());
        r
    }

    /// Retries sent.
    pub fn retries(&self) -> (r: u64)
        ensures
            r == self@.retries,
    {
        self.retries
    }

    /// Requests the client stopped trying.
    pub fn abandoned(&self) -> (r: u64)
        ensures
            r == self@.abandoned,
    {
        self.abandoned
    }

    pub fn in_flight(&self) -> (r: usize)
        ensures
            r == self@.in_flight.len(),
    {
        self.in_flight.len()
    }

    pub fn issued(&self) -> (r: u64)
        ensures
            r == self@.work.issued,
    {
        self.work.issued()
    }

    /// Sort what is in flight: what stays, what is sent again, what is given up.
    fn sort_out(&mut self, sim: &Cluster) -> (r: (Vec<Request>, Vec<(ClientId, u64)>))
        requires
            old(self)@.wf(),
            sim.wf(),
        ensures
            final(self)@ == (DriverView {
                in_flight: old(self)@.kept(sim@, old(self)@.in_flight.len() as int),
                ..old(self)@
            }),
            asks_view(r.0@) == old(self)@.overdue(sim@, old(self)@.in_flight.len() as int),
            r.1@ == old(self)@.hopeless(sim@, old(self)@.in_flight.len() as int),
    {
        let now: u64 = sim.now();
        let ghost d = self@;
        let mut still_waiting: Vec<InFlight> = Vec::new();
        let mut resend: Vec<Request> = Vec::new();
        let mut give_up: Vec<(ClientId, u64)> = Vec::new();
        let mut i: usize = 0;
        assert(flights_view(still_waiting@) =~= Seq::empty());
        assert(asks_view(resend@) =~= Seq::empty());
        while i < self.in_flight.len()
            invariant
                *self == *old(self),
                d == self@,
                sim.wf(),
                now == sim@.now,
                i <= self.in_flight@.len(),
                flights_view(still_waiting@) == d.kept(sim@, i as int),
                asks_view(resend@) == d.overdue(sim@, i as int),
                give_up@ == d.hopeless(sim@, i as int),
            decreases self.in_flight@.len() - i,
        {
            let f = &self.in_flight[i];
            assert(d.in_flight[i as int] == f@);
            let ghost waiting_before = still_waiting@;
            let ghost resend_before = resend@;
            if !sim.history().is_answered(f.client, f.seq) {
                if now >= f.resend_at {
                    if f.attempts >= self.max_attempts {
                        give_up.push((f.client, f.seq));
                    } else {
                        let again = InFlight {
                            client: f.client,
                            seq: f.seq,
                            command: f.command.clone(),
                            attempts: f.attempts + 1,
                            resend_at: now.saturating_add(self.retry_after),
                        };
                        let ghost av = again@;
                        still_waiting.push(again);
                        assert(flights_view(still_waiting@) =~= flights_view(waiting_before).push(
                            av,
                        ));
                        let ask = Request {
                            client: f.client,
                            seq: f.seq,
                            command: f.command.clone(),
                        };
                        let ghost kv = ask@;
                        resend.push(ask);
                        assert(asks_view(resend@) =~= asks_view(resend_before).push(kv));
                    }
                } else {
                    let same = InFlight {
                        client: f.client,
                        seq: f.seq,
                        command: f.command.clone(),
                        attempts: f.attempts,
                        resend_at: f.resend_at,
                    };
                    let ghost sv = same@;
                    still_waiting.push(same);
                    assert(flights_view(still_waiting@) =~= flights_view(waiting_before).push(sv));
                }
            }
            i = i + 1;
        }
        self.in_flight = still_waiting;
        (resend, give_up)
    }

    /// Aim a request and send it.
    fn fire(&mut self, sim: &mut Cluster, ask: &Request)
        requires
            old(self)@.wf(),
            old(sim).wf(),
        ensures
            final(self)@.wf(),
            final(sim).wf(),
            final(sim)@.hosts == old(sim)@.hosts,
            (final(self)@, final(sim)@) == old(self)@.fire(old(sim)@, ask@),
    {
        proof {
            sim.lemma_size();
        }
        let leader = sim.leader();
        let nodes: usize = sim.node_ids().len();
        let target: u32 = self.work.target(leader, nodes);
        sim.submit(target, ask.client, ask.seq, ask.command.clone());
    }

    /// Give up on what is hopeless, and resend what is overdue.
    fn tidy(&mut self, sim: &mut Cluster)
        requires
            old(self)@.wf(),
            old(sim).wf(),
        ensures
            final(self)@.wf(),
            final(sim).wf(),
            final(sim)@.hosts == old(sim)@.hosts,
            (final(self)@, final(sim)@) == old(self)@.tidied(old(sim)@),
    {
        let ghost s0 = sim@;
        let (overdue, hopeless) = self.sort_out(sim);
        let ghost kept = self@;
        let mut i: usize = 0;
        while i < hopeless.len()
            invariant
                i <= hopeless@.len(),
                self@.wf(),
                sim.wf(),
                sim@.hosts == s0.hosts,
                (self@, sim@) == kept.give_up(s0, hopeless@, i as int),
            decreases hopeless@.len() - i,
        {
            self.abandoned = self.abandoned.saturating_add(1);
            sim.abandon_request(hopeless[i].0, hopeless[i].1);
            i = i + 1;
        }
        let ghost d1 = self@;
        let ghost s1 = sim@;
        let ghost asks = asks_view(overdue@);
        let mut j: usize = 0;
        while j < overdue.len()
            invariant
                j <= overdue@.len(),
                asks == asks_view(overdue@),
                self@.wf(),
                sim.wf(),
                sim@.hosts == s0.hosts,
                (self@, sim@) == d1.resend(s1, asks, j as int),
            decreases overdue@.len() - j,
        {
            assert(asks[j as int] == overdue@[j as int]@);
            self.retries = self.retries.saturating_add(1);
            // Aim somewhere else this time: a stale leader hint is the usual
            // reason a client is retrying at all.
            self.fire(sim, &overdue[j]);
            j = j + 1;
        }
    }

    /// Is some request of this client in flight?
    fn is_waiting(&self, client: ClientId) -> (r: bool)
        ensures
            r == self@.is_waiting(client),
    {
        let mut i: usize = 0;
        while i < self.in_flight.len()
            invariant
                i <= self.in_flight@.len(),
                forall|k: int| 0 <= k < i ==> (#[trigger] self@.in_flight[k]).client != client,
            decreases self.in_flight@.len() - i,
        {
            if self.in_flight[i].client == client {
                assert(self@.in_flight[i as int].client == client);
                return true;
            }
            i = i + 1;
        }
        false
    }

    fn issue(&mut self, sim: &mut Cluster)
        requires
            old(self)@.wf(),
            old(sim).wf(),
        ensures
            final(self)@.wf(),
            final(sim).wf(),
            final(sim)@.hosts == old(sim)@.hosts,
            (final(self)@, final(sim)@) == old(self)@.issue(old(sim)@),
    {
        let now: u64 = sim.now();
        let req = self.work.next_request();
        if self.is_waiting(req.client) {
            // Hand the sequence number back so the client's numbering stays
            // gapless.
            self.work.rewind(req.client);
        } else {
            self.fire(sim, &req);
            let ghost before = self.in_flight@;
            let flight = InFlight {
                client: req.client,
                seq: req.seq,
                command: req.command,
                attempts: 1,
                resend_at: now.saturating_add(self.retry_after),
            };
            let ghost fv = flight@;
            self.in_flight.push(flight);
            assert(flights_view(self.in_flight@) =~= flights_view(before).push(fv));
        }
    }

    /// Issue one new request, resend anything overdue, and drop anything the
    /// client has given up on. Returns how long to run before the next call.
    ///
    /// **One outstanding request per client**: concurrency here comes from
    /// having several clients.
    pub fn step(&mut self, sim: &mut Cluster) -> (r: Tick)
        requires
            old(self)@.wf(),
            old(sim).wf(),
        ensures
            final(self)@.wf(),
            final(sim).wf(),
            final(sim)@.hosts == old(sim)@.hosts,
            (final(self)@, final(sim)@, r) == old(self)@.step(old(sim)@),
    {
        self.tidy(sim);
        self.issue(sim);
        self.work.gap()
    }
}

} // verus!
