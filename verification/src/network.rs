//! The network model.
//!
//! Every message a node sends passes through here. All of it is driven by the
//! simulator's seeded generator, so a lossy, reordering, duplicating network is
//! still perfectly reproducible. Probabilities are integers per mille.
//!
//! Counters and delivery times stop at the largest value they can hold.
use crate::faults::Partitions;
use crate::rand::Rng;
use crate::{NodeId, Tick};
use std::collections::BTreeMap;
use vstd::prelude::*;

verus! {

broadcast use {vstd::laws_cmp::group_laws_cmp, vstd::std_specs::btree::group_btree_axioms};

#[derive(Clone, Copy, Debug, PartialEq, Eq, Structural)]
pub enum LatencyModel {
    /// Every message takes exactly this long. With fixed latency, messages on a
    /// link cannot reorder on their own.
    Fixed(Tick),
    /// Uniform in `[min, max)`. Reordering falls out of this for free.
    Uniform { min: Tick, max: Tick },
    /// Mostly fast, occasionally terrible.
    LongTail {
        min: Tick,
        max: Tick,
        /// Chance per mille that a message takes the tail path.
        tail_permille: u32,
        /// How much worse the tail is.
        tail_multiplier: u32,
    },
}

/// `a * b`, or the largest `u64` where that is more.
pub open spec fn capped_product(a: u64, b: u64) -> u64 {
    if a * b > u64::MAX {
        u64::MAX
    } else {
        (a * b) as u64
    }
}

impl LatencyModel {
    /// How long a message takes, drawn in `state`.
    pub open spec fn drawn(self, state: u64) -> u64 {
        match self {
            LatencyModel::Fixed(d) => d,
            LatencyModel::Uniform { min, max } => crate::faults::sampled(min, max, state),
            LatencyModel::LongTail { min, max, tail_permille, tail_multiplier } => {
                let base = crate::faults::sampled(min, max, state);
                if tail_permille > 0 && crate::rand::comes_up(
                    crate::faults::after_sample(min, max, state),
                    tail_permille as u64,
                    1000,
                ) {
                    capped_product(base, tail_multiplier as u64)
                } else {
                    base
                }
            },
        }
    }

    /// The generator's state after that draw.
    pub open spec fn after(self, state: u64) -> u64 {
        match self {
            LatencyModel::Fixed(d) => state,
            LatencyModel::Uniform { min, max } => crate::faults::after_sample(min, max, state),
            LatencyModel::LongTail { min, max, tail_permille, tail_multiplier } => {
                let next = crate::faults::after_sample(min, max, state);
                if tail_permille > 0 {
                    crate::rand::advanced(next)
                } else {
                    next
                }
            },
        }
    }

    fn sample(&self, rng: &mut Rng) -> (r: Tick)
        ensures
            r == self.drawn(old(rng)@),
            final(rng)@ == self.after(old(rng)@),
    {
        match *self {
            LatencyModel::Fixed(d) => d,
            LatencyModel::Uniform { min, max } => crate::faults::sample(min, max, rng),
            LatencyModel::LongTail { min, max, tail_permille, tail_multiplier } => {
                let base: u64 = crate::faults::sample(min, max, rng);
                if tail_permille > 0 && rng.chance(tail_permille as u64, 1000) {
                    match base.checked_mul(tail_multiplier as u64) {
                        Some(slow) => slow,
                        None => u64::MAX,
                    }
                } else {
                    base
                }
            },
        }
    }
}

#[derive(Clone, Copy, Debug, PartialEq, Eq, Structural)]
pub struct NetworkConfig {
    pub latency: LatencyModel,
    /// Chance per mille that a message is silently lost.
    pub drop_permille: u32,
    /// Chance per mille that a message is delivered twice.
    pub duplicate_permille: u32,
    /// Chance per mille that a message deliberately overtakes an earlier one on
    /// the same link.
    pub reorder_permille: u32,
}

impl Default for NetworkConfig {
    fn default() -> (r: Self)
        ensures
            r == NetworkConfig::perfect(),
    {
        NetworkConfig::perfect()
    }
}

impl NetworkConfig {
    /// No faults at all: 10 ticks against a 50-tick heartbeat.
    #[verifier::allow_in_spec]
    pub fn perfect() -> (r: Self)
        returns
            (NetworkConfig {
                latency: LatencyModel::Fixed(10),
                drop_permille: 0,
                duplicate_permille: 0,
                reorder_permille: 0,
            }),
    {
        NetworkConfig {
            latency: LatencyModel::Fixed(10),
            drop_permille: 0,
            duplicate_permille: 0,
            reorder_permille: 0,
        }
    }

    /// A network that misbehaves in every way, but mildly enough that the
    /// cluster still makes steady progress.
    #[verifier::allow_in_spec]
    pub fn flaky() -> (r: Self)
        returns
            (NetworkConfig {
                latency: LatencyModel::Uniform { min: 5, max: 25 },
                drop_permille: 50,
                duplicate_permille: 20,
                reorder_permille: 50,
            }),
    {
        NetworkConfig {
            latency: LatencyModel::Uniform { min: 5, max: 25 },
            drop_permille: 50,
            duplicate_permille: 20,
            reorder_permille: 50,
        }
    }

    /// Mostly fast with rare very slow messages.
    #[verifier::allow_in_spec]
    pub fn long_tail() -> (r: Self)
        returns
            (NetworkConfig {
                latency: LatencyModel::LongTail {
                    min: 5,
                    max: 20,
                    tail_permille: 30,
                    tail_multiplier: 20,
                },
                drop_permille: 20,
                duplicate_permille: 20,
                reorder_permille: 30,
            }),
    {
        NetworkConfig {
            latency: LatencyModel::LongTail {
                min: 5,
                max: 20,
                tail_permille: 30,
                tail_multiplier: 20,
            },
            drop_permille: 20,
            duplicate_permille: 20,
            reorder_permille: 30,
        }
    }

    /// Bad enough to threaten liveness: a quarter of messages vanish and the
    /// tail is brutal. Safety must still hold.
    #[verifier::allow_in_spec]
    pub fn hostile() -> (r: Self)
        returns
            (NetworkConfig {
                latency: LatencyModel::LongTail {
                    min: 5,
                    max: 40,
                    tail_permille: 100,
                    tail_multiplier: 15,
                },
                drop_permille: 250,
                duplicate_permille: 80,
                reorder_permille: 100,
            }),
    {
        NetworkConfig {
            latency: LatencyModel::LongTail {
                min: 5,
                max: 40,
                tail_permille: 100,
                tail_multiplier: 15,
            },
            drop_permille: 250,
            duplicate_permille: 80,
            reorder_permille: 100,
        }
    }

    pub open spec fn perfect_spec(self) -> bool {
        self.drop_permille == 0 && self.duplicate_permille == 0 && self.reorder_permille == 0
            && self.latency is Fixed
    }

    pub fn is_perfect(&self) -> (r: bool)
        ensures
            r == self.perfect_spec(),
    {
        let fixed = match self.latency {
            LatencyModel::Fixed(_) => true,
            _ => false,
        };
        self.drop_permille == 0 && self.duplicate_permille == 0 && self.reorder_permille == 0
            && fixed
    }
}

/// What the network decided to do with one message.
#[derive(Clone, Copy, Debug, PartialEq, Eq, Structural)]
pub enum Routed {
    /// Blocked by a partition. Indistinguishable from a drop to the sender, but
    /// tracked separately so a trace shows *why* a message vanished.
    Partitioned,
    /// Swallowed. The sender is never told.
    Dropped,
    Once(Tick),
    /// Delivered twice, at two independently sampled times.
    Twice(Tick, Tick),
}

/// Coverage counters. A run that reports no violations is only meaningful
/// alongside evidence that the faults actually fired.
#[derive(Clone, Copy, Debug, PartialEq, Eq, Structural)]
pub struct NetworkStats {
    pub sent: u64,
    pub delivered: u64,
    pub dropped: u64,
    pub partitioned: u64,
    pub duplicated: u64,
    pub reordered: u64,
    pub total_delay: u64,
    pub max_delay: Tick,
}

impl NetworkStats {
    pub open spec fn zero() -> NetworkStats {
        NetworkStats {
            sent: 0,
            delivered: 0,
            dropped: 0,
            partitioned: 0,
            duplicated: 0,
            reordered: 0,
            total_delay: 0,
            max_delay: 0,
        }
    }

    pub fn mean_delay(&self) -> (r: Tick)
        ensures
            r == (if self.delivered == 0 {
                0
            } else {
                self.total_delay / self.delivered
            }),
    {
        if self.delivered == 0 {
            0
        } else {
            self.total_delay / self.delivered
        }
    }
}

impl Default for NetworkStats {
    fn default() -> (r: Self)
        ensures
            r == NetworkStats::zero(),
    {
        NetworkStats {
            sent: 0,
            delivered: 0,
            dropped: 0,
            partitioned: 0,
            duplicated: 0,
            reordered: 0,
            total_delay: 0,
            max_delay: 0,
        }
    }
}

/// The network as a mathematical value.
#[verifier::ext_equal]
pub struct NetView {
    pub cfg: NetworkConfig,
    /// The links that are down.
    pub blocked: Set<(u32, u32)>,
    pub stats: NetworkStats,
    /// Furthest-out delivery already scheduled on each directed link.
    pub last_delivery: Map<(u32, u32), u64>,
}

impl NetView {
    pub open spec fn fresh(cfg: NetworkConfig) -> NetView {
        NetView {
            cfg,
            blocked: Set::empty(),
            stats: NetworkStats::zero(),
            last_delivery: Map::empty(),
        }
    }

    /// The furthest delivery scheduled on a link.
    pub open spec fn furthest(self, link: (u32, u32)) -> u64 {
        if self.last_delivery.contains_key(link) {
            self.last_delivery[link]
        } else {
            0
        }
    }

    /// When a message sent now would arrive if nothing overtook anything. Never
    /// in the instant it was sent.
    pub open spec fn unforced(self, now: u64, state: u64) -> u64 {
        let delay = self.cfg.latency.drawn(state);
        now.saturating_add(
            if delay < 1 {
                1
            } else {
                delay
            },
        )
    }

    /// The roll for an overtaking comes up.
    pub open spec fn rolls_reorder(self, state: u64) -> bool {
        self.cfg.reorder_permille > 0 && crate::rand::comes_up(
            self.cfg.latency.after(state),
            self.cfg.reorder_permille as u64,
            1000,
        )
    }

    /// The message overtakes the one before it on this link.
    pub open spec fn overtakes(self, now: u64, link: (u32, u32), state: u64) -> bool {
        &&& self.rolls_reorder(state)
        &&& self.last_delivery.contains_key(link)
        &&& self.last_delivery[link] > now.saturating_add(1)
        &&& self.unforced(now, state) >= self.last_delivery[link]
    }

    /// When a message sent now arrives.
    pub open spec fn arrival(self, now: u64, link: (u32, u32), state: u64) -> u64 {
        if self.overtakes(now, link, state) {
            crate::model::max_of(
                (self.last_delivery[link] - 1) as u64,
                now.saturating_add(1),
            )
        } else {
            self.unforced(now, state)
        }
    }

    pub open spec fn after_schedule(self, state: u64) -> u64 {
        let next = self.cfg.latency.after(state);
        if self.cfg.reorder_permille > 0 {
            crate::rand::advanced(next)
        } else {
            next
        }
    }

    /// The network once a delivery is scheduled.
    pub open spec fn scheduled(self, now: u64, link: (u32, u32), state: u64) -> NetView {
        let at = self.arrival(now, link, state);
        let delay = (at - now) as u64;
        NetView {
            stats: NetworkStats {
                reordered: if self.overtakes(now, link, state) {
                    self.stats.reordered.saturating_add(1)
                } else {
                    self.stats.reordered
                },
                total_delay: self.stats.total_delay.saturating_add(delay),
                max_delay: crate::model::max_of(self.stats.max_delay, delay),
                ..self.stats
            },
            last_delivery: self.last_delivery.insert(
                link,
                crate::model::max_of(self.furthest(link), at),
            ),
            ..self
        }
    }

    /// What happens to a message sent now: the decision, the network after it,
    /// and the generator's state after it.
    #[verifier::opaque]
    pub open spec fn route(self, now: u64, link: (u32, u32), state: u64) -> (Routed, NetView, u64) {
        let sent = NetView {
            stats: NetworkStats { sent: self.stats.sent.saturating_add(1), ..self.stats },
            ..self
        };
        if !crate::faults::can_reach(self.blocked, link.0, link.1) {
            (
                Routed::Partitioned,
                NetView {
                    stats: NetworkStats {
                        partitioned: sent.stats.partitioned.saturating_add(1),
                        ..sent.stats
                    },
                    ..sent
                },
                state,
            )
        } else {
            let s1 = if self.cfg.drop_permille > 0 {
                crate::rand::advanced(state)
            } else {
                state
            };
            if self.cfg.drop_permille > 0 && crate::rand::comes_up(
                state,
                self.cfg.drop_permille as u64,
                1000,
            ) {
                (
                    Routed::Dropped,
                    NetView {
                        stats: NetworkStats {
                            dropped: sent.stats.dropped.saturating_add(1),
                            ..sent.stats
                        },
                        ..sent
                    },
                    s1,
                )
            } else {
                let first = sent.arrival(now, link, s1);
                let once = sent.scheduled(now, link, s1);
                let s2 = sent.after_schedule(s1);
                let s3 = if self.cfg.duplicate_permille > 0 {
                    crate::rand::advanced(s2)
                } else {
                    s2
                };
                if self.cfg.duplicate_permille > 0 && crate::rand::comes_up(
                    s2,
                    self.cfg.duplicate_permille as u64,
                    1000,
                ) {
                    let twice = once.scheduled(now, link, s3);
                    (
                        Routed::Twice(first, once.arrival(now, link, s3)),
                        NetView {
                            stats: NetworkStats {
                                duplicated: twice.stats.duplicated.saturating_add(1),
                                delivered: twice.stats.delivered.saturating_add(2),
                                ..twice.stats
                            },
                            ..twice
                        },
                        once.after_schedule(s3),
                    )
                } else {
                    (
                        Routed::Once(first),
                        NetView {
                            stats: NetworkStats {
                                delivered: once.stats.delivered.saturating_add(1),
                                ..once.stats
                            },
                            ..once
                        },
                        s3,
                    )
                }
            }
        }
    }
}

/// A perfect network delivers every message it can, exactly once and on time,
/// and draws no randomness doing so.
pub proof fn law_perfect_networks_are_deterministic(
    net: NetView,
    now: u64,
    link: (u32, u32),
    state: u64,
)
    requires
        net.cfg.perfect_spec(),
        crate::faults::can_reach(net.blocked, link.0, link.1),
    ensures
        net.route(now, link, state).0 == Routed::Once(net.unforced(now, state)),
        net.route(now, link, state).2 == state,
        net.unforced(now, state) == now.saturating_add(
            crate::model::max_of(net.cfg.latency->Fixed_0, 1),
        ),
{
    reveal(NetView::route);
}

/// A link that is down is down, not down with some probability: it swallows the
/// message without drawing a random number.
pub proof fn law_partitions_draw_no_randomness(
    net: NetView,
    now: u64,
    link: (u32, u32),
    state: u64,
)
    ensures
        !crate::faults::can_reach(net.blocked, link.0, link.1) <==> net.route(now, link, state).0
            is Partitioned,
        !crate::faults::can_reach(net.blocked, link.0, link.1) ==> net.route(now, link, state).2
            == state,
{
    reveal(NetView::route);
}

/// A knob at zero is a true no-op: nothing is dropped without a chance of
/// dropping, nothing duplicated without a chance of duplicating, and nothing
/// overtakes without a chance of reordering.
pub proof fn law_zero_knobs_do_nothing(net: NetView, now: u64, link: (u32, u32), state: u64)
    ensures
        net.cfg.drop_permille == 0 ==> !(net.route(now, link, state).0 is Dropped),
        net.cfg.duplicate_permille == 0 ==> !(net.route(now, link, state).0 is Twice),
        net.cfg.reorder_permille == 0 ==> net.route(now, link, state).1.stats.reordered
            == net.stats.reordered,
{
    reveal(NetView::route);
}

/// No message arrives in the instant it was sent, short of the end of time.
pub proof fn law_messages_take_time(net: NetView, now: u64, link: (u32, u32), state: u64)
    ensures
        net.route(now, link, state).0 matches Routed::Once(at) ==> at > now || at == u64::MAX,
        net.route(now, link, state).0 matches Routed::Twice(a, b) ==> (a > now || a == u64::MAX)
            && (b > now || b == u64::MAX),
{
    reveal(NetView::route);
}

impl NetworkStats {
    /// Every copy of a message is accounted for: it was stopped, lost or
    /// delivered.
    pub open spec fn balanced(self) -> bool {
        self.sent + self.duplicated == self.partitioned + self.dropped + self.delivered
    }

    /// The counters have room for another message.
    pub open spec fn roomy(self) -> bool {
        &&& self.sent < u64::MAX
        &&& self.partitioned < u64::MAX
        &&& self.dropped < u64::MAX
        &&& self.duplicated < u64::MAX
        &&& self.delivered + 2 <= u64::MAX
    }
}

/// The counters balance: short of their limits every copy of a message that was
/// sent was stopped by a partition, dropped or delivered, and every message is
/// counted once as sent. It is so at the start, and cutting and healing links
/// counts nothing.
pub proof fn law_every_message_is_accounted_for(
    net: NetView,
    now: u64,
    link: (u32, u32),
    state: u64,
)
    ensures
        NetView::fresh(net.cfg).stats.balanced(),
        net.stats.balanced() && net.stats.roomy() ==> net.route(now, link, state).1.stats.balanced(),
        net.stats.roomy() ==> net.route(now, link, state).1.stats.sent == net.stats.sent + 1,
{
    reveal(NetView::route);
}

#[derive(Debug)]
pub struct Network {
    cfg: NetworkConfig,
    partitions: Partitions,
    stats: NetworkStats,
    last_delivery: BTreeMap<(NodeId, NodeId), Tick>,
}

impl View for Network {
    type V = NetView;

    closed spec fn view(&self) -> NetView {
        NetView {
            cfg: self.cfg,
            blocked: self.partitions@,
            stats: self.stats,
            last_delivery: self.last_delivery@,
        }
    }
}

impl Clone for Network {
    fn clone(&self) -> (r: Self)
        ensures
            r@ == self@,
    {
        Network {
            cfg: self.cfg,
            partitions: self.partitions.clone(),
            stats: self.stats,
            last_delivery: self.last_delivery.clone(),
        }
    }
}

impl Network {
    pub fn new(cfg: NetworkConfig) -> (r: Self)
        ensures
            r@ == NetView::fresh(cfg),
    {
        Network {
            cfg,
            partitions: Partitions::new(),
            stats: NetworkStats::default(),
            last_delivery: BTreeMap::new(),
        }
    }

    pub fn config(&self) -> (r: &NetworkConfig)
        ensures
            *r == self@.cfg,
    {
        &self.cfg
    }

    pub fn stats(&self) -> (r: &NetworkStats)
        ensures
            *r == self@.stats,
    {
        &self.stats
    }

    pub fn partitions(&self) -> (r: &Partitions)
        ensures
            r@ == self@.blocked,
    {
        &self.partitions
    }

    pub fn partitions_mut(&mut self) -> (r: &mut Partitions)
        ensures
            r@ == old(self)@.blocked,
            final(self)@ == (NetView { blocked: final(r)@, ..old(self)@ }),
    {
        &mut self.partitions
    }

    /// Decide what happens to a message sent at `now`.
    ///
    /// Every random draw is guarded by its knob being non-zero, so a fault that
    /// is turned off consumes no randomness and leaves the rest of the run
    /// byte-identical.
    pub fn route(&mut self, now: Tick, from: NodeId, to: NodeId, rng: &mut Rng) -> (r: Routed)
        ensures
            (r, final(self)@, final(rng)@) == old(self)@.route(now, (from, to), old(rng)@),
    {
        proof {
            reveal(NetView::route);
        }
        self.stats.sent = self.stats.sent.saturating_add(1);
        // Partitions come first, and consume no randomness.
        if !self.partitions.reachable(from, to) {
            self.stats.partitioned = self.stats.partitioned.saturating_add(1);
            return Routed::Partitioned;
        }
        if self.cfg.drop_permille > 0 && rng.chance(self.cfg.drop_permille as u64, 1000) {
            self.stats.dropped = self.stats.dropped.saturating_add(1);
            return Routed::Dropped;
        }
        let first: u64 = self.schedule(now, from, to, rng);
        if self.cfg.duplicate_permille > 0 && rng.chance(self.cfg.duplicate_permille as u64, 1000) {
            let second: u64 = self.schedule(now, from, to, rng);
            self.stats.duplicated = self.stats.duplicated.saturating_add(1);
            self.stats.delivered = self.stats.delivered.saturating_add(2);
            return Routed::Twice(first, second);
        }
        self.stats.delivered = self.stats.delivered.saturating_add(1);
        Routed::Once(first)
    }

    fn schedule(&mut self, now: Tick, from: NodeId, to: NodeId, rng: &mut Rng) -> (r: Tick)
        ensures
            r == old(self)@.arrival(now, (from, to), old(rng)@),
            final(self)@ == old(self)@.scheduled(now, (from, to), old(rng)@),
            final(rng)@ == old(self)@.after_schedule(old(rng)@),
    {
        // At least one tick, always: a message delivered in the instant it was
        // sent would hide real ordering bugs.
        let sampled: u64 = self.cfg.latency.sample(rng);
        let delay: u64 = if sampled < 1 {
            1
        } else {
            sampled
        };
        let mut at: u64 = now.saturating_add(delay);
        if self.cfg.reorder_permille > 0 && rng.chance(self.cfg.reorder_permille as u64, 1000) {
            match self.last_delivery.get(&(from, to)) {
                Some(prev) => {
                    // Only counts as a reorder if this message would otherwise
                    // have arrived after the one it is overtaking.
                    let soonest: u64 = now.saturating_add(1);
                    if *prev > soonest && at >= *prev {
                        at = if *prev - 1 > soonest {
                            *prev - 1
                        } else {
                            soonest
                        };
                        self.stats.reordered = self.stats.reordered.saturating_add(1);
                    }
                },
                None => {},
            }
        }
        let furthest: u64 = match self.last_delivery.get(&(from, to)) {
            Some(f) => *f,
            None => 0,
        };
        self.last_delivery.insert(
            (from, to),
            if furthest < at {
                at
            } else {
                furthest
            },
        );
        let taken: u64 = at - now;
        self.stats.total_delay = self.stats.total_delay.saturating_add(taken);
        if self.stats.max_delay < taken {
            self.stats.max_delay = taken;
        }
        at
    }
}

} // verus!
