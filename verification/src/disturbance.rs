//! How often the world goes wrong, and how.
//!
//! Every kind of trouble comes as often as its share says, strikes only what is
//! there, and leaves all else alone.
use crate::faults::{FaultConfig, FaultView};
use crate::network::{LatencyModel, NetView, Routed};
use vstd::prelude::*;

verus! {

/// What part of a whole a draw falls on, counting from zero.
pub open spec fn share(state: u64, whole: int) -> int {
    (crate::rand::drawn(state) * whole) / crate::rand::draws()
}

/// All the weights together.
pub open spec fn all_weights(cfg: FaultConfig) -> int {
    cfg.weight_partition + cfg.weight_asymmetric + cfg.weight_isolate + cfg.weight_crash
        + cfg.weight_pause
}

/// A schedule that is on always finds something to do. What it does is drawn by
/// the weights, so that a kind of weight zero never comes; and who it strikes is
/// one of the nodes.
pub proof fn law_trouble_goes_by_weight(cfg: FaultConfig, nodes: Seq<u32>, state: u64)
    requires
        cfg.enabled,
        all_weights(cfg) > 0,
        2 <= nodes.len() <= u64::MAX,
    ensures
        ({
            let roll = share(state, all_weights(cfg));
            let p = cfg.weight_partition as int;
            let a = p + cfg.weight_asymmetric;
            let i = a + cfg.weight_isolate;
            let c = i + cfg.weight_crash;
            &&& 0 <= roll < all_weights(cfg)
            &&& cfg.drawn(nodes, state).fault matches Some(f) && {
                &&& f is Partition <==> roll < p
                &&& f is AsymmetricCut <==> p <= roll < a
                &&& f is Isolate <==> a <= roll < i
                &&& f is Crash <==> i <= roll < c
                &&& f is Pause <==> c <= roll
                &&& f is Pause ==> cfg.weight_pause > 0
                &&& strikes_among(f, cfg, nodes)
            }
        }),
{
    reveal(FaultConfig::drawn);
    let total = cfg.total();
    assert(total == all_weights(cfg));
    crate::rand::lemma_range_bounds(state, 0, total);
    let s1 = crate::rand::advanced(state);
    let s2 = crate::rand::advanced(s1);
    crate::rand::lemma_range_bounds(s1, 0, nodes.len() as u64);
    crate::faults::law_pairs_are_distinct(nodes.len(), s1);
    crate::faults::law_splits_leave_no_side_empty(nodes, s1, crate::faults::SPLIT_TRIES as nat);
    law_spans_stay_in_bounds(cfg.outage_min, cfg.outage_max, s2);
    let k = crate::rand::in_range(s1, 0, nodes.len() as u64) as int;
    assert(nodes.contains(nodes[k]));
    let (i, j) = crate::faults::pair_of(nodes.len(), s1);
    assert(nodes.contains(nodes[i]) && nodes.contains(nodes[j]));
}

/// Only nodes of the cluster are struck. A split has two sides, with each node
/// on one of them; a cut goes from one place to another; and a pause is as long
/// as an outage.
pub open spec fn strikes_among(f: FaultView, cfg: FaultConfig, nodes: Seq<u32>) -> bool {
    match f {
        FaultView::Partition { a, b } => a.len() > 0 && b.len() > 0 && a.len() + b.len()
            == nodes.len() && forall|x: u32| #[trigger]
            nodes.contains(x) ==> a.contains(x) || b.contains(x),
        FaultView::AsymmetricCut { from, to } => nodes.contains(from) && nodes.contains(to) && (
        nodes.no_duplicates() ==> from != to),
        FaultView::Isolate { node } => nodes.contains(node),
        FaultView::Crash { node } => nodes.contains(node),
        FaultView::Pause { node, ticks } => nodes.contains(node) && cfg.outage_min <= ticks && (
        ticks < cfg.outage_max || ticks == cfg.outage_min),
        _ => false,
    }
}

/// A kind that has any weight at all does come.
pub proof fn law_every_kind_of_trouble_comes(cfg: FaultConfig, nodes: Seq<u32>)
    requires
        cfg.enabled,
        2 <= nodes.len() <= u64::MAX,
    ensures
        cfg.weight_partition > 0 ==> exists|s: u64|
            (#[trigger] cfg.drawn(nodes, s)).fault matches Some(f) && f is Partition,
        cfg.weight_asymmetric > 0 ==> exists|s: u64|
            (#[trigger] cfg.drawn(nodes, s)).fault matches Some(f) && f is AsymmetricCut,
        cfg.weight_isolate > 0 ==> exists|s: u64|
            (#[trigger] cfg.drawn(nodes, s)).fault matches Some(f) && f is Isolate,
        cfg.weight_crash > 0 ==> exists|s: u64|
            (#[trigger] cfg.drawn(nodes, s)).fault matches Some(f) && f is Crash,
        cfg.weight_pause > 0 ==> exists|s: u64|
            (#[trigger] cfg.drawn(nodes, s)).fault matches Some(f) && f is Pause,
{
    let p = cfg.weight_partition as int;
    let a = p + cfg.weight_asymmetric;
    let i = a + cfg.weight_isolate;
    let c = i + cfg.weight_crash;
    if cfg.weight_partition > 0 {
        let s = lemma_share_reached(cfg, nodes, 0);
        assert(cfg.drawn(nodes, s).fault matches Some(f) && f is Partition);
    }
    if cfg.weight_asymmetric > 0 {
        let s = lemma_share_reached(cfg, nodes, p);
        assert(cfg.drawn(nodes, s).fault matches Some(f) && f is AsymmetricCut);
    }
    if cfg.weight_isolate > 0 {
        let s = lemma_share_reached(cfg, nodes, a);
        assert(cfg.drawn(nodes, s).fault matches Some(f) && f is Isolate);
    }
    if cfg.weight_crash > 0 {
        let s = lemma_share_reached(cfg, nodes, i);
        assert(cfg.drawn(nodes, s).fault matches Some(f) && f is Crash);
    }
    if cfg.weight_pause > 0 {
        let s = lemma_share_reached(cfg, nodes, c);
        assert(cfg.drawn(nodes, s).fault matches Some(f) && f is Pause);
    }
}

proof fn lemma_share_reached(cfg: FaultConfig, nodes: Seq<u32>, n: int) -> (s: u64)
    requires
        cfg.enabled,
        2 <= nodes.len() <= u64::MAX,
        0 <= n < all_weights(cfg),
    ensures
        share(s, all_weights(cfg)) == n,
        cfg.drawn(nodes, s).fault matches Some(f) && {
            let p = cfg.weight_partition as int;
            let a = p + cfg.weight_asymmetric;
            let i = a + cfg.weight_isolate;
            let c = i + cfg.weight_crash;
            &&& f is Partition <==> n < p
            &&& f is AsymmetricCut <==> p <= n < a
            &&& f is Isolate <==> a <= n < i
            &&& f is Crash <==> i <= n < c
            &&& f is Pause <==> c <= n
        },
{
    let total = all_weights(cfg) as u64;
    crate::rand::law_ranges_are_reached(0, 0, 0, total, n as u64);
    let s = choose|s: u64| #[trigger] crate::rand::in_range(s, 0, total) == n as u64;
    crate::rand::lemma_range_bounds(s, 0, total);
    law_trouble_goes_by_weight(cfg, nodes, s);
    s
}

/// A span is at least its lower bound and below its upper one; where nothing lies
/// between them, it is the lower one.
pub proof fn law_spans_stay_in_bounds(min: u64, max: u64, state: u64)
    ensures
        min <= crate::faults::sampled(min, max, state),
        min < max ==> crate::faults::sampled(min, max, state) < max
            && crate::faults::sampled(min, max, state) == min + share(state, max - min),
        min >= max ==> crate::faults::sampled(min, max, state) == min
            && crate::faults::after_sample(min, max, state) == state,
{
    if min < max {
        crate::rand::lemma_range_bounds(state, min, max);
    }
}

/// A fault takes down the links it names and no others, and only healing brings
/// any back.
pub proof fn law_links_go_down_by_name(
    blocked: Set<(u32, u32)>,
    fault: FaultView,
    all: Seq<u32>,
    x: u32,
    y: u32,
)
    requires
        x != y,
    ensures
        ({
            let down = !crate::faults::can_reach(
                crate::faults::links_after(blocked, fault, all),
                x,
                y,
            );
            let was = blocked.contains((x, y));
            match fault {
                FaultView::Partition { a, b } => down <==> was || (a.contains(x) && b.contains(y))
                    || (b.contains(x) && a.contains(y)),
                FaultView::AsymmetricCut { from, to } => down <==> was || (x == from && y == to),
                FaultView::Isolate { node } => down <==> was || (x == node && all.contains(y)) || (y
                    == node && all.contains(x)),
                FaultView::Heal => !down,
                _ => down <==> was,
            }
        }),
{
}

// ---------------------------------------------------------------------------
// Messages
// ---------------------------------------------------------------------------

/// How long a message may take: always the same, anything in a range, or that
/// many times as long.
pub proof fn law_latencies(l: LatencyModel, state: u64)
    ensures
        match l {
            LatencyModel::Fixed(d) => l.drawn(state) == d && l.after(state) == state,
            LatencyModel::Uniform { min, max } => min <= l.drawn(state) && (min < max ==> l.drawn(
                state,
            ) < max && l.drawn(state) == min + share(state, max - min)),
            LatencyModel::LongTail { min, max, tail_permille, tail_multiplier } => {
                let base = crate::faults::sampled(min, max, state);
                let slow = min < max && tail_permille > 0 && crate::rand::comes_up(
                    crate::rand::advanced(state),
                    tail_permille as u64,
                    1000,
                );
                &&& min <= base
                &&& min < max ==> base < max && base == min + share(state, max - min)
                &&& tail_permille == 0 ==> l.drawn(state) == base
                &&& min < max && !slow ==> l.drawn(state) == base
                &&& slow && base * tail_multiplier <= u64::MAX ==> l.drawn(state) == base
                    * tail_multiplier
                &&& slow && base * tail_multiplier > u64::MAX ==> l.drawn(state) == u64::MAX
            },
        },
{
    match l {
        LatencyModel::Fixed(d) => {},
        LatencyModel::Uniform { min, max } => {
            law_spans_stay_in_bounds(min, max, state);
        },
        LatencyModel::LongTail { min, max, tail_permille, tail_multiplier } => {
            law_spans_stay_in_bounds(min, max, state);
        },
    }
}

/// One more, short of the most that can be counted.
pub open spec fn one_more(a: u64, b: u64) -> bool {
    b == a + 1 || (a == u64::MAX && b == a)
}

/// What becomes of a message.
///
/// It is lost to a partition exactly where its link is down; else it is dropped
/// exactly when the chance of that comes up; else it is delivered. Each is
/// counted under its own name, and the links that are down stay down.
pub proof fn law_fates_are_counted(net: NetView, now: u64, link: (u32, u32), state: u64)
    ensures
        ({
            let (fate, after, next) = net.route(now, link, state);
            let down = link.0 != link.1 && net.blocked.contains(link);
            let dropped = net.cfg.drop_permille > 0 && crate::rand::comes_up(
                state,
                net.cfg.drop_permille as u64,
                1000,
            );
            &&& fate is Partitioned <==> down
            &&& fate is Dropped <==> !down && dropped
            &&& fate is Once || fate is Twice <==> !down && !dropped
            &&& one_more(net.stats.sent, after.stats.sent)
            &&& fate is Partitioned ==> one_more(net.stats.partitioned, after.stats.partitioned)
            &&& !(fate is Partitioned) ==> after.stats.partitioned == net.stats.partitioned
            &&& fate is Dropped ==> one_more(net.stats.dropped, after.stats.dropped)
            &&& !(fate is Dropped) ==> after.stats.dropped == net.stats.dropped
            &&& fate is Twice ==> one_more(net.stats.duplicated, after.stats.duplicated)
            &&& !(fate is Twice) ==> after.stats.duplicated == net.stats.duplicated
            &&& fate is Once ==> one_more(net.stats.delivered, after.stats.delivered)
            &&& fate is Twice ==> after.stats.delivered == net.stats.delivered + 2
                || after.stats.delivered == u64::MAX
            &&& !(fate is Once || fate is Twice) ==> after.stats.delivered == net.stats.delivered
                && after.stats.total_delay == net.stats.total_delay && after.stats.max_delay
                == net.stats.max_delay && after.stats.reordered == net.stats.reordered
                && after.last_delivery == net.last_delivery
            &&& after.cfg == net.cfg && after.blocked == net.blocked
        }),
{
    reveal(NetView::route);
}

/// A copy goes out exactly when the chance of one comes up, once the message
/// itself is on its way.
pub proof fn law_copies_go_by_chance(net: NetView, now: u64, link: (u32, u32), state: u64)
    ensures
        ({
            let fate = net.route(now, link, state).0;
            let s = if net.cfg.drop_permille > 0 {
                crate::rand::advanced(state)
            } else {
                state
            };
            let on_its_way = if net.cfg.reorder_permille > 0 {
                crate::rand::advanced(net.cfg.latency.after(s))
            } else {
                net.cfg.latency.after(s)
            };
            fate is Twice <==> !(fate is Partitioned) && !(fate is Dropped)
                && net.cfg.duplicate_permille > 0 && crate::rand::comes_up(
                on_its_way,
                net.cfg.duplicate_permille as u64,
                1000,
            )
        }),
{
    reveal(NetView::route);
}

/// When a message on a link gets there.
///
/// It takes as long as the latency says and at least one tick, unless it
/// overtakes: then it gets there just before the last one that is on its way. It
/// does so only where a chance to came up, and only one that would have come no
/// sooner counts as overtaking.
pub proof fn law_arrivals(net: NetView, now: u64, link: (u32, u32), state: u64)
    requires
        now < u64::MAX,
    ensures
        ({
            let (fate, after, next) = net.route(now, link, state);
            let s = if net.cfg.drop_permille > 0 {
                crate::rand::advanced(state)
            } else {
                state
            };
            let delay = net.cfg.latency.drawn(s);
            let due = if now + delay > u64::MAX {
                u64::MAX as int
            } else if delay == 0 {
                now + 1
            } else {
                now + delay
            };
            let last = net.last_delivery[link];
            let jumps = net.cfg.reorder_permille > 0 && crate::rand::comes_up(
                net.cfg.latency.after(s),
                net.cfg.reorder_permille as u64,
                1000,
            ) && net.last_delivery.contains_key(link) && last > now + 1 && due >= last;
            let at = if jumps {
                last - 1
            } else {
                due
            };
            let known = if net.last_delivery.contains_key(link) {
                last as int
            } else {
                0
            };
            &&& fate matches Routed::Once(t) ==> t == at
            &&& fate matches Routed::Twice(t, u) ==> t == at && u > now
            &&& fate is Once ==> {
                &&& jumps ==> one_more(net.stats.reordered, after.stats.reordered)
                &&& !jumps ==> after.stats.reordered == net.stats.reordered
                &&& after.stats.total_delay == net.stats.total_delay + (at - now)
                    || after.stats.total_delay == u64::MAX
                &&& after.stats.max_delay == if net.stats.max_delay >= at - now {
                    net.stats.max_delay as int
                } else {
                    at - now
                }
                &&& after.last_delivery.contains_key(link)
                &&& after.last_delivery[link] == if known >= at {
                    known
                } else {
                    at
                }
                &&& after.last_delivery.remove(link) == net.last_delivery.remove(link)
            }
        }),
{
    reveal(NetView::route);
    let after = net.route(now, link, state).1;
    assert(after.last_delivery.remove(link) =~= net.last_delivery.remove(link));
}

} // verus!
