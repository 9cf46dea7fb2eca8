//! The dimensions that a seed is spread over.
//!
//! Each is drawn by itself, from the rolls of one stream in a fixed order. What a
//! roll stands for is written out here as a table, with the numbers.
use crate::faults::FaultConfig;
use crate::fuzz::Options;
use crate::network::{LatencyModel, NetworkConfig};
use vstd::prelude::*;

verus! {

/// A roll of ten: which tenth of its range a draw falls into.
pub open spec fn tenth(state: u64) -> int {
    (crate::rand::drawn(state) * 10) / crate::rand::draws()
}

/// The states that a seed's rolls are drawn in, the first one first.
pub open spec fn turn(seed: u64, n: nat) -> u64
    decreases n,
{
    if n == 0 {
        crate::rand::stream_state(seed, 0x0046_555a_5a00)
    } else {
        crate::rand::advanced(turn(seed, (n - 1) as nat))
    }
}

/// Small clusters take no roll for who votes at first.
pub open spec fn after_voters(seed: u64) -> nat {
    if tenth(turn(seed, 0)) <= 4 {
        4
    } else {
        5
    }
}

/// A roll of the first few takes one draw, any other a second one.
pub open spec fn after_compaction(seed: u64) -> nat {
    let n = after_voters(seed);
    if tenth(turn(seed, n)) <= 3 {
        n + 1
    } else {
        n + 2
    }
}

pub open spec fn after_skew(seed: u64) -> nat {
    let n = after_compaction(seed);
    if crate::rand::comes_up(turn(seed, n), 1, 2) {
        n + 2
    } else {
        n + 1
    }
}

pub open spec fn after_batch(seed: u64) -> nat {
    let n = after_skew(seed);
    if 3 <= tenth(turn(seed, n)) <= 5 {
        n + 2
    } else {
        n + 1
    }
}

pub open spec fn same_latency(l: LatencyModel, min: int, max: int, tail: int, times: int) -> bool {
    l matches LatencyModel::LongTail { min: a, max: b, tail_permille: c, tail_multiplier: d } && a
        == min && b == max && c == tail && d == times
}

pub open spec fn rates(n: NetworkConfig, drop: int, duplicate: int, reorder: int) -> bool {
    n.drop_permille == drop && n.duplicate_permille == duplicate && n.reorder_permille == reorder
}

/// Five weights: partitions, one-way cuts, isolation, crashes and pauses.
pub open spec fn weights(f: FaultConfig, p: int, a: int, i: int, c: int, z: int) -> bool {
    f.weight_partition == p && f.weight_asymmetric == a && f.weight_isolate == i && f.weight_crash
        == c && f.weight_pause == z
}

pub open spec fn spans(f: FaultConfig, a: int, b: int, c: int, d: int) -> bool {
    f.healthy_min == a && f.healthy_max == b && f.outage_min == c && f.outage_max == d
}

/// Half of the clusters have three nodes, most of the rest five, the others
/// seven; and only a larger one may start with less than all of them voting.
pub proof fn law_cluster_sizes(seed: u64, opts: Options)
    ensures
        ({
            let c = crate::fuzz::config_of(seed, opts).0;
            let d = tenth(turn(seed, 0));
            &&& 0 <= d < 10
            &&& c.nodes == 3 <==> d <= 4
            &&& c.nodes == 5 <==> 5 <= d <= 8
            &&& c.nodes == 7 <==> d == 9
            &&& c.initial_voters is Some <==> d > 4 && crate::rand::comes_up(turn(seed, 4), 3, 10)
            &&& c.initial_voters matches Some(v) ==> v == seq![0u32, 1u32, 2u32]
            &&& c.seed == seed
        }),
{
    lemma_turns(seed);
}

/// Two networks in ten are perfect, three are flaky, three have a long tail and
/// two are hostile.
pub proof fn law_networks(seed: u64, opts: Options)
    ensures
        ({
            let n = crate::fuzz::config_of(seed, opts).0.network;
            let d = tenth(turn(seed, 1));
            &&& 0 <= d < 10
            &&& d <= 1 ==> n.latency == LatencyModel::Fixed(10) && rates(n, 0, 0, 0)
            &&& 2 <= d <= 4 ==> n.latency == (LatencyModel::Uniform { min: 5, max: 25 }) && rates(
                n,
                50,
                20,
                50,
            )
            &&& 5 <= d <= 7 ==> same_latency(n.latency, 5, 20, 30, 20) && rates(n, 20, 20, 30)
            &&& d >= 8 ==> same_latency(n.latency, 5, 40, 100, 15) && rates(n, 250, 80, 100)
        }),
{
    lemma_turns(seed);
}

/// One schedule in ten is quiet; three are occasional, three aggressive, two only
/// crash and one only cuts links one way.
pub proof fn law_fault_schedules(seed: u64, opts: Options)
    ensures
        ({
            let f = crate::fuzz::config_of(seed, opts).0.faults;
            let d = tenth(turn(seed, 2));
            &&& 0 <= d < 10
            &&& f.enabled <==> d > 0
            &&& d == 0 ==> weights(f, 0, 0, 0, 0, 0) && spans(f, 0, 1, 0, 1)
            &&& 1 <= d <= 3 ==> weights(f, 3, 1, 1, 2, 1) && spans(f, 1_500, 4_000, 400, 1_500)
            &&& 4 <= d <= 6 ==> weights(f, 3, 2, 2, 3, 2) && spans(f, 400, 1_200, 400, 1_600)
            &&& 7 <= d <= 8 ==> weights(f, 0, 0, 0, 4, 1) && spans(f, 500, 2_000, 300, 1_500)
            &&& d == 9 ==> weights(f, 0, 1, 0, 0, 0) && spans(f, 600, 1_500, 600, 2_000)
        }),
{
    lemma_turns(seed);
}

/// Three disks in ten lose power halfway through a write, five times in a
/// thousand; the rest never do. Either way a node is back after a while.
pub proof fn law_disks(seed: u64, opts: Options)
    ensures
        ({
            let d = crate::fuzz::config_of(seed, opts).0.disk;
            &&& d.torn_step_permille == 5 <==> crate::rand::comes_up(turn(seed, 3), 3, 10)
            &&& d.torn_step_permille == 0 <==> !crate::rand::comes_up(turn(seed, 3), 3, 10)
            &&& d.restart_min == 300 && d.restart_max == 1_500
        }),
{
    lemma_turns(seed);
}

/// Four seeds in ten never compact their logs. Three compact often, and three
/// now and then.
pub proof fn law_compaction(seed: u64, opts: Options)
    ensures
        ({
            let every = crate::fuzz::config_of(seed, opts).0.snapshot_every;
            let n = after_voters(seed);
            let d = tenth(turn(seed, n));
            &&& 0 <= d < 10
            &&& every is None <==> d <= 3
            &&& 4 <= d <= 6 ==> (every matches Some(e) && 8 <= e < 25 && e == crate::rand::in_range(
                turn(seed, n + 1),
                8,
                25,
            ))
            &&& d >= 7 ==> (every matches Some(e) && 25 <= e < 80 && e == crate::rand::in_range(
                turn(seed, n + 1),
                25,
                80,
            ))
        }),
{
    lemma_turns(seed);
    lemma_draws_end(seed);
    let next = turn(seed, after_voters(seed) + 1);
    crate::rand::lemma_range_bounds(next, 8, 25);
    crate::rand::lemma_range_bounds(next, 25, 80);
}

/// Half of the clusters keep perfect time; in the others, clocks run off by up to
/// a quarter.
pub proof fn law_clocks(seed: u64, opts: Options)
    ensures
        ({
            let skew = crate::fuzz::config_of(seed, opts).0.clock_skew_permille;
            let n = after_compaction(seed);
            &&& !crate::rand::comes_up(turn(seed, n), 1, 2) ==> skew == 0
            &&& crate::rand::comes_up(turn(seed, n), 1, 2) ==> skew == crate::rand::in_range(turn(seed, n + 1), 0, 250)
            &&& skew < 250
        }),
{
    lemma_turns(seed);
    lemma_draws_end(seed);
    crate::rand::lemma_range_bounds(turn(seed, after_compaction(seed) + 1), 0, 250);
}

/// Three leaders in ten send their entries one by one, three in small batches,
/// and four in large ones. Everything else about the protocol is as always, but
/// for the faults that were asked for.
pub proof fn law_batches(seed: u64, opts: Options)
    ensures
        ({
            let c = crate::fuzz::config_of(seed, opts).0;
            let size = c.raft.max_entries_per_append;
            let n = after_skew(seed);
            let d = tenth(turn(seed, n));
            &&& 0 <= d < 10
            &&& d <= 2 ==> size == 1
            &&& 3 <= d <= 5 ==> 2 <= size < 8 && size == crate::rand::in_range(turn(seed, n + 1), 2, 8)
            &&& d >= 6 ==> size == 64
            &&& c.raft.election_timeout_min == 150
            &&& c.raft.election_timeout_max == 300
            &&& c.raft.heartbeat_interval == 50
            &&& c.raft.bugs == opts.bugs
            &&& c.record_trace == opts.record_trace
            &&& c.stale_reads == opts.stale_reads
            &&& c.check_invariants
            &&& c.scripted_faults is None
        }),
{
    lemma_turns(seed);
    lemma_draws_end(seed);
    crate::rand::lemma_range_bounds(turn(seed, after_skew(seed) + 1), 2, 8);
}

/// Two workloads in ten have a single client that only writes, three have many
/// clients after few keys, and the rest a few of each.
pub proof fn law_workloads(seed: u64, opts: Options)
    ensures
        ({
            let w = crate::fuzz::config_of(seed, opts).1;
            let d = tenth(turn(seed, after_batch(seed)));
            &&& 0 <= d < 10
            &&& d <= 1 ==> w.clients == 1 && w.keys == 4 && w.weight_put == 5 && w.weight_get == 0
                && w.weight_cas == 0 && w.weight_delete == 0
            &&& 2 <= d <= 4 ==> w.clients == 5 && w.keys == 2 && w.weight_put == 5 && w.weight_get
                == 3 && w.weight_cas == 5 && w.weight_delete == 1
            &&& d >= 5 ==> w.clients == 3 && w.keys == 4 && w.weight_put == 5 && w.weight_get == 3
                && w.weight_cas == 2 && w.weight_delete == 1
            &&& w.stale_target_permille == 150 && w.gap_min == 80 && w.gap_max == 300
        }),
{
    lemma_turns(seed);
    lemma_draws_end(seed);
}

proof fn lemma_turn_reached(n: nat, state: u64) -> (seed: u64)
    ensures
        turn(seed, n) == state,
    decreases n,
{
    if n == 0 {
        crate::rand::law_seeds_start_apart(0, 0, 0x0046_555a_5a00, state);
        choose|seed: u64| #[trigger] crate::rand::stream_state(seed, 0x0046_555a_5a00) == state
    } else {
        let before = state.wrapping_sub(crate::rand::GAMMA);
        assert(crate::rand::advanced(before) == state);
        lemma_turn_reached((n - 1) as nat, before)
    }
}

proof fn lemma_roll_reached(n: nat, d: u64) -> (seed: u64)
    requires
        d < 10,
    ensures
        tenth(turn(seed, n)) == d,
{
    crate::rand::law_ranges_are_reached(0, 0, 0, 10, d);
    let state = choose|state: u64| #[trigger] crate::rand::in_range(state, 0, 10) == d;
    crate::rand::lemma_range_bounds(state, 0, 10);
    lemma_turn_reached(n, state)
}

/// Every roll comes up, in every turn, for some seed.
pub proof fn law_every_roll_comes_up(n: nat, d: u64)
    requires
        d < 10,
    ensures
        exists|seed: u64| tenth(#[trigger] turn(seed, n)) == d,
{
    let seed = lemma_roll_reached(n, d);
    assert(tenth(turn(seed, n)) == d);
}

/// There are seeds for every size of cluster, every network and every schedule
/// of faults.
pub proof fn law_every_setting_is_used(
    opts: Options,
    nodes: usize,
    network: NetworkConfig,
    faults: FaultConfig,
)
    ensures
        nodes == 3 || nodes == 5 || nodes == 7 ==> exists|seed: u64|
            (#[trigger] crate::fuzz::config_of(seed, opts)).0.nodes == nodes,
        network == NetworkConfig::perfect() || network == NetworkConfig::flaky() || network
            == NetworkConfig::long_tail() || network == NetworkConfig::hostile()
            ==> exists|seed: u64|
            (#[trigger] crate::fuzz::config_of(seed, opts)).0.network == network,
        faults == FaultConfig::none() || faults == FaultConfig::occasional() || faults
            == FaultConfig::aggressive() || faults == FaultConfig::crash_only() || faults
            == FaultConfig::asymmetric_only() ==> exists|seed: u64|
            (#[trigger] crate::fuzz::config_of(seed, opts)).0.faults == faults,
{
    if nodes == 3 || nodes == 5 || nodes == 7 {
        let d: u64 = if nodes == 3 {
            0
        } else if nodes == 5 {
            5
        } else {
            9
        };
        let seed = lemma_roll_reached(0, d);
        law_cluster_sizes(seed, opts);
        assert(crate::fuzz::config_of(seed, opts).0.nodes == nodes);
    }
    if network == NetworkConfig::perfect() || network == NetworkConfig::flaky() || network
            == NetworkConfig::long_tail() || network
            == NetworkConfig::hostile() {
        let d: u64 = if network == NetworkConfig::perfect() {
            0
        } else if network == NetworkConfig::flaky() {
            2
        } else if network == NetworkConfig::long_tail() {
            5
        } else {
            8
        };
        let seed = lemma_roll_reached(1, d);
        law_networks(seed, opts);
        assert(crate::fuzz::config_of(seed, opts).0.network == network);
    }
    if faults == FaultConfig::none() || faults == FaultConfig::occasional() || faults
            == FaultConfig::aggressive() || faults == FaultConfig::crash_only() || faults
            == FaultConfig::asymmetric_only() {
        let d: u64 = if faults == FaultConfig::none() {
            0
        } else if faults == FaultConfig::occasional() {
            1
        } else if faults == FaultConfig::aggressive() {
            4
        } else if faults == FaultConfig::crash_only() {
            7
        } else {
            9
        };
        let seed = lemma_roll_reached(2, d);
        law_fault_schedules(seed, opts);
        assert(crate::fuzz::config_of(seed, opts).0.faults == faults);
    }
}

/// Whether and how often to compact, the clocks, the batches and the workload:
/// each of them comes out of some draw.
pub proof fn law_every_draw_is_used(d: u64, skew: u64, nodes: usize)
    ensures
        exists|s: u64| (#[trigger] crate::fuzz::compaction_drawn(s)).0 is None,
        exists|s: u64|
            (#[trigger] crate::fuzz::compaction_drawn(s)).0 matches Some(e) && 8 <= e < 25,
        exists|s: u64|
            (#[trigger] crate::fuzz::compaction_drawn(s)).0 matches Some(e) && 25 <= e < 80,
        exists|s: u64| (#[trigger] crate::fuzz::batch_drawn(s)).0 == 1,
        exists|s: u64| 2 <= (#[trigger] crate::fuzz::batch_drawn(s)).0 < 8,
        exists|s: u64| (#[trigger] crate::fuzz::batch_drawn(s)).0 == 64,
        nodes >= 5 ==> exists|s: u64|
                (#[trigger] crate::fuzz::voters_drawn(nodes, s)).0 is Some,
        nodes >= 5 ==> exists|s: u64|
                (#[trigger] crate::fuzz::voters_drawn(nodes, s)).0 is None,
        d < 10 ==> exists|s: u64| #[trigger] crate::fuzz::roll(s) == d,
        exists|s: u64| #[trigger] crate::rand::comes_up(s, 1, 2),
        exists|s: u64| !(#[trigger] crate::rand::comes_up(s, 1, 2)),
        skew < 250 ==> exists|s: u64| #[trigger] crate::rand::in_range(s, 0, 250) == skew,
{
    if d < 10 {
        crate::rand::law_ranges_are_reached(0, 0, 0, 10, d);
        let s = choose|s: u64| #[trigger] crate::rand::in_range(s, 0, 10) == d;
        assert(crate::fuzz::roll(s) == d);
    }
    crate::rand::law_ranges_are_reached(0, 0, 0, 10, 0);
    crate::rand::law_ranges_are_reached(0, 0, 0, 10, 4);
    crate::rand::law_ranges_are_reached(0, 0, 0, 10, 7);
    let none = choose|s: u64| #[trigger] crate::rand::in_range(s, 0, 10) == 0;
    let often = choose|s: u64| #[trigger] crate::rand::in_range(s, 0, 10) == 4;
    let seldom = choose|s: u64| #[trigger] crate::rand::in_range(s, 0, 10) == 7;
    assert forall|s: u64| 8 <= #[trigger] crate::rand::in_range(s, 8, 25) < 25 by {
        crate::rand::lemma_range_bounds(s, 8, 25);
    }
    assert forall|s: u64| 25 <= #[trigger] crate::rand::in_range(s, 25, 80) < 80 by {
        crate::rand::lemma_range_bounds(s, 25, 80);
    }
    assert forall|s: u64| 2 <= #[trigger] crate::rand::in_range(s, 2, 8) < 8 by {
        crate::rand::lemma_range_bounds(s, 2, 8);
    }
    assert(crate::fuzz::compaction_drawn(none).0 is None);
    assert(crate::fuzz::compaction_drawn(often).0 matches Some(e) && 8 <= e < 25);
    assert(crate::fuzz::compaction_drawn(seldom).0 matches Some(e) && 25 <= e < 80);
    assert(crate::fuzz::batch_drawn(none).0 == 1);
    assert(2 <= crate::fuzz::batch_drawn(often).0 < 8);
    assert(crate::fuzz::batch_drawn(seldom).0 == 64);
    crate::rand::law_chances_grow(0, 0, 3, 10);
    crate::rand::law_chances_grow(0, 0, 1, 2);
    let some = choose|s: u64| #[trigger] crate::rand::comes_up(s, 3, 10);
    let all = choose|s: u64| !(#[trigger] crate::rand::comes_up(s, 3, 10));
    if nodes >= 5 {
        assert(crate::fuzz::voters_drawn(nodes, some).0 is Some);
    }
    if nodes >= 5 {
        assert(crate::fuzz::voters_drawn(nodes, all).0 is None);
    }
    if skew < 250 {
        crate::rand::law_ranges_are_reached(0, 0, 0, 250, skew);
    }
}

/// A client waits at least three hundred ticks before it tries again, and asks up
/// to five times; three in ten never try twice.
pub proof fn law_patience(seed: u64)
    ensures
        ({
            let s = crate::rand::stream_state(seed, 0x5245_5452_5900);
            let (wait, times) = crate::fuzz::retries_of(seed);
            &&& 300 <= wait < 1_200
            &&& 1 <= times < 6
            &&& times == 1 <==> !crate::rand::comes_up(crate::rand::advanced(s), 7, 10)
        }),
{
    let s = crate::rand::stream_state(seed, 0x5245_5452_5900);
    crate::rand::lemma_range_bounds(s, 300, 1_200);
    crate::rand::lemma_range_bounds(
        crate::rand::advanced(crate::rand::advanced(s)),
        2,
        6,
    );
}

/// Where each dimension's draws end, the next one's begin.
proof fn lemma_draws_end(seed: u64)
    ensures
        crate::fuzz::voters_drawn(
            crate::fuzz::nodes_for(crate::fuzz::roll(turn(seed, 0))),
            turn(seed, 4),
        ).1 == turn(seed, after_voters(seed)),
        crate::fuzz::compaction_drawn(turn(seed, after_voters(seed))).1 == turn(
            seed,
            after_compaction(seed),
        ),
        crate::fuzz::skew_drawn(turn(seed, after_compaction(seed))).1 == turn(
            seed,
            after_skew(seed),
        ),
        crate::fuzz::batch_drawn(turn(seed, after_skew(seed))).1 == turn(seed, after_batch(seed)),
{
    lemma_turns(seed);
    let a = after_voters(seed);
    let b = after_compaction(seed);
    let c = after_skew(seed);
    assert(turn(seed, a + 2) == crate::rand::advanced(turn(seed, a + 1)));
    assert(turn(seed, b + 2) == crate::rand::advanced(turn(seed, b + 1)));
    assert(turn(seed, c + 2) == crate::rand::advanced(turn(seed, c + 1)));
}

proof fn lemma_tenth(state: u64)
    ensures
        crate::fuzz::roll(state) == tenth(state),
        0 <= tenth(state) < 10,
{
    crate::rand::lemma_range_bounds(state, 0, 10);
}

/// The rolls are drawn one after the other.
proof fn lemma_turns(seed: u64)
    ensures
        turn(seed, 1) == crate::rand::advanced(turn(seed, 0)),
        turn(seed, 2) == crate::rand::advanced(turn(seed, 1)),
        turn(seed, 3) == crate::rand::advanced(turn(seed, 2)),
        turn(seed, 4) == crate::rand::advanced(turn(seed, 3)),
        turn(seed, 5) == crate::rand::advanced(turn(seed, 4)),
        forall|n: nat| turn(seed, n + 1) == crate::rand::advanced(#[trigger] turn(seed, n)),
        forall|state: u64|
            #![trigger crate::fuzz::roll(state)]
            #![trigger tenth(state)]
            crate::fuzz::roll(state) == tenth(state) && 0 <= tenth(state) < 10,
{
    assert forall|state: u64|
        #![trigger crate::fuzz::roll(state)]
        #![trigger tenth(state)]
        crate::fuzz::roll(state) == tenth(state) && 0 <= tenth(state) < 10 by {
        lemma_tenth(state);
    }
    assert forall|n: nat| turn(seed, n + 1) == crate::rand::advanced(#[trigger] turn(seed, n)) by {}
    assert(turn(seed, 0 + 1) == crate::rand::advanced(turn(seed, 0)));
    assert(turn(seed, 1 + 1) == crate::rand::advanced(turn(seed, 1)));
    assert(turn(seed, 2 + 1) == crate::rand::advanced(turn(seed, 2)));
    assert(turn(seed, 3 + 1) == crate::rand::advanced(turn(seed, 3)));
    assert(turn(seed, 4 + 1) == crate::rand::advanced(turn(seed, 4)));
}

} // verus!
