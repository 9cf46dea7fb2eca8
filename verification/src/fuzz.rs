//! The fuzzing harness.
//!
//! Runs seeds, checks every safety invariant, and when one breaks, shrinks the
//! failure to the smallest fault schedule that still reproduces it.
//!
//! A seed's run is a pure function of its configuration, and its configuration
//! is a pure function of the seed.
use crate::cluster::{copy_faults, Cluster, RunStats, SimConfig};
use crate::cluster_model::{ClusterView, SimView};
use crate::faults::{DiskConfig, Fault, FaultConfig, FaultView};
use crate::history::History;
use crate::invariants::{Invariant, Violation, ViolationView};
use crate::kv::{CommandView, KvCommand};
use crate::linearizability::{Verdict, VerdictView};
use crate::network::{NetworkConfig, NetworkStats};
use crate::text::push_decimal;
use crate::workload::{ClientDriver, DriverView, WorkloadConfig, WorkloadView};
use crate::{BugSwitches, NodeId, RaftConfig, Rng, Tick};
use vstd::prelude::*;

verus! {

/// How the sweep is run. Not part of a seed's identity: every field here that
/// affects behaviour is folded into the per-seed config.
#[derive(Clone, Copy, Debug, PartialEq, Eq, Structural)]
pub struct Options {
    /// Virtual ticks per run.
    pub ticks: u64,
    /// Deliberate bugs to enable, for validating that the harness can actually
    /// find something.
    pub bugs: BugSwitches,
    /// Record the full trace.
    pub record_trace: bool,
    /// Give up shrinking after this many candidate re-runs.
    pub minimize_budget: usize,
    /// Enable the simulator-level stale-read bug, to check that the
    /// linearizability checker catches what the invariants cannot.
    pub stale_reads: bool,
    /// Search steps allowed for the linearizability check on one seed. When it
    /// runs out the answer is "unknown".
    pub linearizability_budget: u64,
}

/// The search steps allowed by default.
pub const LINEARIZABILITY_BUDGET: u64 = 200_000;

impl Options {
    pub open spec fn standard() -> Options {
        Options {
            ticks: 30_000,
            bugs: BugSwitches::none(),
            record_trace: false,
            minimize_budget: 2_000,
            stale_reads: false,
            linearizability_budget: LINEARIZABILITY_BUDGET,
        }
    }
}

impl Default for Options {
    fn default() -> (r: Self)
        ensures
            r == Options::standard(),
    {
        Options {
            ticks: 30_000,
            bugs: BugSwitches::default(),
            record_trace: false,
            minimize_budget: 2_000,
            stale_reads: false,
            linearizability_budget: LINEARIZABILITY_BUDGET,
        }
    }
}

// ---------------------------------------------------------------------------
// What a seed stands for
// ---------------------------------------------------------------------------

/// The streams that the harness draws from.
pub const CONFIG_STREAM: u64 = 0x0046_555a_5a00;

pub const MEMBERSHIP_STREAM: u64 = 0x004d_454d_4245_5200;

pub const RETRY_STREAM: u64 = 0x5245_5452_5900;

/// A roll of ten.
pub open spec fn roll(state: u64) -> u64 {
    crate::rand::in_range(state, 0, 10)
}

pub open spec fn nodes_for(d: u64) -> usize {
    if d <= 4 {
        3
    } else if d <= 8 {
        5
    } else {
        7
    }
}

pub open spec fn network_for(d: u64) -> NetworkConfig {
    if d <= 1 {
        NetworkConfig::perfect()
    } else if d <= 4 {
        NetworkConfig::flaky()
    } else if d <= 7 {
        NetworkConfig::long_tail()
    } else {
        NetworkConfig::hostile()
    }
}

pub open spec fn faults_for(d: u64) -> FaultConfig {
    if d == 0 {
        FaultConfig::none()
    } else if d <= 3 {
        FaultConfig::occasional()
    } else if d <= 6 {
        FaultConfig::aggressive()
    } else if d <= 8 {
        FaultConfig::crash_only()
    } else {
        FaultConfig::asymmetric_only()
    }
}

pub open spec fn workload_for(d: u64) -> WorkloadConfig {
    if d <= 1 {
        WorkloadConfig {
            clients: 1,
            weight_get: 0,
            weight_cas: 0,
            weight_delete: 0,
            ..WorkloadConfig::standard()
        }
    } else if d <= 4 {
        WorkloadConfig { clients: 5, keys: 2, weight_cas: 5, ..WorkloadConfig::standard() }
    } else {
        WorkloadConfig::standard()
    }
}

/// Only some of the nodes start as voters, so that a membership change has
/// somewhere to grow into; and the generator's state after the draw.
pub open spec fn voters_drawn(nodes: usize, state: u64) -> (Option<Seq<u32>>, u64) {
    if nodes >= 5 {
        (
            if crate::rand::comes_up(state, 3, 10) {
                Some(seq![0u32, 1, 2])
            } else {
                None
            },
            crate::rand::advanced(state),
        )
    } else {
        (None, state)
    }
}

/// How often to compact, if at all.
pub open spec fn compaction_drawn(state: u64) -> (Option<u64>, u64) {
    let next = crate::rand::advanced(state);
    if roll(state) <= 3 {
        (None, next)
    } else if roll(state) <= 6 {
        (Some(crate::rand::in_range(next, 8, 25)), crate::rand::advanced(next))
    } else {
        (Some(crate::rand::in_range(next, 25, 80)), crate::rand::advanced(next))
    }
}

pub open spec fn skew_drawn(state: u64) -> (u32, u64) {
    let next = crate::rand::advanced(state);
    if crate::rand::comes_up(state, 1, 2) {
        (crate::rand::in_range(next, 0, 250) as u32, crate::rand::advanced(next))
    } else {
        (0, next)
    }
}

/// Batch size is load-bearing, and pinning it hides whole classes of bug.
pub open spec fn batch_drawn(state: u64) -> (usize, u64) {
    let next = crate::rand::advanced(state);
    if roll(state) <= 2 {
        (1, next)
    } else if roll(state) <= 5 {
        (crate::rand::in_range(next, 2, 8) as usize, crate::rand::advanced(next))
    } else {
        (64, next)
    }
}

/// A seed's configuration: every dimension is drawn from the seed alone.
pub open spec fn config_of(seed: u64, opts: Options) -> (SimView, WorkloadConfig) {
    let s0 = crate::rand::stream_state(seed, CONFIG_STREAM);
    let nodes = nodes_for(roll(s0));
    let s1 = crate::rand::advanced(s0);
    let s2 = crate::rand::advanced(s1);
    let s3 = crate::rand::advanced(s2);
    let (initial_voters, s4) = voters_drawn(nodes, crate::rand::advanced(s3));
    let (snapshot_every, s5) = compaction_drawn(s4);
    let (clock_skew_permille, s6) = skew_drawn(s5);
    let (max_entries_per_append, s7) = batch_drawn(s6);
    (
        SimView {
            seed,
            nodes,
            raft: RaftConfig {
                bugs: opts.bugs,
                max_entries_per_append,
                ..RaftConfig::standard()
            },
            network: network_for(roll(s1)),
            faults: faults_for(roll(s2)),
            disk: if crate::rand::comes_up(s3, 3, 10) {
                DiskConfig::flaky()
            } else {
                DiskConfig::reliable()
            },
            clock_skew_permille,
            record_trace: opts.record_trace,
            scripted_faults: None,
            initial_voters,
            snapshot_every,
            stale_reads: opts.stale_reads,
            check_invariants: true,
        },
        workload_for(roll(s7)),
    )
}

fn pick_voters(nodes: usize, rng: &mut Rng) -> (r: Option<Vec<NodeId>>)
    ensures
        r is Some == voters_drawn(nodes, old(rng)@).0 is Some,
        r matches Some(v) ==> voters_drawn(nodes, old(rng)@).0 == Some(v@),
        final(rng)@ == voters_drawn(nodes, old(rng)@).1,
{
    if nodes >= 5 && rng.chance(3, 10) {
        let mut v: Vec<NodeId> = Vec::new();
        v.push(0);
        v.push(1);
        v.push(2);
        assert(v@ =~= seq![0u32, 1, 2]);
        Some(v)
    } else {
        None
    }
}

fn pick_compaction(rng: &mut Rng) -> (r: Option<u64>)
    ensures
        (r, final(rng)@) == compaction_drawn(old(rng)@),
{
    let d: u64 = rng.gen_range(0, 10);
    if d <= 3 {
        None
    } else if d <= 6 {
        Some(rng.gen_range(8, 25))
    } else {
        Some(rng.gen_range(25, 80))
    }
}

fn pick_skew(rng: &mut Rng) -> (r: u32)
    ensures
        (r, final(rng)@) == skew_drawn(old(rng)@),
{
    if rng.chance(1, 2) {
        let d: u64 = rng.gen_range(0, 250);
        d as u32
    } else {
        0
    }
}

fn pick_batch(rng: &mut Rng) -> (r: usize)
    ensures
        (r, final(rng)@) == batch_drawn(old(rng)@),
{
    let d: u64 = rng.gen_range(0, 10);
    if d <= 2 {
        1
    } else if d <= 5 {
        let size: u64 = rng.gen_range(2, 8);
        size as usize
    } else {
        64
    }
}

fn pick_network(d: u64) -> (r: NetworkConfig)
    ensures
        r == network_for(d),
{
    if d <= 1 {
        NetworkConfig::perfect()
    } else if d <= 4 {
        NetworkConfig::flaky()
    } else if d <= 7 {
        NetworkConfig::long_tail()
    } else {
        NetworkConfig::hostile()
    }
}

fn pick_faults(d: u64) -> (r: FaultConfig)
    ensures
        r == faults_for(d),
{
    if d == 0 {
        FaultConfig::none()
    } else if d <= 3 {
        FaultConfig::occasional()
    } else if d <= 6 {
        FaultConfig::aggressive()
    } else if d <= 8 {
        FaultConfig::crash_only()
    } else {
        FaultConfig::asymmetric_only()
    }
}

fn pick_workload(d: u64) -> (r: WorkloadConfig)
    ensures
        r == workload_for(d),
{
    if d <= 1 {
        WorkloadConfig::writes_only()
    } else if d <= 4 {
        WorkloadConfig::contended()
    } else {
        WorkloadConfig::standard()
    }
}

/// Every configuration drawn from a seed is one that can be run.
pub proof fn law_seeds_give_valid_runs(seed: u64, opts: Options)
    ensures
        config_of(seed, opts).0.valid(),
        config_of(seed, opts).0.seed == seed,
        config_of(seed, opts).1.valid(),
        config_of(seed, opts).1.gap_min > 0,
{
}

/// Build a seed's configuration.
///
/// Every dimension is derived here from the seed alone, so the seed really is a
/// complete description of the run.
pub fn config_for_seed(seed: u64, opts: &Options) -> (r: (SimConfig, WorkloadConfig))
    ensures
        (r.0@, r.1) == config_of(seed, *opts),
        r.0@.valid(),
        r.1.valid(),
        r.1.gap_min > 0,
{
    let mut rng = Rng::derive(seed, CONFIG_STREAM);
    let d: u64 = rng.gen_range(0, 10);
    let nodes: usize = if d <= 4 {
        3
    } else if d <= 8 {
        5
    } else {
        7
    };
    let network = pick_network(rng.gen_range(0, 10));
    // Narrow schedules as well as broad ones: a schedule that mixes five fault
    // kinds spends its weight budget thinly.
    let faults = pick_faults(rng.gen_range(0, 10));
    let disk = if rng.chance(3, 10) {
        DiskConfig::flaky()
    } else {
        DiskConfig::reliable()
    };
    let initial_voters = pick_voters(nodes, &mut rng);
    let snapshot_every = pick_compaction(&mut rng);
    let clock_skew_permille: u32 = pick_skew(&mut rng);
    let max_entries_per_append: usize = pick_batch(&mut rng);
    let workload = pick_workload(rng.gen_range(0, 10));
    let standard = RaftConfig::default();
    let cfg = SimConfig {
        seed,
        nodes,
        raft: RaftConfig { bugs: opts.bugs, max_entries_per_append, ..standard },
        network,
        faults,
        disk,
        clock_skew_permille,
        record_trace: opts.record_trace,
        scripted_faults: None,
        initial_voters,
        snapshot_every,
        stale_reads: opts.stale_reads,
        check_invariants: true,
    };
    proof {
        law_seeds_give_valid_runs(seed, *opts);
    }
    (cfg, workload)
}

// ---------------------------------------------------------------------------
// Membership changes
// ---------------------------------------------------------------------------

/// `pool` with the positions from `j` down to 1 each swapped with one drawn from
/// those up to it, and the generator's state after.
pub open spec fn shuffled(pool: Seq<u32>, j: int, state: u64) -> (Seq<u32>, u64)
    decreases j,
{
    if j <= 0 {
        (pool, state)
    } else {
        let k = crate::rand::in_range(state, 0, (j + 1) as u64) as int;
        shuffled(
            pool.update(j, pool[k]).update(k, pool[j]),
            j - 1,
            crate::rand::advanced(state),
        )
    }
}

/// How many voters, by a roll of three.
pub open spec fn size_for(d: u64, nodes: usize) -> nat {
    if d == 0 {
        3
    } else if d == 1 && nodes > 5 {
        5
    } else if nodes % 2 == 0 {
        (nodes - 1) as nat
    } else {
        nodes as nat
    }
}

/// Who may vote: ids below `nodes`, ascending, and an odd number of at least
/// three of them, so there is always a clear majority.
pub open spec fn fair_voters(voters: Seq<u32>, nodes: usize) -> bool {
    &&& crate::order::ascending(voters)
    &&& forall|i: int| 0 <= i < voters.len() ==> (#[trigger] voters[i]) < nodes
    &&& voters.len() >= 3
    &&& voters.len() % 2 == 1
}

/// A plan of few changes, spread over the run in order.
pub open spec fn fair_plan(plan: Seq<(u64, Seq<u32>)>, nodes: usize, ticks: u64) -> bool {
    &&& plan.len() <= 3
    &&& nodes < 5 ==> plan.len() == 0
    &&& forall|i: int|
        0 <= i < plan.len() ==> (#[trigger] plan[i]).0 <= ticks && fair_voters(plan[i].1, nodes)
    &&& forall|i: int, j: int|
        0 <= i <= j < plan.len() ==> (#[trigger] plan[i]).0 <= (#[trigger] plan[j]).0
}

/// One change: who votes, and the generator's state after the draws.
pub open spec fn change_drawn(nodes: usize, state: u64) -> (Seq<u32>, u64) {
    let size = size_for(crate::rand::in_range(state, 0, 3), nodes);
    let (pool, after) = shuffled(
        crate::cluster_model::ids(nodes as nat),
        nodes - 1,
        crate::rand::advanced(state),
    );
    (crate::order::in_order(pool.take(size as int).to_set()), after)
}

/// The first `n` changes of a plan and the generator's state after them.
pub open spec fn changes_drawn(
    nodes: usize,
    ticks: u64,
    changes: u64,
    n: nat,
    state: u64,
) -> (Seq<(u64, Seq<u32>)>, u64)
    decreases n,
{
    if n == 0 {
        (Seq::empty(), state)
    } else {
        let (before, s) = changes_drawn(nodes, ticks, changes, (n - 1) as nat, state);
        let (voters, after) = change_drawn(nodes, s);
        // Spread over the run, leaving room to settle.
        (before.push((((ticks / ((changes + 1) as u64)) * n) as u64, voters)), after)
    }
}

/// A membership change schedule for a seed: when, and to what. Empty for most
/// seeds, so that runs without membership churn remain the control.
pub open spec fn plan_of(seed: u64, nodes: usize, ticks: u64) -> Seq<(u64, Seq<u32>)> {
    let s0 = crate::rand::stream_state(seed, MEMBERSHIP_STREAM);
    if nodes < 5 || !crate::rand::comes_up(s0, 35, 100) {
        Seq::empty()
    } else {
        let s1 = crate::rand::advanced(s0);
        let changes = crate::rand::in_range(s1, 1, 4);
        changes_drawn(nodes, ticks, changes, changes as nat, crate::rand::advanced(s1)).0
    }
}

/// What is shuffled stays the same, but for the order.
proof fn lemma_shuffled(pool: Seq<u32>, j: int, state: u64, nodes: usize)
    requires
        j < pool.len(),
        pool.len() == nodes <= u32::MAX,
        pool.no_duplicates(),
        forall|i: int| 0 <= i < pool.len() ==> (#[trigger] pool[i]) < nodes,
    ensures
        ({
            let p = shuffled(pool, j, state).0;
            &&& p.len() == nodes
            &&& p.no_duplicates()
            &&& forall|i: int| 0 <= i < p.len() ==> (#[trigger] p[i]) < nodes
        }),
    decreases j,
{
    if j > 0 {
        crate::rand::lemma_range_bounds(state, 0, (j + 1) as u64);
        let k = crate::rand::in_range(state, 0, (j + 1) as u64) as int;
        let next = pool.update(j, pool[k]).update(k, pool[j]);
        assert forall|a: int, b: int|
            0 <= a < next.len() && 0 <= b < next.len() && a != b implies next[a] != next[b] by {
            let x = if a == k {
                j
            } else if a == j {
                k
            } else {
                a
            };
            let y = if b == k {
                j
            } else if b == j {
                k
            } else {
                b
            };
            assert(next[a] == pool[x] && next[b] == pool[y] && x != y);
        }
        lemma_shuffled(next, j - 1, crate::rand::advanced(state), nodes);
    }
}

/// Every change that is drawn leaves a clear majority.
proof fn lemma_change_fair(nodes: usize, state: u64)
    requires
        5 <= nodes <= u32::MAX,
    ensures
        fair_voters(change_drawn(nodes, state).0, nodes),
{
    let size = size_for(crate::rand::in_range(state, 0, 3), nodes);
    let ids = crate::cluster_model::ids(nodes as nat);
    lemma_shuffled(ids, nodes - 1, crate::rand::advanced(state), nodes);
    let pool = shuffled(ids, nodes - 1, crate::rand::advanced(state)).0;
    let part = pool.take(size as int);
    assert(part.no_duplicates());
    part.unique_seq_to_set();
    vstd::seq_lib::seq_to_set_is_finite(part);
    crate::order::lemma_in_order_exists(part.to_set());
    let voters = change_drawn(nodes, state).0;
    assert forall|i: int| 0 <= i < voters.len() implies (#[trigger] voters[i]) < nodes by {
        assert(voters.to_set().contains(voters[i]));
        let k = choose|k: int| 0 <= k < part.len() && part[k] == voters[i];
        assert(part[k] == pool[k]);
    }
}

/// So far the plan is fair.
proof fn lemma_changes_fair(nodes: usize, ticks: u64, changes: u64, n: nat, state: u64)
    requires
        5 <= nodes <= u32::MAX,
        n <= changes <= 3,
    ensures
        ({
            let plan = changes_drawn(nodes, ticks, changes, n, state).0;
            &&& plan.len() == n
            &&& fair_plan(plan, nodes, ticks)
            &&& forall|i: int|
                0 <= i < n ==> (#[trigger] plan[i]).0 == (ticks / ((changes + 1) as u64)) * (i + 1)
        }),
    decreases n,
{
    if n > 0 {
        lemma_changes_fair(nodes, ticks, changes, (n - 1) as nat, state);
        let (before, s) = changes_drawn(nodes, ticks, changes, (n - 1) as nat, state);
        lemma_change_fair(nodes, s);
        let step = (ticks / ((changes + 1) as u64)) as int;
        assert(step * (changes + 1) <= ticks) by (nonlinear_arith)
            requires
                step == ticks / ((changes + 1) as u64),
                changes <= 3,
        ;
        assert(0 <= step * n <= step * (changes + 1)) by (nonlinear_arith)
            requires
                n <= changes,
                step >= 0,
        ;
        let plan = changes_drawn(nodes, ticks, changes, n, state).0;
        assert forall|i: int| 0 <= i < n implies (#[trigger] plan[i]).0 == step * (i + 1) by {
            if i < n - 1 {
                assert(plan[i] == before[i]);
            }
        }
        assert forall|i: int, j: int| 0 <= i <= j < plan.len() implies (#[trigger] plan[i]).0 <= (
        #[trigger] plan[j]).0 by {
            assert(step * (i + 1) <= step * (j + 1)) by (nonlinear_arith)
                requires
                    i <= j,
                    step >= 0,
            ;
        }
        assert forall|i: int| 0 <= i < plan.len() implies (#[trigger] plan[i]).0 <= ticks
            && fair_voters(plan[i].1, nodes) by {
            if i < n - 1 {
                assert(plan[i] == before[i]);
            }
        }
    }
}

/// A membership plan has a handful of changes, in order and within the run, and
/// after each of them an odd number of nodes votes. Small clusters have none.
pub proof fn law_membership_plans_are_fair(seed: u64, nodes: usize, ticks: u64)
    requires
        nodes <= u32::MAX,
    ensures
        fair_plan(plan_of(seed, nodes, ticks), nodes, ticks),
{
    let s0 = crate::rand::stream_state(seed, MEMBERSHIP_STREAM);
    if !(nodes < 5 || !crate::rand::comes_up(s0, 35, 100)) {
        let s1 = crate::rand::advanced(s0);
        crate::rand::lemma_range_bounds(s1, 1, 4);
        let changes = crate::rand::in_range(s1, 1, 4);
        lemma_changes_fair(nodes, ticks, changes, changes as nat, crate::rand::advanced(s1));
    }
}

/// Thirty-five in a hundred of the larger clusters change their membership, from
/// one to three times, at even distances over the run; no other cluster does.
pub proof fn law_membership_plans_are_spread_evenly(seed: u64, nodes: usize, ticks: u64)
    requires
        nodes <= u32::MAX,
    ensures
        ({
            let s = crate::rand::stream_state(seed, 0x004d_454d_4245_5200);
            let plan = plan_of(seed, nodes, ticks);
            let n = plan.len();
            &&& n > 0 <==> nodes >= 5 && crate::rand::comes_up(s, 35, 100)
            &&& n > 0 ==> 1 <= n <= 3 && n == crate::rand::in_range(
                crate::rand::advanced(s),
                1,
                4,
            )
            &&& forall|i: int|
                0 <= i < n ==> (#[trigger] plan[i]).0 == (ticks as int / (n + 1) as int) * (i + 1)
        }),
{
    let s0 = crate::rand::stream_state(seed, MEMBERSHIP_STREAM);
    if !(nodes < 5 || !crate::rand::comes_up(s0, 35, 100)) {
        let s1 = crate::rand::advanced(s0);
        crate::rand::lemma_range_bounds(s1, 1, 4);
        let changes = crate::rand::in_range(s1, 1, 4);
        lemma_changes_fair(nodes, ticks, changes, changes as nat, crate::rand::advanced(s1));
    }
}

/// A membership change lands exactly when it is due: on the leader, if there is
/// one, in the order of the plan; and each of them is used up.
pub proof fn law_changes_land_when_due(c: Campaign, plan: Seq<(u64, Seq<u32>)>)
    ensures
        ({
            let d = c.with_change(plan);
            let due = c.done < plan.len() && c.sim.now >= plan[c.done as int].0;
            &&& !due ==> d == c
            &&& due ==> d.done == c.done + 1 && d.driver == c.driver
            &&& due ==> match c.sim.leader() {
                Some(leader) => d.sim == c.sim.change_membership(
                    leader,
                    plan[c.done as int].1.to_set(),
                ),
                None => d.sim == c.sim,
            }
        }),
{
}

pub open spec fn plan_view(s: Seq<(u64, Vec<NodeId>)>) -> Seq<(u64, Seq<u32>)> {
    Seq::new(s.len(), |i: int| (s[i].0, s[i].1@))
}

/// Draw one change.
fn draw_change(nodes: usize, rng: &mut Rng) -> (r: Vec<NodeId>)
    requires
        5 <= nodes <= u32::MAX,
    ensures
        (r@, final(rng)@) == change_drawn(nodes, old(rng)@),
{
    let ghost s0 = rng@;
    proof {
        crate::rand::lemma_range_bounds(s0, 0, 3);
    }
    let d: u64 = rng.gen_range(0, 3);
    // An odd-sized subset, so there is always a clear majority.
    let size: usize = if d == 0 {
        3
    } else if d == 1 && nodes > 5 {
        5
    } else if nodes % 2 == 0 {
        nodes - 1
    } else {
        nodes
    };
    let mut pool: Vec<NodeId> = Vec::new();
    let mut i: usize = 0;
    while i < nodes
        invariant
            i <= nodes <= u32::MAX,
            pool@ == crate::cluster_model::ids(i as nat),
        decreases nodes - i,
    {
        pool.push(i as u32);
        i = i + 1;
        assert(pool@ =~= crate::cluster_model::ids(i as nat));
    }
    let ghost want = shuffled(pool@, nodes - 1, rng@);
    let mut j: usize = nodes - 1;
    while j > 0
        invariant
            j < nodes == pool@.len(),
            want == shuffled(pool@, j as int, rng@),
        decreases j,
    {
        proof {
            crate::rand::lemma_range_bounds(rng@, 0, (j + 1) as u64);
        }
        let drawn: u64 = rng.gen_range(0, j as u64 + 1);
        let k: usize = drawn as usize;
        let a: NodeId = pool[j];
        let b: NodeId = pool[k];
        pool.set(j, b);
        pool.set(k, a);
        j = j - 1;
    }
    let ghost whole = pool@;
    pool.truncate(size);
    assert(pool@ =~= whole.take(size as int));
    let set = crate::config::id_set_of(pool.as_slice());
    crate::order::ids_in_order(&set)
}

/// A membership change schedule for a seed: when, and to what.
pub fn membership_plan(seed: u64, nodes: usize, ticks: u64) -> (r: Vec<(u64, Vec<NodeId>)>)
    requires
        nodes <= u32::MAX,
    ensures
        plan_view(r@) == plan_of(seed, nodes, ticks),
        fair_plan(plan_view(r@), nodes, ticks),
{
    proof {
        law_membership_plans_are_fair(seed, nodes, ticks);
    }
    let mut rng = Rng::derive(seed, MEMBERSHIP_STREAM);
    let mut plan: Vec<(u64, Vec<NodeId>)> = Vec::new();
    assert(plan_view(plan@) =~= Seq::empty());
    if nodes < 5 || !rng.chance(35, 100) {
        return plan;
    }
    proof {
        crate::rand::lemma_range_bounds(rng@, 1, 4);
    }
    let changes: u64 = rng.gen_range(1, 4);
    let ghost s0 = rng@;
    let step: u64 = ticks / (changes + 1);
    let mut i: u64 = 0;
    while i < changes
        invariant
            i <= changes <= 4,
            5 <= nodes <= u32::MAX,
            step == ticks / ((changes + 1) as u64),
            (plan_view(plan@), rng@) == changes_drawn(nodes, ticks, changes, i as nat, s0),
        decreases changes - i,
    {
        let ghost before = plan@;
        let voters = draw_change(nodes, &mut rng);
        proof {
            assert(step * (i + 1) <= step * (changes + 1)) by (nonlinear_arith)
                requires
                    i < changes,
                    step >= 0,
            ;
            assert(step * (changes + 1) <= ticks) by (nonlinear_arith)
                requires
                    step == ticks / ((changes + 1) as u64),
                    changes <= 4,
            ;
        }
        let at: u64 = step * (i + 1);
        let ghost new = (at, voters@);
        plan.push((at, voters));
        assert(plan_view(plan@) =~= plan_view(before).push(new));
        i = i + 1;
    }
    plan
}

// ---------------------------------------------------------------------------
// Running a configuration
// ---------------------------------------------------------------------------

/// A run under way: the cluster, its clients, and how much of the membership
/// plan is done.
pub struct Campaign {
    pub sim: ClusterView,
    pub driver: DriverView,
    pub done: nat,
}

/// How a seed's clients retry: how long they wait, and how often they try.
pub open spec fn retries_of(seed: u64) -> (u64, u32) {
    let s0 = crate::rand::stream_state(seed, RETRY_STREAM);
    let s1 = crate::rand::advanced(s0);
    (
        crate::rand::in_range(s0, 300, 1_200),
        if crate::rand::comes_up(s1, 7, 10) {
            crate::rand::in_range(crate::rand::advanced(s1), 2, 6) as u32
        } else {
            1
        },
    )
}

impl Campaign {
    pub open spec fn start(cfg: SimView, workload: WorkloadConfig) -> Campaign {
        Campaign {
            // A chance to elect someone before piling work on.
            sim: ClusterView::start(cfg).ran_to_leader(5_000),
            driver: DriverView {
                work: WorkloadView::start(cfg.seed, workload),
                in_flight: Seq::empty(),
                retry_after: retries_of(cfg.seed).0,
                max_attempts: retries_of(cfg.seed).1,
                retries: 0,
                abandoned: 0,
            },
            done: 0,
        }
    }

    /// A membership change that is due lands.
    pub open spec fn with_change(self, plan: Seq<(u64, Seq<u32>)>) -> Campaign {
        if self.done < plan.len() && self.sim.now >= plan[self.done as int].0 {
            Campaign {
                sim: match self.sim.leader() {
                    Some(leader) => self.sim.change_membership(
                        leader,
                        plan[self.done as int].1.to_set(),
                    ),
                    None => self.sim,
                },
                done: self.done + 1,
                ..self
            }
        } else {
            self
        }
    }

    /// One round: a membership change if one is due, then the clients, then as
    /// long as they say.
    #[verifier::opaque]
    pub open spec fn round(self, plan: Seq<(u64, Seq<u32>)>) -> Campaign {
        let changed = self.with_change(plan);
        let (driver, sim, gap) = changed.driver.step(changed.sim);
        Campaign { sim: sim.ran_until(sim.now.saturating_add(gap)), driver, done: changed.done }
    }

    pub open spec fn after(self, plan: Seq<(u64, Seq<u32>)>, n: nat) -> Campaign
        decreases n,
    {
        if n == 0 {
            self
        } else {
            self.after(plan, (n - 1) as nat).round(plan)
        }
    }

    /// Exactly the next `n` rounds start before `ticks`.
    pub open spec fn lasts(self, plan: Seq<(u64, Seq<u32>)>, ticks: u64, n: nat) -> bool {
        &&& forall|k: nat| k < n ==> (#[trigger] self.after(plan, k)).sim.now < ticks
        &&& self.after(plan, n).sim.now >= ticks
    }

    pub open spec fn rounds(self, plan: Seq<(u64, Seq<u32>)>, ticks: u64) -> nat {
        choose|n: nat| self.lasts(plan, ticks, n)
    }
}

/// There is only one number of rounds that start before `ticks`.
pub(crate) proof fn lemma_rounds_determined(
    c: Campaign,
    plan: Seq<(u64, Seq<u32>)>,
    ticks: u64,
    n: nat,
)
    requires
        c.lasts(plan, ticks, n),
    ensures
        c.rounds(plan, ticks) == n,
{
    let m = c.rounds(plan, ticks);
    assert(c.lasts(plan, ticks, m));
    if n < m {
        assert(c.after(plan, n).sim.now < ticks);
    } else if m < n {
        assert(c.after(plan, m).sim.now < ticks);
    }
}

/// The cluster at the end of a configuration's run.
pub open spec fn end_of_run(cfg: SimView, workload: WorkloadConfig, ticks: u64) -> ClusterView {
    let plan = plan_of(cfg.seed, cfg.nodes, ticks);
    let start = Campaign::start(cfg, workload);
    let end = start.after(plan, start.rounds(plan, ticks)).sim;
    // The dust settles, so that late violations still surface.
    end.ran_until(end.now.saturating_add(10_000))
}

/// Everything about a seed's run that matters afterwards.
#[derive(Debug)]
pub struct SeedResult {
    pub seed: u64,
    pub nodes: usize,
    pub violations: Vec<Violation>,
    pub stats: RunStats,
    pub network: NetworkStats,
    /// The faults that actually fired, in order. The starting point for
    /// shrinking.
    pub faults: Vec<(u64, Fault)>,
    /// Whether clients were told a coherent story.
    pub linearizability: Verdict,
    pub history_completed: usize,
    pub history_pending: usize,
}

pub struct ResultOfSeed {
    pub seed: u64,
    pub nodes: usize,
    pub violations: Seq<ViolationView>,
    pub stats: RunStats,
    pub network: NetworkStats,
    pub faults: Seq<(u64, FaultView)>,
    pub linearizability: VerdictView,
    pub history_completed: nat,
    pub history_pending: nat,
}

impl View for SeedResult {
    type V = ResultOfSeed;

    open spec fn view(&self) -> ResultOfSeed {
        ResultOfSeed {
            seed: self.seed,
            nodes: self.nodes,
            violations: crate::invariants::violations_view(self.violations@),
            stats: self.stats,
            network: self.network,
            faults: crate::cluster::faults_view(self.faults@),
            linearizability: self.linearizability@,
            history_completed: self.history_completed as nat,
            history_pending: self.history_pending as nat,
        }
    }
}

/// What a finished run amounts to.
pub open spec fn result_of(cfg: SimView, end: ClusterView, budget: u64) -> ResultOfSeed {
    ResultOfSeed {
        seed: cfg.seed,
        nodes: cfg.nodes,
        violations: end.checker.violations,
        stats: end.stats,
        network: end.net.stats,
        faults: end.faults_injected,
        linearizability: crate::linearizability::verdict_on(end.history, budget),
        history_completed: crate::history::count_ops(
            end.history.ops,
            end.history.ops.len() as int,
            |o: crate::history::OpView| o.outcome is Completed,
        ),
        history_pending: crate::history::count_ops(
            end.history.ops,
            end.history.ops.len() as int,
            |o: crate::history::OpView| o.outcome is Pending,
        ),
    }
}

/// Where the earliest of the first `n` violations stands; the first of those
/// that share its tick.
pub open spec fn earliest(violations: Seq<ViolationView>, n: int) -> int
    decreases n,
{
    if n <= 1 {
        0
    } else {
        let before = earliest(violations, n - 1);
        if violations[n - 1].tick < violations[before].tick {
            n - 1
        } else {
            before
        }
    }
}

/// The violation at `k` is none later than any, and earlier than those listed
/// before it.
pub open spec fn leads(violations: Seq<ViolationView>, k: int) -> bool {
    &&& 0 <= k < violations.len()
    &&& forall|i: int|
        0 <= i < violations.len() ==> (#[trigger] violations[i]).tick >= violations[k].tick
    &&& forall|i: int| 0 <= i < k ==> (#[trigger] violations[i]).tick > violations[k].tick
}

impl ResultOfSeed {
    pub open spec fn failed(self) -> bool {
        self.violations.len() > 0 || self.linearizability is NotLinearizable
    }

    pub open spec fn first_violation(self) -> Option<ViolationView> {
        if self.violations.len() == 0 {
            None
        } else {
            Some(self.violations[earliest(self.violations, self.violations.len() as int)])
        }
    }
}

impl SeedResult {
    /// A seed fails if any Raft invariant broke *or* the client-visible history
    /// turned out to be impossible. The two catch different things.
    pub fn failed(&self) -> (r: bool)
        ensures
            r == self@.failed(),
    {
        self.violations.len() > 0 || self.linearizability.is_violation()
    }

    /// The earliest violation, which is usually the cause rather than a
    /// downstream symptom.
    pub fn first_violation(&self) -> (r: Option<&Violation>)
        ensures
            r is Some == self@.first_violation() is Some,
            r matches Some(v) ==> self@.first_violation() == Some(v@),
            r is None <==> self.violations@.len() == 0,
            r matches Some(v) ==> exists|k: int| #[trigger] leads(self@.violations, k) && v@
                == self@.violations[k],
    {
        let n: usize = self.violations.len();
        if n == 0 {
            return None;
        }
        let ghost all = crate::invariants::violations_view(self.violations@);
        let mut best: usize = 0;
        let mut i: usize = 1;
        while i < n
            invariant
                1 <= i <= n == self.violations@.len(),
                best < i,
                all == crate::invariants::violations_view(self.violations@),
                best == earliest(all, i as int),
            decreases n - i,
        {
            assert(all[i as int] == self.violations@[i as int]@);
            assert(all[best as int] == self.violations@[best as int]@);
            if self.violations[i].tick < self.violations[best].tick {
                best = i;
            }
            i = i + 1;
        }
        proof {
            lemma_earliest(all, n as int);
            assert(leads(self@.violations, best as int));
        }
        Some(&self.violations[best])
    }
}

/// Copies of violations.
fn copy_violations(violations: &[Violation]) -> (r: Vec<Violation>)
    ensures
        crate::invariants::violations_view(r@) == crate::invariants::violations_view(violations@),
{
    let mut r: Vec<Violation> = Vec::new();
    let mut i: usize = 0;
    while i < violations.len()
        invariant
            i <= violations@.len(),
            r@.len() == i,
            forall|k: int| 0 <= k < i ==> (#[trigger] r@[k])@ == violations@[k]@,
        decreases violations@.len() - i,
    {
        r.push(violations[i].clone());
        i = i + 1;
    }
    assert(crate::invariants::violations_view(r@) =~= crate::invariants::violations_view(
        violations@,
    ));
    r
}

/// What a finished run amounts to.
fn conclude(seed: u64, nodes: usize, sim: &Cluster, budget: u64) -> (r: SeedResult)
    requires
        sim.wf(),
    ensures
        forall|cfg: SimView|
            cfg.seed == seed && cfg.nodes == nodes ==> r@ == #[trigger] result_of(
                cfg,
                sim@,
                budget,
            ),
{
    SeedResult {
        seed,
        nodes,
        violations: copy_violations(sim.violations()),
        stats: *sim.stats(),
        network: *sim.network_stats(),
        faults: copy_faults(sim.faults_injected()),
        linearizability: crate::linearizability::check_with_budget(sim.history(), budget),
        history_completed: sim.history().completed(),
        history_pending: sim.history().pending(),
    }
}

/// Run one configuration to completion.
pub fn run_config(cfg: SimConfig, workload: WorkloadConfig, ticks: u64) -> (r: (
    Cluster,
    SeedResult,
))
    requires
        cfg@.valid(),
        workload.valid(),
        workload.gap_min > 0,
    ensures
        r.0.wf(),
        r.0@ == end_of_run(cfg@, workload, ticks),
        r.1@ == result_of(cfg@, r.0@, LINEARIZABILITY_BUDGET),
        r.0@.hosts.len() == cfg.nodes,
{
    run_config_with(cfg, workload, ticks, LINEARIZABILITY_BUDGET)
}

/// The clients of a seed.
fn clients_of(seed: u64, workload: WorkloadConfig) -> (r: ClientDriver)
    requires
        workload.valid(),
    ensures
        forall|cfg: SimView|
            cfg.seed == seed ==> r@ == (#[trigger] Campaign::start(cfg, workload)).driver,
        r@.wf(),
        r@.work.cfg == workload,
{
    // Retry behaviour is part of the search space: some clients give up after
    // one attempt, others resend until they are heard.
    let mut rng = Rng::derive(seed, RETRY_STREAM);
    let retry_after: u64 = rng.gen_range(300, 1_200);
    let max_attempts: u32 = if rng.chance(7, 10) {
        let n: u64 = rng.gen_range(2, 6);
        n as u32
    } else {
        1
    };
    ClientDriver::new(seed, workload, retry_after, max_attempts)
}

pub fn run_config_with(
    cfg: SimConfig,
    workload: WorkloadConfig,
    ticks: u64,
    linearizability_budget: u64,
) -> (r: (Cluster, SeedResult))
    requires
        cfg@.valid(),
        workload.valid(),
        workload.gap_min > 0,
    ensures
        r.0.wf(),
        r.0@ == end_of_run(cfg@, workload, ticks),
        r.1@ == result_of(cfg@, r.0@, linearizability_budget),
        r.0@.hosts.len() == cfg.nodes,
{
    let seed: u64 = cfg.seed;
    let nodes: usize = cfg.nodes;
    let ghost given = cfg@;
    let mut sim = Cluster::new(cfg);
    let plan = membership_plan(seed, nodes, ticks);
    let mut driver = clients_of(seed, workload);
    let ghost planned = plan_view(plan@);
    let ghost start = Campaign::start(given, workload);
    let _ = sim.run_until_leader(5_000);
    let mut done: usize = 0;
    let ghost mut n: nat = 0;
    while sim.now() < ticks
        invariant
            sim.wf(),
            sim@.hosts.len() == nodes,
            driver@.wf(),
            driver@.work.cfg == workload,
            workload.gap_min > 0,
            planned == plan_view(plan@),
            done <= plan@.len(),
            start.after(planned, n) == (Campaign { sim: sim@, driver: driver@, done: done as nat }),
            forall|k: nat| k < n ==> (#[trigger] start.after(planned, k)).sim.now < ticks,
        decreases
            (if sim@.now < ticks {
                ticks - sim@.now
            } else {
                0
            }),
    {
        done = play_round(&mut sim, &mut driver, &plan, done);
        proof {
            n = n + 1;
        }
    }
    proof {
        lemma_rounds_determined(start, planned, ticks, n);
    }
    // Let the dust settle so late violations still surface, and so a membership
    // change late in the run has time to finish.
    sim.run_for(10_000);
    let result = conclude(seed, nodes, &sim, linearizability_budget);
    (sim, result)
}

/// One round of a run; it takes time.
fn play_round(
    sim: &mut Cluster,
    driver: &mut ClientDriver,
    plan: &Vec<(u64, Vec<NodeId>)>,
    done: usize,
) -> (r: usize)
    requires
        old(sim).wf(),
        old(driver)@.wf(),
        old(driver)@.work.cfg.gap_min > 0,
        done <= plan@.len(),
    ensures
        final(sim).wf(),
        final(driver)@.wf(),
        final(driver)@.work.cfg == old(driver)@.work.cfg,
        final(sim)@.hosts.len() == old(sim)@.hosts.len(),
        r <= plan@.len(),
        (Campaign { sim: final(sim)@, driver: final(driver)@, done: r as nat }) == (Campaign {
            sim: old(sim)@,
            driver: old(driver)@,
            done: done as nat,
        }).round(plan_view(plan@)),
        old(sim)@.now < u64::MAX ==> final(sim)@.now > old(sim)@.now,
{
    proof {
        reveal(Campaign::round);
    }
    let ghost planned = plan_view(plan@);
    let ghost start = Campaign { sim: sim@, driver: driver@, done: done as nat };
    let mut next: usize = done;
    if done < plan.len() {
        assert(planned[done as int] == (plan@[done as int].0, plan@[done as int].1@));
        // Membership changes land partway through, on top of whatever faults
        // the schedule is already causing.
        if sim.now() >= plan[done].0 {
            let _ = sim.change_membership(plan[done].1.as_slice());
            next = done + 1;
        }
    }
    assert((Campaign { sim: sim@, driver: driver@, done: next as nat }) == start.with_change(
        planned,
    ));
    let gap: u64 = step_clients(driver, sim);
    sim.run_for(gap);
    next
}

/// One round of the clients; it takes time.
fn step_clients(driver: &mut ClientDriver, sim: &mut Cluster) -> (r: Tick)
    requires
        old(driver)@.wf(),
        old(sim).wf(),
        old(driver)@.work.cfg.gap_min > 0,
    ensures
        final(driver)@.wf(),
        final(sim).wf(),
        final(sim)@.hosts == old(sim)@.hosts,
        final(sim)@.now == old(sim)@.now,
        final(driver)@.work.cfg == old(driver)@.work.cfg,
        (final(driver)@, final(sim)@, r) == old(driver)@.step(old(sim)@),
        r > 0,
{
    let r: u64 = driver.step(sim);
    proof {
        crate::workload::lemma_step_keeps(old(driver)@, old(sim)@);
        let (d1, s1) = old(driver)@.tidied(old(sim)@);
        let (d2, s2) = d1.issue(s1);
        let w = d2.work;
        if w.cfg.gap_max > w.cfg.gap_min {
            crate::rand::lemma_range_bounds(w.rng, w.cfg.gap_min, w.cfg.gap_max);
        }
    }
    r
}

pub fn run_seed(seed: u64, opts: &Options) -> (r: SeedResult)
    ensures
        r@ == result_for(seed, *opts),
{
    proof {
        reveal(result_for);
    }
    let (cfg, workload) = config_for_seed(seed, opts);
    let (_, result) = run_config_with(cfg, workload, opts.ticks, opts.linearizability_budget);
    result
}

/// What a seed's run amounts to.
#[verifier::opaque]
pub open spec fn result_for(seed: u64, opts: Options) -> ResultOfSeed {
    let (cfg, workload) = config_of(seed, opts);
    result_of(cfg, end_of_run(cfg, workload, opts.ticks), opts.linearizability_budget)
}

/// Re-run a seed with tracing on. Free, because the run is reproducible.
pub fn trace_seed(seed: u64, opts: &Options) -> (r: Cluster)
    ensures
        r.wf(),
        ({
            let (cfg, workload) = config_of(seed, *opts);
            r@ == end_of_run((SimView { record_trace: true, ..cfg }), workload, opts.ticks)
        }),
{
    let (mut cfg, workload) = config_for_seed(seed, opts);
    cfg.record_trace = true;
    let (sim, _) = run_config(cfg, workload, opts.ticks);
    sim
}

/// The recorded history for a seed, for inspection.
pub fn history_for(seed: u64, opts: &Options) -> (r: History)
    ensures
        ({
            let (cfg, workload) = config_of(seed, *opts);
            r@ == end_of_run(cfg, workload, opts.ticks).history
        }),
{
    let (cfg, workload) = config_for_seed(seed, opts);
    let (sim, _) = run_config_with(cfg, workload, opts.ticks, opts.linearizability_budget);
    sim.history().clone()
}

/// The workload must actually commit things, or a clean sweep proves nothing.
pub fn committed_anything(seed: u64, opts: &Options) -> (r: bool)
    ensures
        ({
            let (cfg, workload) = config_of(seed, *opts);
            let end = end_of_run(cfg, workload, opts.ticks);
            r == exists|i: int|
                0 <= i < end.hosts.len() && (#[trigger] end.hosts[i]).machine.data
                    != Map::<Seq<char>, Seq<char>>::empty()
        }),
{
    let (cfg, workload) = config_for_seed(seed, opts);
    let (sim, _) = run_config(cfg, workload, opts.ticks);
    holds_something(&sim)
}

/// Does any node's state machine hold anything?
fn holds_something(sim: &Cluster) -> (r: bool)
    requires
        sim.wf(),
    ensures
        r == exists|i: int|
            0 <= i < sim@.hosts.len() && (#[trigger] sim@.hosts[i]).machine.data
                != Map::<Seq<char>, Seq<char>>::empty(),
{
    proof {
        sim.lemma_size();
    }
    let ids = sim.node_ids();
    let mut i: usize = 0;
    while i < ids.len()
        invariant
            sim.wf(),
            ids@ == crate::cluster_model::ids(sim@.hosts.len()),
            sim@.hosts.len() <= u32::MAX,
            i <= ids@.len(),
            forall|k: int|
                0 <= k < i ==> (#[trigger] sim@.hosts[k]).machine.data
                    == Map::<Seq<char>, Seq<char>>::empty(),
        decreases ids@.len() - i,
    {
        if !sim.machine(ids[i]).is_empty() {
            assert(sim@.hosts[i as int].machine.data != Map::<Seq<char>, Seq<char>>::empty());
            return true;
        }
        i = i + 1;
    }
    false
}

/// A put, for callers that only want to write something.
pub fn put(key: &str, value: &str) -> (r: KvCommand)
    ensures
        r@ == (CommandView::Put { key: key@, value: value@ }),
{
    KvCommand::Put { key: key.to_owned(), value: value.to_owned() }
}

// ---------------------------------------------------------------------------
// Minimization
// ---------------------------------------------------------------------------

/// What kind of failure a shrink is trying to preserve.
#[derive(Clone, Copy, Debug, PartialEq, Eq, Structural)]
pub enum Target {
    /// A specific Raft invariant broke.
    Invariant(Invariant),
    /// The client-visible history was impossible.
    Linearizability,
}

impl Target {
    pub open spec fn name_spec(self) -> Seq<char> {
        match self {
            Target::Invariant(i) => Seq::<char>::empty() + i.name_spec() + " ("@
                + i.paper_ref_spec() + ")"@,
            Target::Linearizability => "Linearizability"@,
        }
    }

    pub fn name(self) -> (r: String)
        ensures
            r@ == self.name_spec(),
    {
        match self {
            Target::Invariant(i) => {
                let mut r = String::new();
                r.append(i.name());
                r.append(" (");
                r.append(i.paper_ref());
                r.append(")");
                r
            },
            Target::Linearizability => "Linearizability".to_owned(),
        }
    }

    /// This result is a failure of this kind.
    pub open spec fn hit_by(self, result: ResultOfSeed) -> bool {
        match self {
            Target::Invariant(i) => exists|k: int|
                0 <= k < result.violations.len() && (#[trigger] result.violations[k]).property
                    == i,
            Target::Linearizability => result.linearizability is NotLinearizable,
        }
    }
}

#[derive(Debug)]
pub struct Minimized {
    pub seed: u64,
    /// What the shrink is preserving.
    pub target: Target,
    pub original_faults: usize,
    pub original_ticks: u64,
    pub faults: Vec<(u64, Fault)>,
    pub ticks: u64,
    /// How many candidate runs it took.
    pub attempts: usize,
    /// False if the failure could not be reproduced from the captured script at
    /// all, in which case the repro is the seed itself and nothing more.
    pub reproduced: bool,
}

pub struct MinimizedView {
    pub seed: u64,
    pub target: Target,
    pub original_faults: nat,
    pub original_ticks: u64,
    pub faults: Seq<(u64, FaultView)>,
    pub ticks: u64,
    pub attempts: usize,
    pub reproduced: bool,
}

impl View for Minimized {
    type V = MinimizedView;

    open spec fn view(&self) -> MinimizedView {
        MinimizedView {
            seed: self.seed,
            target: self.target,
            original_faults: self.original_faults as nat,
            original_ticks: self.original_ticks,
            faults: crate::cluster::faults_view(self.faults@),
            ticks: self.ticks,
            attempts: self.attempts,
            reproduced: self.reproduced,
        }
    }
}

impl Minimized {
    pub fn shrank_by(&self) -> (r: usize)
        ensures
            r == (if self@.original_faults > self@.faults.len() {
                self@.original_faults - self@.faults.len()
            } else {
                0
            }),
    {
        self.original_faults.saturating_sub(self.faults.len())
    }
}

/// What is being shrunk: a configuration, its clients and the failure to keep.
pub struct Quarry {
    pub cfg: SimView,
    pub workload: WorkloadConfig,
    pub target: Target,
}

impl Quarry {
    /// This script, run this long, still fails in the same way.
    #[verifier::opaque]
    pub open spec fn fails(self, script: Seq<(u64, FaultView)>, ticks: u64) -> bool {
        let cfg = SimView {
            scripted_faults: Some(script),
            record_trace: false,
            ..self.cfg
        };
        self.target.hit_by(
            result_of(cfg, end_of_run(cfg, self.workload, ticks), LINEARIZABILITY_BUDGET),
        )
    }
}

/// A shrink under way.
pub struct Shrink {
    pub script: Seq<(u64, FaultView)>,
    pub attempts: usize,
    /// Something was removed in this pass.
    pub removed: bool,
}

/// A script without the faults from `i` up to `end`.
pub open spec fn cut_out(script: Seq<(u64, FaultView)>, i: int, end: int) -> Seq<(u64, FaultView)> {
    script.take(i) + script.skip(end)
}

/// Where a chunk that starts at `i` ends.
pub open spec fn chunk_end(i: int, chunk: nat, len: nat) -> int {
    if i + chunk < len {
        i + chunk
    } else {
        len as int
    }
}

impl Shrink {
    /// One pass over the script from `i` on: each chunk is taken out, and stays
    /// out if the failure survives.
    pub open spec fn pass(self, q: Quarry, ticks: u64, budget: usize, chunk: nat, i: int) -> Shrink
        decreases budget - self.attempts,
    {
        if i < 0 || i >= self.script.len() || self.attempts >= budget {
            self
        } else {
            let end = chunk_end(i, chunk, self.script.len());
            let candidate = cut_out(self.script, i, end);
            let attempts = (self.attempts + 1) as usize;
            if q.fails(candidate, ticks) {
                // The next chunk has slid into this position.
                Shrink { script: candidate, attempts, removed: true }.pass(
                    q,
                    ticks,
                    budget,
                    chunk,
                    i,
                )
            } else {
                Shrink { attempts, ..self }.pass(q, ticks, budget, chunk, end)
            }
        }
    }

    /// Delta debugging: large chunks first, down to single faults, until the
    /// budget is gone or a pass over single faults removes nothing.
    pub open spec fn run(self, q: Quarry, ticks: u64, budget: usize, chunk: nat) -> Shrink
        decreases budget - self.attempts, chunk,
    {
        proof {
            lemma_pass_progress(Shrink { removed: false, ..self }, q, ticks, budget, chunk, 0);
        }
        let p = Shrink { removed: false, ..self }.pass(q, ticks, budget, chunk, 0);
        if p.attempts >= budget {
            p
        } else if chunk <= 1 {
            if p.removed {
                p.run(q, ticks, budget, chunk)
            } else {
                p
            }
        } else {
            p.run(q, ticks, budget, chunk / 2)
        }
    }
}

/// A pass only ever spends attempts, and spends one for whatever it removes.
pub proof fn lemma_pass_progress(
    s: Shrink,
    q: Quarry,
    ticks: u64,
    budget: usize,
    chunk: nat,
    i: int,
)
    ensures
        s.pass(q, ticks, budget, chunk, i).attempts >= s.attempts,
        s.pass(q, ticks, budget, chunk, i).removed && !s.removed ==> s.pass(
            q,
            ticks,
            budget,
            chunk,
            i,
        ).attempts > s.attempts,
        s.attempts <= budget ==> s.pass(q, ticks, budget, chunk, i).attempts <= budget,
    decreases budget - s.attempts,
{
    if i < 0 || i >= s.script.len() || s.attempts >= budget {
    } else {
        let end = chunk_end(i, chunk, s.script.len());
        let candidate = cut_out(s.script, i, end);
        let attempts = (s.attempts + 1) as usize;
        if q.fails(candidate, ticks) {
            lemma_pass_progress(
                Shrink { script: candidate, attempts, removed: true },
                q,
                ticks,
                budget,
                chunk,
                i,
            );
        } else {
            lemma_pass_progress(Shrink { attempts, ..s }, q, ticks, budget, chunk, end);
        }
    }
}

/// `places` picks out of `whole`, in order, exactly `part`.
pub open spec fn picks(
    places: Seq<int>,
    part: Seq<(u64, FaultView)>,
    whole: Seq<(u64, FaultView)>,
) -> bool {
    &&& places.len() == part.len()
    &&& forall|k: int|
        0 <= k < places.len() ==> 0 <= (#[trigger] places[k]) < whole.len() && whole[places[k]]
            == part[k]
    &&& forall|a: int, b: int|
        0 <= a < b < places.len() ==> (#[trigger] places[a]) < (#[trigger] places[b])
}

/// `part` is `whole` with some faults left out, the others in the same order.
pub open spec fn drawn_from(part: Seq<(u64, FaultView)>, whole: Seq<(u64, FaultView)>) -> bool {
    exists|places: Seq<int>| picks(places, part, whole)
}

proof fn lemma_drawn_refl(s: Seq<(u64, FaultView)>)
    ensures
        drawn_from(s, s),
{
    assert(picks(Seq::new(s.len(), |k: int| k), s, s));
}

proof fn lemma_drawn_trans(
    a: Seq<(u64, FaultView)>,
    b: Seq<(u64, FaultView)>,
    c: Seq<(u64, FaultView)>,
)
    requires
        drawn_from(a, b),
        drawn_from(b, c),
    ensures
        drawn_from(a, c),
{
    let p = choose|p: Seq<int>| picks(p, a, b);
    let q = choose|q: Seq<int>| picks(q, b, c);
    let r = Seq::new(p.len(), |k: int| q[p[k]]);
    assert forall|k: int| 0 <= k < r.len() implies 0 <= (#[trigger] r[k]) < c.len() && c[r[k]]
        == a[k] by {
        assert(b[p[k]] == a[k]);
        assert(c[q[p[k]]] == b[p[k]]);
    }
    assert(picks(r, a, c));
}

proof fn lemma_cut_drawn(s: Seq<(u64, FaultView)>, i: int, end: int)
    requires
        0 <= i <= end <= s.len(),
    ensures
        drawn_from(cut_out(s, i, end), s),
{
    let part = cut_out(s, i, end);
    let places = Seq::new(
        part.len(),
        |k: int|
            if k < i {
                k
            } else {
                k + end - i
            },
    );
    assert(picks(places, part, s));
}

/// A removal is only kept when the failure survives.
proof fn lemma_pass_reproduces(
    s: Shrink,
    q: Quarry,
    ticks: u64,
    budget: usize,
    chunk: nat,
    i: int,
)
    requires
        q.fails(s.script, ticks),
    ensures
        q.fails(s.pass(q, ticks, budget, chunk, i).script, ticks),
        drawn_from(s.pass(q, ticks, budget, chunk, i).script, s.script),
    decreases budget - s.attempts,
{
    lemma_drawn_refl(s.script);
    if i < 0 || i >= s.script.len() || s.attempts >= budget {
    } else {
        let end = chunk_end(i, chunk, s.script.len());
        let candidate = cut_out(s.script, i, end);
        let attempts = (s.attempts + 1) as usize;
        if q.fails(candidate, ticks) {
            lemma_pass_reproduces(
                Shrink { script: candidate, attempts, removed: true },
                q,
                ticks,
                budget,
                chunk,
                i,
            );
            lemma_cut_drawn(s.script, i, end);
            lemma_drawn_trans(
                s.pass(q, ticks, budget, chunk, i).script,
                candidate,
                s.script,
            );
        } else {
            lemma_pass_reproduces(Shrink { attempts, ..s }, q, ticks, budget, chunk, end);
        }
    }
}

/// A pass that has removed something never forgets it.
proof fn lemma_removed_stays(
    s: Shrink,
    q: Quarry,
    ticks: u64,
    budget: usize,
    chunk: nat,
    i: int,
)
    requires
        s.removed,
    ensures
        s.pass(q, ticks, budget, chunk, i).removed,
    decreases budget - s.attempts,
{
    if i < 0 || i >= s.script.len() || s.attempts >= budget {
    } else {
        let end = chunk_end(i, chunk, s.script.len());
        let candidate = cut_out(s.script, i, end);
        let attempts = (s.attempts + 1) as usize;
        if q.fails(candidate, ticks) {
            lemma_removed_stays(
                Shrink { script: candidate, attempts, removed: true },
                q,
                ticks,
                budget,
                chunk,
                i,
            );
        } else {
            lemma_removed_stays(Shrink { attempts, ..s }, q, ticks, budget, chunk, end);
        }
    }
}

/// A pass over single faults that removes nothing within the budget has tried
/// them all.
proof fn lemma_pass_exhausts(s: Shrink, q: Quarry, ticks: u64, budget: usize, i: int)
    requires
        0 <= i,
        !s.removed,
        !s.pass(q, ticks, budget, 1, i).removed,
        s.pass(q, ticks, budget, 1, i).attempts < budget,
    ensures
        s.pass(q, ticks, budget, 1, i).script == s.script,
        forall|k: int|
            i <= k < s.script.len() ==> !q.fails(#[trigger] cut_out(s.script, k, k + 1), ticks),
    decreases budget - s.attempts,
{
    if i >= s.script.len() || s.attempts >= budget {
    } else {
        let end = chunk_end(i, 1, s.script.len());
        assert(end == i + 1);
        let candidate = cut_out(s.script, i, end);
        let attempts = (s.attempts + 1) as usize;
        if q.fails(candidate, ticks) {
            lemma_removed_stays(
                Shrink { script: candidate, attempts, removed: true },
                q,
                ticks,
                budget,
                1,
                i,
            );
        } else {
            lemma_pass_exhausts(Shrink { attempts, ..s }, q, ticks, budget, end);
        }
    }
}

/// What a shrink ends with still fails in the same way, with nothing but faults
/// that it began with, in the same order; and unless the budget ran out, every single fault that remains
/// is needed.
pub proof fn law_shrinking_keeps_the_failure(
    s: Shrink,
    q: Quarry,
    ticks: u64,
    budget: usize,
    chunk: nat,
)
    requires
        q.fails(s.script, ticks),
        chunk >= 1,
    ensures
        ({
            let end = s.run(q, ticks, budget, chunk);
            &&& q.fails(end.script, ticks)
            &&& drawn_from(end.script, s.script)
            &&& end.attempts < budget ==> forall|k: int|
                0 <= k < end.script.len() ==> !q.fails(
                    #[trigger] cut_out(end.script, k, k + 1),
                    ticks,
                )
        }),
    decreases budget - s.attempts, chunk,
{
    let begin = Shrink { removed: false, ..s };
    lemma_pass_progress(begin, q, ticks, budget, chunk, 0);
    lemma_pass_reproduces(begin, q, ticks, budget, chunk, 0);
    let p = begin.pass(q, ticks, budget, chunk, 0);
    let end = s.run(q, ticks, budget, chunk);
    if p.attempts >= budget {
    } else if chunk <= 1 {
        if p.removed {
            law_shrinking_keeps_the_failure(p, q, ticks, budget, chunk);
            lemma_drawn_trans(end.script, p.script, s.script);
        } else {
            lemma_pass_exhausts(begin, q, ticks, budget, 0);
        }
    } else {
        law_shrinking_keeps_the_failure(p, q, ticks, budget, chunk / 2);
        lemma_drawn_trans(end.script, p.script, s.script);
    }
}

/// How much longer than the first violation a shortened run is tried at.
pub open spec fn slack(k: int) -> u64 {
    if k == 0 {
        500
    } else if k == 1 {
        2_000
    } else {
        5_000
    }
}

/// A shorter run, if one that ends soon after the first violation still fails:
/// how long, and how many attempts were made in all.
pub open spec fn shortened(
    q: Quarry,
    script: Seq<(u64, FaultView)>,
    ticks: u64,
    first: u64,
    k: int,
    attempts: usize,
) -> (u64, usize)
    decreases 3 - k,
{
    if k >= 3 {
        (ticks, attempts)
    } else {
        let candidate = first.saturating_add(slack(k));
        if candidate >= ticks {
            shortened(q, script, ticks, first, k + 1, attempts)
        } else if q.fails(script, candidate) {
            (candidate, attempts.saturating_add(1))
        } else {
            shortened(q, script, ticks, first, k + 1, attempts.saturating_add(1))
        }
    }
}

/// What a seed's failure is, if it failed.
pub open spec fn target_of(result: ResultOfSeed) -> Option<Target> {
    match result.first_violation() {
        Some(v) => Some(Target::Invariant(v.property)),
        None => if result.linearizability is NotLinearizable {
            Some(Target::Linearizability)
        } else {
            None
        },
    }
}

/// The chunk that a shrink of `n` faults starts with.
pub open spec fn first_chunk(n: nat) -> nat {
    if n / 2 < 1 {
        1
    } else {
        n / 2
    }
}

/// The smallest reproduction of a seed's failure that the budget finds.
pub open spec fn minimized_of(seed: u64, opts: Options) -> Option<MinimizedView> {
    let original = result_for(seed, opts);
    match target_of(original) {
        None => None,
        Some(target) => {
            let (cfg, workload) = config_of(seed, opts);
            let q = Quarry { cfg, workload, target };
            if !q.fails(original.faults, opts.ticks) {
                Some(
                    MinimizedView {
                        seed,
                        target,
                        original_faults: original.faults.len(),
                        original_ticks: opts.ticks,
                        faults: original.faults,
                        ticks: opts.ticks,
                        attempts: 1,
                        reproduced: false,
                    },
                )
            } else {
                let (ticks, attempts) = match original.first_violation() {
                    Some(v) => shortened(q, original.faults, opts.ticks, v.tick, 0, 1),
                    None => (opts.ticks, 1usize),
                };
                let end = Shrink { script: original.faults, attempts, removed: false }.run(
                    q,
                    ticks,
                    opts.minimize_budget,
                    first_chunk(original.faults.len()),
                );
                Some(
                    MinimizedView {
                        seed,
                        target,
                        original_faults: original.faults.len(),
                        original_ticks: opts.ticks,
                        faults: end.script,
                        ticks,
                        attempts: end.attempts,
                        reproduced: true,
                    },
                )
            }
        },
    }
}

proof fn lemma_shortened_fails(
    q: Quarry,
    script: Seq<(u64, FaultView)>,
    ticks: u64,
    first: u64,
    k: int,
    attempts: usize,
)
    requires
        q.fails(script, ticks),
    ensures
        q.fails(script, shortened(q, script, ticks, first, k, attempts).0),
        shortened(q, script, ticks, first, k, attempts).0 <= ticks,
    decreases 3 - k,
{
    if k < 3 {
        let candidate = first.saturating_add(slack(k));
        if candidate >= ticks {
            lemma_shortened_fails(q, script, ticks, first, k + 1, attempts);
        } else if !q.fails(script, candidate) {
            lemma_shortened_fails(q, script, ticks, first, k + 1, attempts.saturating_add(1));
        }
    }
}

/// A minimized repro is always a genuine reproduction: its script, replayed from
/// scratch for its ticks, fails in the same way. The faults in it are some of
/// those of the run it came from, in the same order, and all of them where the
/// failure could not be replayed; and it takes no longer. There is one exactly
/// when the seed failed.
pub proof fn law_minimized_repros_reproduce(seed: u64, opts: Options)
    ensures
        minimized_of(seed, opts) is Some <==> result_for(seed, opts).failed(),
        minimized_of(seed, opts) matches Some(m) ==> {
            let (cfg, workload) = config_of(seed, opts);
            let q = Quarry { cfg, workload, target: m.target };
            &&& drawn_from(m.faults, result_for(seed, opts).faults)
            &&& m.original_faults == result_for(seed, opts).faults.len()
            &&& !m.reproduced ==> m.faults == result_for(seed, opts).faults
            &&& m.original_ticks == opts.ticks
            &&& m.ticks <= m.original_ticks
            &&& m.target.hit_by(result_for(seed, opts))
            &&& m.reproduced <==> q.fails(result_for(seed, opts).faults, opts.ticks)
            &&& m.reproduced ==> q.fails(m.faults, m.ticks)
            &&& m.reproduced && m.attempts < opts.minimize_budget ==> forall|k: int|
                0 <= k < m.faults.len() ==> !q.fails(
                    #[trigger] cut_out(m.faults, k, k + 1),
                    m.ticks,
                )
        },
{
    let original = result_for(seed, opts);
    lemma_drawn_refl(original.faults);
    if original.violations.len() > 0 {
        lemma_earliest(original.violations, original.violations.len() as int);
        let k = earliest(original.violations, original.violations.len() as int);
        assert(original.violations[k].property == original.first_violation()->0.property);
    }
    match target_of(original) {
        None => {},
        Some(target) => {
            let (cfg, workload) = config_of(seed, opts);
            let q = Quarry { cfg, workload, target };
            if q.fails(original.faults, opts.ticks) {
                let (ticks, attempts) = match original.first_violation() {
                    Some(v) => shortened(q, original.faults, opts.ticks, v.tick, 0, 1),
                    None => (opts.ticks, 1usize),
                };
                match original.first_violation() {
                    Some(v) => lemma_shortened_fails(q, original.faults, opts.ticks, v.tick, 0, 1),
                    None => {},
                }
                law_shrinking_keeps_the_failure(
                    Shrink { script: original.faults, attempts, removed: false },
                    q,
                    ticks,
                    opts.minimize_budget,
                    first_chunk(original.faults.len()),
                );
            }
        },
    }
}

pub proof fn lemma_earliest(violations: Seq<ViolationView>, n: int)
    requires
        1 <= n <= violations.len(),
    ensures
        0 <= earliest(violations, n) < n,
        forall|i: int|
            0 <= i < n ==> (#[trigger] violations[i]).tick >= violations[earliest(
                violations,
                n,
            )].tick,
        forall|i: int|
            0 <= i < earliest(violations, n) ==> (#[trigger] violations[i]).tick
                > violations[earliest(violations, n)].tick,
    decreases n,
{
    if n > 1 {
        lemma_earliest(violations, n - 1);
    }
}

/// The first violation of a run is one of its violations: no other came earlier,
/// and none that is listed before it came as early. There is one exactly where
/// something was violated.
pub proof fn law_the_first_violation_came_first(r: ResultOfSeed)
    ensures
        r.first_violation() is None <==> r.violations.len() == 0,
        r.first_violation() matches Some(v) ==> {
            &&& r.violations.contains(v)
            &&& forall|i: int|
                0 <= i < r.violations.len() ==> (#[trigger] r.violations[i]).tick >= v.tick
            &&& exists|k: int|
                0 <= k < r.violations.len() && #[trigger] r.violations[k] == v && forall|i: int|
                    0 <= i < k ==> (#[trigger] r.violations[i]).tick > v.tick
        },
{
    if r.violations.len() > 0 {
        let n = r.violations.len() as int;
        lemma_earliest(r.violations, n);
        let k = earliest(r.violations, n);
        assert(r.violations[k] == r.first_violation()->0);
    }
}

/// A run is cut to end 500, 2,000 or 5,000 ticks after its first violation: the
/// soonest of those that is shorter than the run and still fails; or not at all,
/// where none does.
pub open spec fn cut_soonest(
    q: Quarry,
    script: Seq<(u64, FaultView)>,
    ticks: u64,
    first: u64,
    cut: u64,
) -> bool {
    &&& cut == ticks || (cut < ticks && q.fails(script, cut) && (cut == first + 500 || cut == first
        + 2_000 || cut == first + 5_000))
    &&& forall|sooner: u64|
        sooner < cut && (sooner == first + 500 || sooner == first + 2_000 || sooner == first
            + 5_000) ==> !#[trigger] q.fails(script, sooner)
}

proof fn lemma_shortened(
    q: Quarry,
    script: Seq<(u64, FaultView)>,
    ticks: u64,
    first: u64,
)
    ensures
        cut_soonest(q, script, ticks, first, shortened(q, script, ticks, first, 0, 1).0),
        1 <= shortened(q, script, ticks, first, 0, 1).1 <= 4,
{
    reveal_with_fuel(shortened, 4);
}

proof fn lemma_run_progress(s: Shrink, q: Quarry, ticks: u64, budget: usize, chunk: nat)
    ensures
        s.run(q, ticks, budget, chunk).attempts >= s.attempts,
        s.attempts <= budget ==> s.run(q, ticks, budget, chunk).attempts <= budget,
        s.attempts > budget ==> s.run(q, ticks, budget, chunk).attempts == s.attempts,
    decreases budget - s.attempts, chunk,
{
    let begin = Shrink { removed: false, ..s };
    lemma_pass_progress(begin, q, ticks, budget, chunk, 0);
    let p = begin.pass(q, ticks, budget, chunk, 0);
    if p.attempts >= budget {
    } else if chunk <= 1 {
        if p.removed {
            lemma_run_progress(p, q, ticks, budget, chunk);
        }
    } else {
        lemma_run_progress(p, q, ticks, budget, chunk / 2);
    }
}

/// What is kept while a failure is shrunk is the property that was violated
/// first, or, where none was, that the history makes no sense; the run is cut as
/// short after that violation as it can be.
pub proof fn law_the_first_failure_is_kept(seed: u64, opts: Options)
    ensures
        minimized_of(seed, opts) matches Some(m) ==> {
            let original = result_for(seed, opts);
            let (cfg, workload) = config_of(seed, opts);
            let q = Quarry { cfg, workload, target: m.target };
            &&& m.seed == seed
            &&& original.violations.len() > 0 ==> exists|k: int| #[trigger]
                leads(original.violations, k) && m.target == Target::Invariant(
                    original.violations[k].property,
                ) && (m.reproduced ==> cut_soonest(
                    q,
                    original.faults,
                    opts.ticks,
                    original.violations[k].tick,
                    m.ticks,
                ))
            &&& original.violations.len() == 0 ==> m.target == Target::Linearizability && m.ticks
                == opts.ticks && original.linearizability is NotLinearizable
            &&& !m.reproduced ==> m.ticks == opts.ticks && m.attempts == 1
            &&& m.attempts >= 1
            &&& m.attempts <= 4 || m.attempts <= opts.minimize_budget
        },
{
    let original = result_for(seed, opts);
    if let Some(m) = minimized_of(seed, opts) {
        let (cfg, workload) = config_of(seed, opts);
        let q = Quarry { cfg, workload, target: m.target };
        if original.violations.len() > 0 {
            let n = original.violations.len() as int;
            lemma_earliest(original.violations, n);
            let k = earliest(original.violations, n);
            assert(leads(original.violations, k));
            assert(original.first_violation() == Some(original.violations[k]));
            lemma_shortened(q, original.faults, opts.ticks, original.violations[k].tick);
        }
        let (ticks, attempts) = match original.first_violation() {
            Some(v) => shortened(q, original.faults, opts.ticks, v.tick, 0, 1),
            None => (opts.ticks, 1usize),
        };
        lemma_run_progress(
            Shrink { script: original.faults, attempts, removed: false },
            q,
            ticks,
            opts.minimize_budget,
            first_chunk(original.faults.len()),
        );
    }
}

/// Does this result show the failure?
fn shows(result: &SeedResult, target: Target) -> (r: bool)
    ensures
        r == target.hit_by(result@),
{
    match target {
        Target::Invariant(p) => {
            let mut i: usize = 0;
            while i < result.violations.len()
                invariant
                    target == Target::Invariant(p),
                    i <= result.violations@.len(),
                    forall|k: int|
                        0 <= k < i ==> (#[trigger] result@.violations[k]).property != p,
                decreases result.violations@.len() - i,
            {
                if result.violations[i].property == p {
                    assert(result@.violations[i as int].property == p);
                    return true;
                }
                i = i + 1;
            }
            false
        },
        Target::Linearizability => result.linearizability.is_violation(),
    }
}

/// Does this script still fail in the same way?
fn still_fails(
    cfg: &SimConfig,
    workload: WorkloadConfig,
    target: Target,
    script: &Vec<(u64, Fault)>,
    ticks: u64,
) -> (r: bool)
    requires
        cfg@.valid(),
        workload.valid(),
        workload.gap_min > 0,
    ensures
        r == (Quarry { cfg: cfg@, workload, target }).fails(
            crate::cluster::faults_view(script@),
            ticks,
        ),
{
    proof {
        reveal(Quarry::fails);
    }
    let mut candidate = cfg.clone();
    candidate.scripted_faults = Some(copy_faults(script));
    candidate.record_trace = false;
    let (_, result) = run_config(candidate, workload, ticks);
    shows(&result, target)
}

/// A script without the faults from `i` up to `end`.
fn without_faults(script: &Vec<(u64, Fault)>, i: usize, end: usize) -> (r: Vec<(u64, Fault)>)
    requires
        i <= end <= script@.len(),
    ensures
        crate::cluster::faults_view(r@) == cut_out(
            crate::cluster::faults_view(script@),
            i as int,
            end as int,
        ),
        r@.len() == script@.len() - (end - i),
{
    let mut r: Vec<(u64, Fault)> = Vec::new();
    let mut k: usize = 0;
    while k < script.len()
        invariant
            i <= end <= script@.len(),
            k <= script@.len(),
            r@.len() == (if k < i {
                k as int
            } else if k < end {
                i as int
            } else {
                k - (end - i)
            }),
            forall|j: int|
                0 <= j < r@.len() ==> {
                    let from = if j < i {
                        j
                    } else {
                        j + (end - i)
                    };
                    (#[trigger] r@[j]).0 == script@[from].0 && r@[j].1@ == script@[from].1@
                },
        decreases script@.len() - k,
    {
        if k < i || k >= end {
            r.push((script[k].0, script[k].1.clone()));
        }
        k = k + 1;
    }
    assert(crate::cluster::faults_view(r@) =~= cut_out(
        crate::cluster::faults_view(script@),
        i as int,
        end as int,
    ));
    r
}

/// One pass over the script.
fn shrink_pass(
    cfg: &SimConfig,
    workload: WorkloadConfig,
    target: Target,
    ticks: u64,
    budget: usize,
    chunk: usize,
    script: Vec<(u64, Fault)>,
    attempts: usize,
) -> (r: (Vec<(u64, Fault)>, usize, bool))
    requires
        cfg@.valid(),
        workload.valid(),
        workload.gap_min > 0,
        chunk > 0,
    ensures
        (Shrink {
            script: crate::cluster::faults_view(r.0@),
            attempts: r.1,
            removed: r.2,
        }) == (Shrink {
            script: crate::cluster::faults_view(script@),
            attempts,
            removed: false,
        }).pass((Quarry { cfg: cfg@, workload, target }), ticks, budget, chunk as nat, 0),
{
    let ghost q = Quarry { cfg: cfg@, workload, target };
    let ghost want = Shrink {
        script: crate::cluster::faults_view(script@),
        attempts,
        removed: false,
    }.pass(q, ticks, budget, chunk as nat, 0);
    let mut script = script;
    let mut attempts = attempts;
    let mut removed = false;
    let mut i: usize = 0;
    while i < script.len() && attempts < budget
        invariant
            cfg@.valid(),
            workload.valid(),
            workload.gap_min > 0,
            chunk > 0,
            q == (Quarry { cfg: cfg@, workload, target }),
            i <= script@.len(),
            want == (Shrink {
                script: crate::cluster::faults_view(script@),
                attempts,
                removed,
            }).pass(q, ticks, budget, chunk as nat, i as int),
        decreases budget - attempts,
    {
        let n: usize = script.len();
        let end: usize = if chunk < n - i {
            i + chunk
        } else {
            n
        };
        let candidate = without_faults(&script, i, end);
        attempts = attempts + 1;
        if still_fails(cfg, workload, target, &candidate, ticks) {
            script = candidate;
            removed = true;
        } else {
            i = end;
        }
    }
    (script, attempts, removed)
}

/// Shorten a run that fails.
fn shorten(
    cfg: &SimConfig,
    workload: WorkloadConfig,
    target: Target,
    script: &Vec<(u64, Fault)>,
    ticks: u64,
    first: Tick,
) -> (r: (u64, usize))
    requires
        cfg@.valid(),
        workload.valid(),
        workload.gap_min > 0,
    ensures
        r == shortened(
            (Quarry { cfg: cfg@, workload, target }),
            crate::cluster::faults_view(script@),
            ticks,
            first,
            0,
            1,
        ),
{
    let ghost q = Quarry { cfg: cfg@, workload, target };
    let ghost sv = crate::cluster::faults_view(script@);
    let mut attempts: usize = 1;
    let mut k: u64 = 0;
    while k < 3
        invariant
            cfg@.valid(),
            workload.valid(),
            workload.gap_min > 0,
            q == (Quarry { cfg: cfg@, workload, target }),
            sv == crate::cluster::faults_view(script@),
            k <= 3,
            shortened(q, sv, ticks, first, 0, 1) == shortened(
                q,
                sv,
                ticks,
                first,
                k as int,
                attempts,
            ),
        decreases 3 - k,
    {
        let more: u64 = if k == 0 {
            500
        } else if k == 1 {
            2_000
        } else {
            5_000
        };
        let candidate: u64 = first.saturating_add(more);
        if candidate < ticks {
            attempts = attempts.saturating_add(1);
            if still_fails(cfg, workload, target, script, candidate) {
                return (candidate, attempts);
            }
        }
        k = k + 1;
    }
    (ticks, attempts)
}

/// Delta debugging over a script.
fn shrink(
    cfg: &SimConfig,
    workload: WorkloadConfig,
    target: Target,
    ticks: u64,
    budget: usize,
    script: Vec<(u64, Fault)>,
    attempts: usize,
) -> (r: (Vec<(u64, Fault)>, usize))
    requires
        cfg@.valid(),
        workload.valid(),
        workload.gap_min > 0,
    ensures
        ({
            let end = (Shrink {
                script: crate::cluster::faults_view(script@),
                attempts,
                removed: false,
            }).run(
                (Quarry { cfg: cfg@, workload, target }),
                ticks,
                budget,
                first_chunk(script@.len()),
            );
            &&& crate::cluster::faults_view(r.0@) == end.script
            &&& r.1 == end.attempts
        }),
{
    let ghost q = Quarry { cfg: cfg@, workload, target };
    let half: usize = script.len() / 2;
    let mut chunk: usize = if half < 1 {
        1
    } else {
        half
    };
    let ghost want = Shrink {
        script: crate::cluster::faults_view(script@),
        attempts,
        removed: false,
    }.run(q, ticks, budget, chunk as nat);
    let mut script = script;
    let mut attempts = attempts;
    let mut going = true;
    // Chunks matter: a partition and its matching heal usually have to go
    // together, so removing them one at a time makes no progress.
    while going
        invariant
            cfg@.valid(),
            workload.valid(),
            workload.gap_min > 0,
            chunk > 0,
            q == (Quarry { cfg: cfg@, workload, target }),
            going ==> want == (Shrink {
                script: crate::cluster::faults_view(script@),
                attempts,
                removed: false,
            }).run(q, ticks, budget, chunk as nat),
            !going ==> want.script == crate::cluster::faults_view(script@) && want.attempts
                == attempts,
        decreases
            going as int,
            (if attempts < budget {
                budget - attempts
            } else {
                0
            }),
            chunk,
    {
        let ghost now = Shrink {
            script: crate::cluster::faults_view(script@),
            attempts,
            removed: false,
        };
        proof {
            lemma_pass_progress(now, q, ticks, budget, chunk as nat, 0);
            lemma_run_ignores_removed(
                now.pass(q, ticks, budget, chunk as nat, 0),
                q,
                ticks,
                budget,
                chunk as nat,
            );
            lemma_run_ignores_removed(
                now.pass(q, ticks, budget, chunk as nat, 0),
                q,
                ticks,
                budget,
                chunk as nat / 2,
            );
        }
        let (shorter, tried, removed) = shrink_pass(
            cfg,
            workload,
            target,
            ticks,
            budget,
            chunk,
            script,
            attempts,
        );
        script = shorter;
        attempts = tried;
        if attempts >= budget {
            going = false;
        } else if chunk == 1 {
            // A full single-fault pass that removed nothing means a local
            // minimum: every remaining fault is load-bearing.
            if !removed {
                going = false;
            }
        } else {
            chunk = chunk / 2;
        }
    }
    (script, attempts)
}

proof fn lemma_run_ignores_removed(s: Shrink, q: Quarry, ticks: u64, budget: usize, chunk: nat)
    ensures
        s.run(q, ticks, budget, chunk) == (Shrink { removed: false, ..s }).run(
            q,
            ticks,
            budget,
            chunk,
        ),
{
    assert((Shrink { removed: false, ..(Shrink { removed: false, ..s }) }) == (Shrink {
        removed: false,
        ..s
    }));
}

/// Shrink a failure to the smallest fault schedule that still reproduces it.
///
/// Greedy delta debugging over the fault list, plus a pass at shortening the
/// run. Removing a fault changes every random draw that follows it, so a
/// candidate may stop failing for reasons unrelated to the fault that was
/// dropped, which is fine: a removal is only kept when the failure survives.
pub fn minimize(seed: u64, opts: &Options) -> (r: Option<Minimized>)
    ensures
        r is Some == minimized_of(seed, *opts) is Some,
        r matches Some(m) ==> minimized_of(seed, *opts) == Some(m@),
{
    let original = run_seed(seed, opts);
    // Prefer an invariant failure: it names a specific rule and usually points
    // at the cause, where a linearizability failure is the symptom.
    let first: Option<(Tick, Invariant)> = match original.first_violation() {
        Some(v) => Some((v.tick, v.property)),
        None => None,
    };
    let target = match first {
        Some(v) => Target::Invariant(v.1),
        None => {
            if original.linearizability.is_violation() {
                Target::Linearizability
            } else {
                return None;
            }
        },
    };
    let (cfg, workload) = config_for_seed(seed, opts);
    let count: usize = original.faults.len();
    // First: can the failure be reproduced from a fixed script at all?
    if !still_fails(&cfg, workload, target, &original.faults, opts.ticks) {
        return Some(
            Minimized {
                seed,
                target,
                original_faults: count,
                original_ticks: opts.ticks,
                faults: original.faults,
                ticks: opts.ticks,
                attempts: 1,
                reproduced: false,
            },
        );
    }
    // Shrink the run first: a shorter run makes every later candidate cheaper.
    let (ticks, attempts) = match first {
        Some(v) => shorten(&cfg, workload, target, &original.faults, opts.ticks, v.0),
        None => (opts.ticks, 1),
    };
    let (faults, spent) = shrink(
        &cfg,
        workload,
        target,
        ticks,
        opts.minimize_budget,
        original.faults,
        attempts,
    );
    Some(
        Minimized {
            seed,
            target,
            original_faults: count,
            original_ticks: opts.ticks,
            faults,
            ticks,
            attempts: spent,
            reproduced: true,
        },
    )
}

// ---------------------------------------------------------------------------
// Description
// ---------------------------------------------------------------------------

/// A seed's configuration in one line.
pub open spec fn description_of(seed: u64, opts: Options) -> Seq<char> {
    let (cfg, workload) = config_of(seed, opts);
    let snapshots = match cfg.snapshot_every {
        Some(n) => Seq::<char>::empty() + "every "@ + crate::text::decimal(n as nat),
        None => "never"@,
    };
    let faults = if cfg.faults.enabled {
        "scheduled"@
    } else {
        "no"@
    };
    Seq::<char>::empty() + "seed "@ + crate::text::decimal(seed as nat) + ": "@
        + crate::text::decimal(cfg.nodes as nat) + " nodes, batch "@ + crate::text::decimal(
        cfg.raft.max_entries_per_append as nat,
    ) + ", snapshot "@ + snapshots + ", drop "@ + crate::text::decimal(
        cfg.network.drop_permille as nat,
    ) + "permille, "@ + faults + " faults, disk "@ + crate::text::decimal(
        cfg.disk.torn_step_permille as nat,
    ) + "permille, skew "@ + crate::text::decimal(cfg.clock_skew_permille as nat) + "permille, "@
        + crate::text::decimal(workload.clients as nat) + " clients on "@ + crate::text::decimal(
        workload.keys as nat,
    ) + " keys"@
}

/// A seed's configuration in one line.
pub fn describe(seed: u64, opts: &Options) -> (r: String)
    ensures
        r@ == description_of(seed, *opts),
{
    let (cfg, workload) = config_for_seed(seed, opts);
    let mut snapshots = String::new();
    match cfg.snapshot_every {
        Some(n) => {
            snapshots.append("every ");
            push_decimal(&mut snapshots, n as u64);
        },
        None => {
            snapshots.append("never");
            assert(snapshots@ =~= "never"@);
        },
    }
    let mut r = String::new();
    r.append("seed ");
    push_decimal(&mut r, seed);
    r.append(": ");
    push_decimal(&mut r, cfg.nodes as u64);
    r.append(" nodes, batch ");
    push_decimal(&mut r, cfg.raft.max_entries_per_append as u64);
    r.append(", snapshot ");
    r.append(snapshots.as_str());
    r.append(", drop ");
    push_decimal(&mut r, cfg.network.drop_permille as u64);
    r.append("permille, ");
    r.append(
        if cfg.faults.enabled {
            "scheduled"
        } else {
            "no"
        },
    );
    r.append(" faults, disk ");
    push_decimal(&mut r, cfg.disk.torn_step_permille as u64);
    r.append("permille, skew ");
    push_decimal(&mut r, cfg.clock_skew_permille as u64);
    r.append("permille, ");
    push_decimal(&mut r, workload.clients as u64);
    r.append(" clients on ");
    push_decimal(&mut r, workload.keys as u64);
    r.append(" keys");
    r
}

} // verus!
