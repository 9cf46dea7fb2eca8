//! Replays.
//!
//! A run is fuzzed with the trace off, and looked into with the trace on. Both
//! are the same run: the clients do the same, the same number of events happens,
//! and what comes of it is the same.
use crate::cluster_model::{ClusterView, SimView};
use crate::fuzz::{Campaign, Options, Quarry, Target};
use crate::kv::CommandView;
use crate::workload::{AskView, DriverView, WorkloadConfig};
use vstd::prelude::*;

verus! {

// ---------------------------------------------------------------------------
// Runs end
// ---------------------------------------------------------------------------

/// An event is counted.
proof fn lemma_step_counts(c: ClusterView)
    requires
        c.queue.slots.len() > 0,
    ensures
        c.step().events_processed == c.events_processed.saturating_add(1),
{
    reveal(ClusterView::step);
    let next = c.queue.slots[0];
    crate::books::lemma_on_event(
        ClusterView {
            queue: c.queue.rest(),
            now: next.tick,
            events_processed: c.events_processed.saturating_add(1),
            ..c
        },
        next.seq,
        next.event,
    );
}

/// Only so many events happen by a deadline.
proof fn lemma_run_ends(c: ClusterView, deadline: u64) -> (n: nat)
    ensures
        c.runs_for(deadline, n),
    decreases u64::MAX - c.events_processed,
{
    assert(c.after(0) == c);
    if !c.busy_until(deadline) {
        0
    } else {
        lemma_step_counts(c);
        let m = lemma_run_ends(c.step(), deadline);
        assert(c.after(1) == c.after(0).step());
        assert forall|k: nat| k < m + 1 implies (#[trigger] c.after(k)).busy_until(deadline) by {
            if k > 0 {
                crate::cluster_laws::lemma_after_after(c, 1, (k - 1) as nat);
                assert(c.step().after((k - 1) as nat).busy_until(deadline));
            }
        }
        crate::cluster_laws::lemma_after_after(c, 1, m);
        m + 1
    }
}

/// Nobody waits for a leader for ever.
proof fn lemma_wait_ends(c: ClusterView, deadline: u64, n: nat) -> (m: nat)
    requires
        forall|k: nat| k < n ==> (#[trigger] c.after(k)).awaits(deadline),
        forall|k: nat| 0 < k < n ==> (#[trigger] c.after(k)).leader() is None,
    ensures
        c.waits_for_leader(deadline, m),
    decreases u64::MAX - c.after(n).events_processed,
{
    let here = c.after(n);
    if !here.awaits(deadline) || (n > 0 && here.leader() is Some) {
        n
    } else {
        lemma_step_counts(here);
        assert(c.after((n + 1) as nat) == here.step());
        lemma_wait_ends(c, deadline, n + 1)
    }
}

// ---------------------------------------------------------------------------
// The clients do the same
// ---------------------------------------------------------------------------

/// The same run with the same findings; only the trace may differ.
pub open spec fn same_but_trace(a: ClusterView, b: ClusterView) -> bool {
    crate::observation::same_run(a, b) && crate::observation::same_checks(a, b)
}

proof fn lemma_sorts_same(d: DriverView, a: ClusterView, b: ClusterView, n: int)
    requires
        same_but_trace(a, b),
    ensures
        d.kept(a, n) == d.kept(b, n),
        d.overdue(a, n) == d.overdue(b, n),
        d.hopeless(a, n) == d.hopeless(b, n),
    decreases n,
{
    if n > 0 {
        lemma_sorts_same(d, a, b, n - 1);
        assert(d.fate(d.in_flight[n - 1], a) == d.fate(d.in_flight[n - 1], b));
    }
}

proof fn lemma_request_same(
    a: ClusterView,
    b: ClusterView,
    node: u32,
    client: u32,
    seq: u64,
    cmd: CommandView,
    voters: Set<u32>,
)
    requires
        same_but_trace(a, b),
    ensures
        same_but_trace(a.submit(node, client, seq, cmd), b.submit(node, client, seq, cmd)),
        same_but_trace(a.abandon(client, seq), b.abandon(client, seq)),
        same_but_trace(a.change_membership(node, voters), b.change_membership(node, voters)),
        a.leader() == b.leader(),
        a.hosts == b.hosts,
        a.now == b.now,
{
    crate::observation::law_watching_changes_no_request(
        a,
        b,
        node,
        client,
        seq,
        cmd,
        voters,
        crate::faults::FaultView::Heal,
    );
    crate::observation::law_watching_changes_no_wait(a, b, 0, 0);
}

proof fn lemma_give_up_same(
    d: DriverView,
    a: ClusterView,
    b: ClusterView,
    list: Seq<(u32, u64)>,
    n: int,
)
    requires
        same_but_trace(a, b),
    ensures
        d.give_up(a, list, n).0 == d.give_up(b, list, n).0,
        same_but_trace(d.give_up(a, list, n).1, d.give_up(b, list, n).1),
    decreases n,
{
    if n > 0 {
        lemma_give_up_same(d, a, b, list, n - 1);
        lemma_request_same(
            d.give_up(a, list, n - 1).1,
            d.give_up(b, list, n - 1).1,
            0,
            list[n - 1].0,
            list[n - 1].1,
            CommandView::Get { key: Seq::empty() },
            Set::empty(),
        );
    }
}

proof fn lemma_fire_same(d: DriverView, a: ClusterView, b: ClusterView, ask: AskView)
    requires
        same_but_trace(a, b),
    ensures
        d.fire(a, ask).0 == d.fire(b, ask).0,
        same_but_trace(d.fire(a, ask).1, d.fire(b, ask).1),
{
    crate::observation::law_watching_changes_no_wait(a, b, 0, 0);
    let target = d.work.aim(a.leader(), a.hosts.len()).0;
    lemma_request_same(a, b, target, ask.client, ask.seq, ask.command, Set::empty());
}

proof fn lemma_resend_same(
    d: DriverView,
    a: ClusterView,
    b: ClusterView,
    list: Seq<AskView>,
    n: int,
)
    requires
        same_but_trace(a, b),
    ensures
        d.resend(a, list, n).0 == d.resend(b, list, n).0,
        same_but_trace(d.resend(a, list, n).1, d.resend(b, list, n).1),
    decreases n,
{
    if n > 0 {
        lemma_resend_same(d, a, b, list, n - 1);
        let (e, s) = d.resend(a, list, n - 1);
        let t = d.resend(b, list, n - 1).1;
        lemma_fire_same(
            DriverView { retries: e.retries.saturating_add(1), ..e },
            s,
            t,
            list[n - 1],
        );
    }
}

proof fn lemma_clients_same(d: DriverView, a: ClusterView, b: ClusterView)
    requires
        same_but_trace(a, b),
    ensures
        d.step(a).0 == d.step(b).0,
        d.step(a).2 == d.step(b).2,
        same_but_trace(d.step(a).1, d.step(b).1),
{
    let n = d.in_flight.len() as int;
    lemma_sorts_same(d, a, b, n);
    let kept = DriverView { in_flight: d.kept(a, n), ..d };
    let list = d.hopeless(a, n);
    let due = d.overdue(a, n);
    lemma_give_up_same(kept, a, b, list, list.len() as int);
    let (d0, a0) = kept.give_up(a, list, list.len() as int);
    let b0 = kept.give_up(b, list, list.len() as int).1;
    lemma_resend_same(d0, a0, b0, due, due.len() as int);
    let (d1, a1) = d.tidied(a);
    let b1 = d.tidied(b).1;
    assert(d.tidied(b).0 == d1);
    let (ask, work) = d1.work.ask();
    lemma_fire_same(DriverView { work, ..d1 }, a1, b1, ask);
    lemma_request_same(
        a1,
        b1,
        0,
        0,
        0,
        CommandView::Get { key: Seq::empty() },
        Set::empty(),
    );
    assert(d1.issue(a1).0 == d1.issue(b1).0);
}

// ---------------------------------------------------------------------------
// Whole runs
// ---------------------------------------------------------------------------

/// The two are at the same point of the same run.
spec fn same_campaign(a: Campaign, b: Campaign) -> bool {
    a.driver == b.driver && a.done == b.done && same_but_trace(a.sim, b.sim)
}

proof fn lemma_until_same(a: ClusterView, b: ClusterView, deadline: u64)
    requires
        same_but_trace(a, b),
    ensures
        same_but_trace(a.ran_until(deadline), b.ran_until(deadline)),
        a.ran_until(deadline).now >= deadline,
{
    let n = lemma_run_ends(a, deadline);
    crate::observation::law_watching_changes_no_run(a, b, n, deadline);
}

proof fn lemma_round_same(a: Campaign, b: Campaign, plan: Seq<(u64, Seq<u32>)>)
    requires
        same_campaign(a, b),
    ensures
        same_campaign(a.round(plan), b.round(plan)),
        a.round(plan).driver.work.cfg == a.driver.work.cfg,
        a.driver.work.cfg.gap_min > 0 && a.sim.now < u64::MAX ==> a.round(plan).sim.now > a.sim.now,
{
    reveal(Campaign::round);
    let x = a.with_change(plan);
    let y = b.with_change(plan);
    if a.done < plan.len() && a.sim.now >= plan[a.done as int].0 {
        let voters = plan[a.done as int].1.to_set();
        match a.sim.leader() {
            Some(leader) => {
                lemma_request_same(
                    a.sim,
                    b.sim,
                    leader,
                    0,
                    0,
                    CommandView::Get { key: Seq::empty() },
                    voters,
                );
                crate::books::lemma_change_membership(a.sim, leader, voters);
            },
            None => {
                lemma_request_same(
                    a.sim,
                    b.sim,
                    0,
                    0,
                    0,
                    CommandView::Get { key: Seq::empty() },
                    voters,
                );
            },
        }
    }
    assert(same_campaign(x, y));
    assert(x.sim.now == a.sim.now);
    lemma_clients_same(x.driver, x.sim, y.sim);
    crate::workload::lemma_step_keeps(x.driver, x.sim);
    let (driver, sim, gap) = x.driver.step(x.sim);
    let until = sim.now.saturating_add(gap);
    lemma_until_same(sim, y.driver.step(y.sim).1, until);
    assert(sim.now == y.driver.step(y.sim).1.now);
    let (d1, s1) = x.driver.tidied(x.sim);
    let w = d1.issue(s1).0.work;
    assert(gap == w.gap());
    assert(gap >= w.cfg.gap_min) by {
        if w.cfg.gap_max > w.cfg.gap_min {
            crate::rand::lemma_range_bounds(w.rng, w.cfg.gap_min, w.cfg.gap_max);
        }
    }
}

proof fn lemma_rounds_same(a: Campaign, b: Campaign, plan: Seq<(u64, Seq<u32>)>, n: nat)
    requires
        same_campaign(a, b),
    ensures
        same_campaign(a.after(plan, n), b.after(plan, n)),
        a.after(plan, n).driver.work.cfg == a.driver.work.cfg,
    decreases n,
{
    if n > 0 {
        lemma_rounds_same(a, b, plan, (n - 1) as nat);
        lemma_round_same(a.after(plan, (n - 1) as nat), b.after(plan, (n - 1) as nat), plan);
    }
}

/// Only so many rounds start before `ticks`.
proof fn lemma_rounds_end(c: Campaign, plan: Seq<(u64, Seq<u32>)>, ticks: u64, n: nat) -> (m: nat)
    requires
        c.driver.work.cfg.gap_min > 0,
        forall|k: nat| k < n ==> (#[trigger] c.after(plan, k)).sim.now < ticks,
    ensures
        c.lasts(plan, ticks, m),
    decreases
            if c.after(plan, n).sim.now < ticks {
                ticks - c.after(plan, n).sim.now
            } else {
                0
            },
{
    let here = c.after(plan, n);
    if here.sim.now >= ticks {
        n
    } else {
        lemma_rounds_same(c, c, plan, n);
        lemma_round_same(here, here, plan);
        assert(c.after(plan, (n + 1) as nat) == here.round(plan));
        lemma_rounds_end(c, plan, ticks, n + 1)
    }
}

/// Recording a run changes nothing about it but that it is recorded: what it
/// amounts to is the same with the trace on and off.
pub proof fn law_recording_changes_no_result(
    cfg: SimView,
    record_trace: bool,
    workload: WorkloadConfig,
    ticks: u64,
    budget: u64,
)
    requires
        workload.gap_min > 0,
    ensures
        ({
            let other = SimView { record_trace, ..cfg };
            crate::fuzz::result_of(
                other,
                crate::fuzz::end_of_run(other, workload, ticks),
                budget,
            ) == crate::fuzz::result_of(
                cfg,
                crate::fuzz::end_of_run(cfg, workload, ticks),
                budget,
            )
        }),
{
    let other = SimView { record_trace, ..cfg };
    crate::observation::law_watching_changes_no_start(cfg, other);
    let x = ClusterView::start(cfg);
    let y = ClusterView::start(other);
    let w = lemma_wait_ends(x, 5_000, 0);
    crate::observation::law_watching_changes_no_wait(x, y, w, 5_000);
    let a = Campaign::start(cfg, workload);
    let b = Campaign::start(other, workload);
    assert(same_campaign(a, b));
    let plan = crate::fuzz::plan_of(cfg.seed, cfg.nodes, ticks);
    let n = lemma_rounds_end(a, plan, ticks, 0);
    assert forall|k: nat| k < n implies (#[trigger] b.after(plan, k)).sim.now < ticks by {
        lemma_rounds_same(a, b, plan, k);
        assert(a.after(plan, k).sim.now < ticks);
    }
    lemma_rounds_same(a, b, plan, n);
    crate::fuzz::lemma_rounds_determined(a, plan, ticks, n);
    crate::fuzz::lemma_rounds_determined(b, plan, ticks, n);
    let end = a.after(plan, n).sim;
    lemma_until_same(end, b.after(plan, n).sim, end.now.saturating_add(10_000));
}

/// A shrunk failure shows up on replay whether the replay is recorded or not.
pub proof fn law_replays_may_be_recorded(
    seed: u64,
    opts: Options,
    target: Target,
    script: Seq<(u64, crate::faults::FaultView)>,
    ticks: u64,
    record_trace: bool,
)
    ensures
        ({
            let (cfg, workload) = crate::fuzz::config_of(seed, opts);
            let replayed = SimView { scripted_faults: Some(script), record_trace, ..cfg };
            (Quarry { cfg, workload, target }).fails(script, ticks) == target.hit_by(
                crate::fuzz::result_of(
                    replayed,
                    crate::fuzz::end_of_run(replayed, workload, ticks),
                    crate::fuzz::LINEARIZABILITY_BUDGET,
                ),
            )
        }),
{
    reveal(Quarry::fails);
    crate::fuzz::law_seeds_give_valid_runs(seed, opts);
    let (cfg, workload) = crate::fuzz::config_of(seed, opts);
    let off = SimView { scripted_faults: Some(script), record_trace: false, ..cfg };
    law_recording_changes_no_result(
        off,
        record_trace,
        workload,
        ticks,
        crate::fuzz::LINEARIZABILITY_BUDGET,
    );
}

} // verus!
