//! What the figures of a sweep mean.
//!
//! Each counter of the coverage is the sum, over the seeds, of the counter of the
//! same name that each seed came back with, up to the largest number that fits.
use crate::fuzz::{Options, ResultOfSeed};
use crate::survey::{Coverage, SurveyView};
use vstd::prelude::*;

verus! {

/// A number, or the largest that fits.
pub open spec fn capped(n: nat) -> u64 {
    if n <= u64::MAX {
        n as u64
    } else {
        u64::MAX
    }
}

/// A figure summed over all the results.
pub open spec fn sum_of(results: Seq<ResultOfSeed>, figure: spec_fn(ResultOfSeed) -> nat) -> nat
    decreases results.len(),
{
    if results.len() == 0 {
        0
    } else {
        sum_of(results.drop_last(), figure) + figure(results.last())
    }
}

/// How many of the results are such that it holds.
pub open spec fn number_of(results: Seq<ResultOfSeed>, holds: spec_fn(ResultOfSeed) -> bool) -> nat {
    sum_of(
        results,
        |r: ResultOfSeed|
            if holds(r) {
                1nat
            } else {
                0nat
            },
    )
}

/// The largest that a figure gets, or zero.
pub open spec fn is_most(
    results: Seq<ResultOfSeed>,
    figure: spec_fn(ResultOfSeed) -> u64,
    most: u64,
) -> bool {
    &&& forall|i: int| 0 <= i < results.len() ==> figure(#[trigger] results[i]) <= most
    &&& most == 0 || exists|i: int| 0 <= i < results.len() && figure(#[trigger] results[i]) == most
}

/// What a sweep of these results has reached.
pub open spec fn reached(results: Seq<ResultOfSeed>) -> Coverage {
    SurveyView::of_results(results).coverage
}

proof fn lemma_total(
    results: Seq<ResultOfSeed>,
    total: spec_fn(Coverage) -> u64,
    figure: spec_fn(ResultOfSeed) -> nat,
)
    requires
        total(Coverage::zero()) == 0,
        forall|c: Coverage, r: ResultOfSeed|
            total(#[trigger] c.with(r)) == capped((total(c) + figure(r)) as nat),
    ensures
        total(reached(results)) == capped(sum_of(results, figure)),
    decreases results.len(),
{
    if results.len() > 0 {
        let before = results.drop_last();
        lemma_total(before, total, figure);
        assert(reached(results) == reached(before).with(results.last()));
    }
}

proof fn lemma_most(
    results: Seq<ResultOfSeed>,
    total: spec_fn(Coverage) -> u64,
    figure: spec_fn(ResultOfSeed) -> u64,
)
    requires
        total(Coverage::zero()) == 0,
        forall|c: Coverage, r: ResultOfSeed|
            total(#[trigger] c.with(r)) == if total(c) >= figure(r) {
                total(c)
            } else {
                figure(r)
            },
    ensures
        is_most(results, figure, total(reached(results))),
    decreases results.len(),
{
    if results.len() > 0 {
        let before = results.drop_last();
        let last = results.len() - 1;
        lemma_most(before, total, figure);
        let most = total(reached(before));
        let now = total(reached(results));
        assert(reached(results) == reached(before).with(results.last()));
        assert forall|i: int| 0 <= i < results.len() implies figure(#[trigger] results[i]) <= now by {
            if i < last {
                assert(before[i] == results[i]);
            }
        }
        if now != 0 {
            if now == most {
                let i = choose|i: int| 0 <= i < before.len() && figure(#[trigger] before[i]) == most;
                assert(results[i] == before[i]);
            } else {
                assert(figure(results[last]) == now);
            }
        }
    }
}

proof fn lemma_number(
    results: Seq<ResultOfSeed>,
    total: spec_fn(Coverage) -> u64,
    holds: spec_fn(ResultOfSeed) -> bool,
)
    requires
        total(Coverage::zero()) == 0,
        forall|c: Coverage, r: ResultOfSeed|
            total(#[trigger] c.with(r)) == if holds(r) {
                capped(total(c) as nat + 1)
            } else {
                total(c)
            },
    ensures
        total(reached(results)) == capped(number_of(results, holds)),
{
    lemma_total(
        results,
        total,
        |r: ResultOfSeed|
            if holds(r) {
                1nat
            } else {
                0nat
            },
    );
}

proof fn lemma_nothing(results: Seq<ResultOfSeed>)
    ensures
        sum_of(results, |r: ResultOfSeed| 0nat) == 0,
    decreases results.len(),
{
    if results.len() > 0 {
        lemma_nothing(results.drop_last());
    }
}

proof fn lemma_each(results: Seq<ResultOfSeed>)
    ensures
        sum_of(results, |r: ResultOfSeed| 1nat) == results.len(),
    decreases results.len(),
{
    if results.len() > 0 {
        lemma_each(results.drop_last());
    }
}

/// Every counter of a sweep is the sum of the seeds' own.
pub proof fn law_counters_are_sums(results: Seq<ResultOfSeed>)
    ensures
        reached(results).stats.elections_started == capped(
            sum_of(results, |r: ResultOfSeed| r.stats.elections_started as nat),
        ),
        reached(results).stats.leaders_elected == capped(
            sum_of(results, |r: ResultOfSeed| r.stats.leaders_elected as nat),
        ),
        reached(results).stats.log_truncations == capped(
            sum_of(results, |r: ResultOfSeed| r.stats.log_truncations as nat),
        ),
        reached(results).stats.entries_truncated == capped(
            sum_of(results, |r: ResultOfSeed| r.stats.entries_truncated as nat),
        ),
        reached(results).stats.entries_applied == capped(
            sum_of(results, |r: ResultOfSeed| r.stats.entries_applied as nat),
        ),
        reached(results).stats.client_responses == capped(
            sum_of(results, |r: ResultOfSeed| r.stats.client_responses as nat),
        ),
        reached(results).stats.faults_injected == capped(
            sum_of(results, |r: ResultOfSeed| r.stats.faults_injected as nat),
        ),
        reached(results).stats.crashes == capped(
            sum_of(results, |r: ResultOfSeed| r.stats.crashes as nat),
        ),
        reached(results).stats.torn_steps == capped(
            sum_of(results, |r: ResultOfSeed| r.stats.torn_steps as nat),
        ),
        reached(results).stats.restarts == capped(
            sum_of(results, |r: ResultOfSeed| r.stats.restarts as nat),
        ),
        reached(results).stats.pauses == capped(
            sum_of(results, |r: ResultOfSeed| r.stats.pauses as nat),
        ),
        reached(results).stats.messages_deferred == capped(
            sum_of(results, |r: ResultOfSeed| r.stats.messages_deferred as nat),
        ),
        reached(results).stats.snapshots_taken == capped(
            sum_of(results, |r: ResultOfSeed| r.stats.snapshots_taken as nat),
        ),
        reached(results).stats.snapshots_installed == capped(
            sum_of(results, |r: ResultOfSeed| r.stats.snapshots_installed as nat),
        ),
        reached(results).stats.membership_changes == capped(
            sum_of(results, |r: ResultOfSeed| r.stats.membership_changes as nat),
        ),
        reached(results).stats.reads_served == capped(
            sum_of(results, |r: ResultOfSeed| r.stats.reads_served as nat),
        ),
{
    lemma_total(
        results,
        |c: Coverage| c.stats.elections_started,
        |r: ResultOfSeed| r.stats.elections_started as nat,
    );
    lemma_total(
        results,
        |c: Coverage| c.stats.leaders_elected,
        |r: ResultOfSeed| r.stats.leaders_elected as nat,
    );
    lemma_total(
        results,
        |c: Coverage| c.stats.log_truncations,
        |r: ResultOfSeed| r.stats.log_truncations as nat,
    );
    lemma_total(
        results,
        |c: Coverage| c.stats.entries_truncated,
        |r: ResultOfSeed| r.stats.entries_truncated as nat,
    );
    lemma_total(
        results,
        |c: Coverage| c.stats.entries_applied,
        |r: ResultOfSeed| r.stats.entries_applied as nat,
    );
    lemma_total(
        results,
        |c: Coverage| c.stats.client_responses,
        |r: ResultOfSeed| r.stats.client_responses as nat,
    );
    lemma_total(
        results,
        |c: Coverage| c.stats.faults_injected,
        |r: ResultOfSeed| r.stats.faults_injected as nat,
    );
    lemma_total(
        results,
        |c: Coverage| c.stats.crashes,
        |r: ResultOfSeed| r.stats.crashes as nat,
    );
    lemma_total(
        results,
        |c: Coverage| c.stats.torn_steps,
        |r: ResultOfSeed| r.stats.torn_steps as nat,
    );
    lemma_total(
        results,
        |c: Coverage| c.stats.restarts,
        |r: ResultOfSeed| r.stats.restarts as nat,
    );
    lemma_total(
        results,
        |c: Coverage| c.stats.pauses,
        |r: ResultOfSeed| r.stats.pauses as nat,
    );
    lemma_total(
        results,
        |c: Coverage| c.stats.messages_deferred,
        |r: ResultOfSeed| r.stats.messages_deferred as nat,
    );
    lemma_total(
        results,
        |c: Coverage| c.stats.snapshots_taken,
        |r: ResultOfSeed| r.stats.snapshots_taken as nat,
    );
    lemma_total(
        results,
        |c: Coverage| c.stats.snapshots_installed,
        |r: ResultOfSeed| r.stats.snapshots_installed as nat,
    );
    lemma_total(
        results,
        |c: Coverage| c.stats.membership_changes,
        |r: ResultOfSeed| r.stats.membership_changes as nat,
    );
    lemma_total(
        results,
        |c: Coverage| c.stats.reads_served,
        |r: ResultOfSeed| r.stats.reads_served as nat,
    );
}

/// So is all of the traffic. The delays are not added up.
pub proof fn law_traffic_is_summed(results: Seq<ResultOfSeed>)
    ensures
        reached(results).network.sent == capped(
            sum_of(results, |r: ResultOfSeed| r.network.sent as nat),
        ),
        reached(results).network.delivered == capped(
            sum_of(results, |r: ResultOfSeed| r.network.delivered as nat),
        ),
        reached(results).network.dropped == capped(
            sum_of(results, |r: ResultOfSeed| r.network.dropped as nat),
        ),
        reached(results).network.partitioned == capped(
            sum_of(results, |r: ResultOfSeed| r.network.partitioned as nat),
        ),
        reached(results).network.duplicated == capped(
            sum_of(results, |r: ResultOfSeed| r.network.duplicated as nat),
        ),
        reached(results).network.reordered == capped(
            sum_of(results, |r: ResultOfSeed| r.network.reordered as nat),
        ),
        reached(results).network.total_delay == 0,
{
    lemma_total(
        results,
        |c: Coverage| c.network.sent,
        |r: ResultOfSeed| r.network.sent as nat,
    );
    lemma_total(
        results,
        |c: Coverage| c.network.delivered,
        |r: ResultOfSeed| r.network.delivered as nat,
    );
    lemma_total(
        results,
        |c: Coverage| c.network.dropped,
        |r: ResultOfSeed| r.network.dropped as nat,
    );
    lemma_total(
        results,
        |c: Coverage| c.network.partitioned,
        |r: ResultOfSeed| r.network.partitioned as nat,
    );
    lemma_total(
        results,
        |c: Coverage| c.network.duplicated,
        |r: ResultOfSeed| r.network.duplicated as nat,
    );
    lemma_total(
        results,
        |c: Coverage| c.network.reordered,
        |r: ResultOfSeed| r.network.reordered as nat,
    );
    lemma_total(results, |c: Coverage| c.network.total_delay, |r: ResultOfSeed| 0nat);
    lemma_nothing(results);
}

/// What was answered and what was left hanging are each added up by themselves,
/// each seed counts once, and each history under the verdict it got.
pub proof fn law_operations_are_summed(results: Seq<ResultOfSeed>)
    ensures
        reached(results).operations_completed == capped(
            sum_of(results, |r: ResultOfSeed| r.history_completed as u64 as nat),
        ),
        reached(results).operations_pending == capped(
            sum_of(results, |r: ResultOfSeed| r.history_pending as u64 as nat),
        ),
        reached(results).seeds == capped(results.len()),
        reached(results).schedules_with_faults == capped(
            number_of(results, |r: ResultOfSeed| r.stats.faults_injected > 0),
        ),
        reached(results).histories_checked == capped(
            number_of(results, |r: ResultOfSeed| r.linearizability is Linearizable),
        ),
        reached(results).histories_undecided == capped(
            number_of(results, |r: ResultOfSeed| r.linearizability is Unknown),
        ),
{
    lemma_total(
        results,
        |c: Coverage| c.operations_completed,
        |r: ResultOfSeed| r.history_completed as u64 as nat,
    );
    lemma_total(
        results,
        |c: Coverage| c.operations_pending,
        |r: ResultOfSeed| r.history_pending as u64 as nat,
    );
    lemma_total(results, |c: Coverage| c.seeds, |r: ResultOfSeed| 1nat);
    lemma_each(results);
    lemma_number(results, |c: Coverage| c.schedules_with_faults, |r: ResultOfSeed| r.stats.faults_injected > 0);
    lemma_number(results, |c: Coverage| c.histories_checked, |r: ResultOfSeed| r.linearizability is Linearizable);
    lemma_number(results, |c: Coverage| c.histories_undecided, |r: ResultOfSeed| r.linearizability is Unknown);
}

/// The highest term and the longest delay are the highest and the longest of any
/// seed.
pub proof fn law_peaks_are_the_highest(results: Seq<ResultOfSeed>)
    ensures
        is_most(results, |r: ResultOfSeed| r.stats.max_term, reached(results).stats.max_term),
        is_most(results, |r: ResultOfSeed| r.network.max_delay, reached(results).network.max_delay),
{
    lemma_most(results, |c: Coverage| c.stats.max_term, |r: ResultOfSeed| r.stats.max_term);
    lemma_most(results, |c: Coverage| c.network.max_delay, |r: ResultOfSeed| r.network.max_delay);
}

/// A sweep of a range of seeds is a sweep of their results: one of each seed, in
/// turn.
pub proof fn law_a_range_of_seeds_is_swept(start: u64, end: u64, opts: Options)
    requires
        start <= end,
    ensures
        SurveyView::of_seeds(start, end, opts).coverage == reached(
            crate::survey::in_turn(start, end, opts),
        ),
        crate::survey::in_turn(start, end, opts).len() == end - start,
        forall|seed: u64|
            start <= seed < end ==> crate::survey::in_turn(start, end, opts)[seed - start]
                == #[trigger] crate::fuzz::result_for(seed, opts),
{
    crate::survey::lemma_in_turn(start, end, opts);
}

} // verus!
