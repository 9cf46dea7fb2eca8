//! What a sweep over many seeds adds up to.
use crate::cluster::RunStats;
use crate::fuzz::{run_seed, Options, ResultOfSeed, SeedResult};
use crate::linearizability::Verdict;
use crate::network::NetworkStats;
use vstd::prelude::*;

verus! {

/// What a sweep reached, summed over its seeds. A clean sweep means little if
/// the runs never reached anything interesting.
#[derive(Clone, Copy, Debug, PartialEq, Eq, Structural)]
pub struct Coverage {
    pub seeds: u64,
    pub stats: RunStats,
    pub network: NetworkStats,
    pub schedules_with_faults: u64,
    pub operations_completed: u64,
    pub operations_pending: u64,
    pub histories_checked: u64,
    pub histories_undecided: u64,
}

/// The larger of two numbers.
pub open spec fn larger(a: u64, b: u64) -> u64 {
    if a >= b {
        a
    } else {
        b
    }
}

fn larger_of(a: u64, b: u64) -> (r: u64)
    ensures
        r == larger(a, b),
{
    if a >= b {
        a
    } else {
        b
    }
}

/// One run's counters on top of the rest: sums, and the highest term.
pub open spec fn stats_sum(a: RunStats, s: RunStats) -> RunStats {
    RunStats {
        elections_started: a.elections_started.saturating_add(s.elections_started),
        leaders_elected: a.leaders_elected.saturating_add(s.leaders_elected),
        max_term: larger(a.max_term, s.max_term),
        log_truncations: a.log_truncations.saturating_add(s.log_truncations),
        entries_truncated: a.entries_truncated.saturating_add(s.entries_truncated),
        entries_applied: a.entries_applied.saturating_add(s.entries_applied),
        client_responses: a.client_responses.saturating_add(s.client_responses),
        faults_injected: a.faults_injected.saturating_add(s.faults_injected),
        crashes: a.crashes.saturating_add(s.crashes),
        torn_steps: a.torn_steps.saturating_add(s.torn_steps),
        restarts: a.restarts.saturating_add(s.restarts),
        pauses: a.pauses.saturating_add(s.pauses),
        messages_deferred: a.messages_deferred.saturating_add(s.messages_deferred),
        snapshots_taken: a.snapshots_taken.saturating_add(s.snapshots_taken),
        snapshots_installed: a.snapshots_installed.saturating_add(s.snapshots_installed),
        membership_changes: a.membership_changes.saturating_add(s.membership_changes),
        reads_served: a.reads_served.saturating_add(s.reads_served),
    }
}

/// One run's traffic on top of the rest: sums, and the longest delay. The total
/// delay is not carried over.
pub open spec fn network_sum(a: NetworkStats, n: NetworkStats) -> NetworkStats {
    NetworkStats {
        sent: a.sent.saturating_add(n.sent),
        delivered: a.delivered.saturating_add(n.delivered),
        dropped: a.dropped.saturating_add(n.dropped),
        partitioned: a.partitioned.saturating_add(n.partitioned),
        duplicated: a.duplicated.saturating_add(n.duplicated),
        reordered: a.reordered.saturating_add(n.reordered),
        total_delay: a.total_delay,
        max_delay: larger(a.max_delay, n.max_delay),
    }
}

/// One more if it holds.
pub open spec fn counted(n: u64, holds: bool) -> u64 {
    if holds {
        n.saturating_add(1)
    } else {
        n
    }
}

impl Coverage {
    pub open spec fn zero() -> Coverage {
        Coverage {
            seeds: 0,
            stats: RunStats::zero(),
            network: NetworkStats::zero(),
            schedules_with_faults: 0,
            operations_completed: 0,
            operations_pending: 0,
            histories_checked: 0,
            histories_undecided: 0,
        }
    }

    /// With one more seed's result.
    pub open spec fn with(self, r: ResultOfSeed) -> Coverage {
        Coverage {
            seeds: self.seeds.saturating_add(1),
            stats: stats_sum(self.stats, r.stats),
            network: network_sum(self.network, r.network),
            schedules_with_faults: counted(
                self.schedules_with_faults,
                r.stats.faults_injected > 0,
            ),
            operations_completed: self.operations_completed.saturating_add(
                r.history_completed as u64,
            ),
            operations_pending: self.operations_pending.saturating_add(r.history_pending as u64),
            histories_checked: counted(
                self.histories_checked,
                r.linearizability is Linearizable,
            ),
            histories_undecided: counted(self.histories_undecided, r.linearizability is Unknown),
        }
    }

    /// Add one seed's result.
    pub fn absorb(&mut self, r: &SeedResult)
        ensures
            *final(self) == old(self).with(r@),
    {
        let a = self.stats;
        let s = r.stats;
        let m = self.network;
        let n = r.network;
        let faulty = s.faults_injected > 0;
        let checked = match &r.linearizability {
            Verdict::Linearizable { .. } => true,
            _ => false,
        };
        let undecided = match &r.linearizability {
            Verdict::Unknown { .. } => true,
            _ => false,
        };
        *self = Coverage {
            seeds: self.seeds.saturating_add(1),
            stats: RunStats {
                elections_started: a.elections_started.saturating_add(s.elections_started),
                leaders_elected: a.leaders_elected.saturating_add(s.leaders_elected),
                max_term: larger_of(a.max_term, s.max_term),
                log_truncations: a.log_truncations.saturating_add(s.log_truncations),
                entries_truncated: a.entries_truncated.saturating_add(s.entries_truncated),
                entries_applied: a.entries_applied.saturating_add(s.entries_applied),
                client_responses: a.client_responses.saturating_add(s.client_responses),
                faults_injected: a.faults_injected.saturating_add(s.faults_injected),
                crashes: a.crashes.saturating_add(s.crashes),
                torn_steps: a.torn_steps.saturating_add(s.torn_steps),
                restarts: a.restarts.saturating_add(s.restarts),
                pauses: a.pauses.saturating_add(s.pauses),
                messages_deferred: a.messages_deferred.saturating_add(s.messages_deferred),
                snapshots_taken: a.snapshots_taken.saturating_add(s.snapshots_taken),
                snapshots_installed: a.snapshots_installed.saturating_add(s.snapshots_installed),
                membership_changes: a.membership_changes.saturating_add(s.membership_changes),
                reads_served: a.reads_served.saturating_add(s.reads_served),
            },
            network: NetworkStats {
                sent: m.sent.saturating_add(n.sent),
                delivered: m.delivered.saturating_add(n.delivered),
                dropped: m.dropped.saturating_add(n.dropped),
                partitioned: m.partitioned.saturating_add(n.partitioned),
                duplicated: m.duplicated.saturating_add(n.duplicated),
                reordered: m.reordered.saturating_add(n.reordered),
                total_delay: m.total_delay,
                max_delay: larger_of(m.max_delay, n.max_delay),
            },
            schedules_with_faults: count_if(self.schedules_with_faults, faulty),
            operations_completed: self.operations_completed.saturating_add(
                r.history_completed as u64,
            ),
            operations_pending: self.operations_pending.saturating_add(r.history_pending as u64),
            histories_checked: count_if(self.histories_checked, checked),
            histories_undecided: count_if(self.histories_undecided, undecided),
        };
    }
}

fn count_if(n: u64, holds: bool) -> (r: u64)
    ensures
        r == counted(n, holds),
{
    if holds {
        n.saturating_add(1)
    } else {
        n
    }
}

impl Default for Coverage {
    fn default() -> (r: Self)
        ensures
            r == Coverage::zero(),
    {
        Coverage {
            seeds: 0,
            stats: RunStats::default(),
            network: NetworkStats::default(),
            schedules_with_faults: 0,
            operations_completed: 0,
            operations_pending: 0,
            histories_checked: 0,
            histories_undecided: 0,
        }
    }
}

/// A sweep's findings: what it reached, and the seeds that failed.
#[derive(Debug)]
pub struct Survey {
    pub coverage: Coverage,
    /// The results of the seeds that failed, by seed.
    pub failures: Vec<SeedResult>,
}

#[verifier::ext_equal]
pub struct SurveyView {
    pub coverage: Coverage,
    pub failures: Seq<ResultOfSeed>,
}

pub open spec fn results_view(s: Seq<SeedResult>) -> Seq<ResultOfSeed> {
    Seq::new(s.len(), |i: int| s[i]@)
}

impl View for Survey {
    type V = SurveyView;

    open spec fn view(&self) -> SurveyView {
        SurveyView { coverage: self.coverage, failures: results_view(self.failures@) }
    }
}

/// In ascending order of seed.
pub open spec fn by_seed(s: Seq<ResultOfSeed>) -> bool {
    forall|i: int, j: int| 0 <= i < j < s.len() ==> (#[trigger] s[i]).seed <= (#[trigger] s[j]).seed
}

/// How many of the first `n` results come before one for this seed.
pub open spec fn place(s: Seq<ResultOfSeed>, seed: u64, n: int) -> int
    decreases n,
{
    if n <= 0 {
        0
    } else if s[n - 1].seed <= seed {
        n
    } else {
        place(s, seed, n - 1)
    }
}

impl SurveyView {
    pub open spec fn empty() -> SurveyView {
        SurveyView { coverage: Coverage::zero(), failures: Seq::empty() }
    }

    /// With one more seed's result: counted, and kept in its place if it
    /// failed.
    pub open spec fn with(self, r: ResultOfSeed) -> SurveyView {
        SurveyView {
            coverage: self.coverage.with(r),
            failures: if r.failed() {
                self.failures.insert(
                    place(self.failures, r.seed, self.failures.len() as int),
                    r,
                )
            } else {
                self.failures
            },
        }
    }

    /// After the seeds from `start` up to `end`.
    pub open spec fn of_seeds(start: u64, end: u64, opts: Options) -> SurveyView
        decreases end - start,
    {
        if end <= start {
            SurveyView::empty()
        } else {
            let last = (end - 1) as u64;
            SurveyView::of_seeds(start, last, opts).with(crate::fuzz::result_for(last, opts))
        }
    }
}

proof fn lemma_place(s: Seq<ResultOfSeed>, seed: u64, n: int)
    requires
        0 <= n <= s.len(),
    ensures
        0 <= place(s, seed, n) <= n,
        place(s, seed, n) > 0 ==> s[place(s, seed, n) - 1].seed <= seed,
        forall|i: int| place(s, seed, n) <= i < n ==> (#[trigger] s[i]).seed > seed,
    decreases n,
{
    if n > 0 && s[n - 1].seed > seed {
        lemma_place(s, seed, n - 1);
    }
}

/// The failures stay in order of seed, whatever order the results come in, and
/// a result is among them exactly when its seed failed.
pub proof fn law_failures_are_listed_by_seed(s: SurveyView, r: ResultOfSeed)
    requires
        by_seed(s.failures),
    ensures
        by_seed(s.with(r).failures),
        forall|x: ResultOfSeed| #[trigger]
            s.with(r).failures.contains(x) <==> s.failures.contains(x) || (x == r && r.failed()),
{
    let n = s.failures.len() as int;
    let p = place(s.failures, r.seed, n);
    lemma_place(s.failures, r.seed, n);
    let after = s.with(r).failures;
    if r.failed() {
        assert(after.len() == n + 1);
        assert forall|i: int, j: int| 0 <= i < j < after.len() implies (#[trigger] after[i]).seed
            <= (#[trigger] after[j]).seed by {
            if i < p - 1 && j == p {
                assert(s.failures[i].seed <= s.failures[p - 1].seed);
            }
        }
        assert forall|x: ResultOfSeed| #[trigger] after.contains(x) implies s.failures.contains(x)
            || x == r by {
            let k = choose|k: int| 0 <= k < after.len() && after[k] == x;
            if k < p {
                assert(s.failures[k] == x);
            } else if k > p {
                assert(s.failures[k - 1] == x);
            }
        }
        assert forall|x: ResultOfSeed|
            s.failures.contains(x) || x == r implies #[trigger] after.contains(x) by {
            if x == r {
                assert(after[p] == x);
            } else {
                let k = choose|k: int| 0 <= k < s.failures.len() && s.failures[k] == x;
                if k < p {
                    assert(after[k] == x);
                } else {
                    assert(after[k + 1] == x);
                }
            }
        }
    }
}

/// A sum does not depend on the order, even where it stops at the top.
proof fn lemma_sum_commutes(c: u64, a: u64, b: u64)
    ensures
        c.saturating_add(a).saturating_add(b) == c.saturating_add(b).saturating_add(a),
{
}

proof fn lemma_stats_commute(c: RunStats, a: RunStats, b: RunStats)
    ensures
        stats_sum(stats_sum(c, a), b) == stats_sum(stats_sum(c, b), a),
{
    lemma_sum_commutes(c.elections_started, a.elections_started, b.elections_started);
    lemma_sum_commutes(c.leaders_elected, a.leaders_elected, b.leaders_elected);
    lemma_sum_commutes(c.log_truncations, a.log_truncations, b.log_truncations);
    lemma_sum_commutes(c.entries_truncated, a.entries_truncated, b.entries_truncated);
    lemma_sum_commutes(c.entries_applied, a.entries_applied, b.entries_applied);
    lemma_sum_commutes(c.client_responses, a.client_responses, b.client_responses);
    lemma_sum_commutes(c.faults_injected, a.faults_injected, b.faults_injected);
    lemma_sum_commutes(c.crashes, a.crashes, b.crashes);
    lemma_sum_commutes(c.torn_steps, a.torn_steps, b.torn_steps);
    lemma_sum_commutes(c.restarts, a.restarts, b.restarts);
    lemma_sum_commutes(c.pauses, a.pauses, b.pauses);
    lemma_sum_commutes(c.messages_deferred, a.messages_deferred, b.messages_deferred);
    lemma_sum_commutes(c.snapshots_taken, a.snapshots_taken, b.snapshots_taken);
    lemma_sum_commutes(c.snapshots_installed, a.snapshots_installed, b.snapshots_installed);
    lemma_sum_commutes(c.membership_changes, a.membership_changes, b.membership_changes);
    lemma_sum_commutes(c.reads_served, a.reads_served, b.reads_served);
}

proof fn lemma_network_commutes(c: NetworkStats, a: NetworkStats, b: NetworkStats)
    ensures
        network_sum(network_sum(c, a), b) == network_sum(network_sum(c, b), a),
{
    lemma_sum_commutes(c.sent, a.sent, b.sent);
    lemma_sum_commutes(c.delivered, a.delivered, b.delivered);
    lemma_sum_commutes(c.dropped, a.dropped, b.dropped);
    lemma_sum_commutes(c.partitioned, a.partitioned, b.partitioned);
    lemma_sum_commutes(c.duplicated, a.duplicated, b.duplicated);
    lemma_sum_commutes(c.reordered, a.reordered, b.reordered);
}

proof fn lemma_coverage_commutes(c: Coverage, a: ResultOfSeed, b: ResultOfSeed)
    ensures
        c.with(a).with(b) == c.with(b).with(a),
{
    lemma_stats_commute(c.stats, a.stats, b.stats);
    lemma_network_commutes(c.network, a.network, b.network);
    lemma_sum_commutes(
        c.operations_completed,
        a.history_completed as u64,
        b.history_completed as u64,
    );
    lemma_sum_commutes(c.operations_pending, a.history_pending as u64, b.history_pending as u64);
}

/// Seeds finish out of order across threads, and the findings are the same
/// whatever the order of two of them.
pub proof fn law_order_of_results_does_not_matter(s: SurveyView, a: ResultOfSeed, b: ResultOfSeed)
    requires
        by_seed(s.failures),
        a.seed != b.seed,
    ensures
        s.with(a).with(b) == s.with(b).with(a),
{
    let n = s.failures.len() as int;
    lemma_place(s.failures, a.seed, n);
    lemma_place(s.failures, b.seed, n);
    lemma_coverage_commutes(s.coverage, a, b);
    if a.failed() && b.failed() {
        if a.seed < b.seed {
            lemma_two_inserts(s.failures, a, b);
        } else {
            lemma_two_inserts(s.failures, b, a);
        }
    }
}

/// Two results inserted one after the other, the smaller seed first or last.
proof fn lemma_two_inserts(f: Seq<ResultOfSeed>, a: ResultOfSeed, b: ResultOfSeed)
    requires
        by_seed(f),
        a.seed < b.seed,
    ensures
        ({
            let n = f.len() as int;
            let fa = f.insert(place(f, a.seed, n), a);
            let fb = f.insert(place(f, b.seed, n), b);
            fa.insert(place(fa, b.seed, n + 1), b) == fb.insert(place(fb, a.seed, n + 1), a)
        }),
{
    let n = f.len() as int;
    let pa = place(f, a.seed, n);
    let pb = place(f, b.seed, n);
    lemma_place(f, a.seed, n);
    lemma_place(f, b.seed, n);
    let fa = f.insert(pa, a);
    let fb = f.insert(pb, b);
    let qa = place(fb, a.seed, n + 1);
    let qb = place(fa, b.seed, n + 1);
    lemma_place(fb, a.seed, n + 1);
    lemma_place(fa, b.seed, n + 1);
    assert(pa <= pb) by {
        if pa > pb {
            assert(f[pa - 1].seed <= a.seed);
            assert(f[pa - 1].seed > b.seed);
        }
    }
    assert(qb == pb + 1) by {
        if qb > pb + 1 {
            assert(fa[qb - 1] == f[qb - 2]);
            assert(f[qb - 2].seed > b.seed);
        }
        if qb < pb + 1 {
            if pb > pa {
                assert(fa[pb] == f[pb - 1]);
            } else {
                assert(fa[pb] == a);
            }
            assert(fa[pb].seed > b.seed);
        }
    }
    assert(qa == pa) by {
        if qa > pa {
            if qa - 1 < pb {
                assert(fb[qa - 1] == f[qa - 1]);
                assert(f[qa - 1].seed > a.seed);
            } else if qa - 1 == pb {
                assert(fb[qa - 1] == b);
            } else {
                assert(fb[qa - 1] == f[qa - 2]);
                assert(f[qa - 2].seed > b.seed);
            }
        }
        if qa < pa {
            assert(fb[pa - 1] == f[pa - 1]);
            assert(fb[pa - 1].seed > a.seed);
        }
    }
    assert(fa.insert(qb, b) =~= fb.insert(qa, a));
}

impl SurveyView {
    /// After these results, in the order they came in.
    pub open spec fn of_results(results: Seq<ResultOfSeed>) -> SurveyView
        decreases results.len(),
    {
        if results.len() == 0 {
            SurveyView::empty()
        } else {
            SurveyView::of_results(results.drop_last()).with(results.last())
        }
    }
}

/// Each seed at most once.
pub open spec fn distinct_seeds(results: Seq<ResultOfSeed>) -> bool {
    forall|i: int, j: int|
        0 <= i < j < results.len() ==> (#[trigger] results[i]).seed != (#[trigger] results[j]).seed
}

proof fn lemma_stays_by_seed(results: Seq<ResultOfSeed>)
    ensures
        by_seed(SurveyView::of_results(results).failures),
    decreases results.len(),
{
    if results.len() > 0 {
        lemma_stays_by_seed(results.drop_last());
        law_failures_are_listed_by_seed(
            SurveyView::of_results(results.drop_last()),
            results.last(),
        );
    }
}

/// A result may as well have come in last.
proof fn lemma_moved_last(results: Seq<ResultOfSeed>, i: int)
    requires
        distinct_seeds(results),
        0 <= i < results.len(),
    ensures
        SurveyView::of_results(results) == SurveyView::of_results(results.remove(i)).with(
            results[i],
        ),
    decreases results.len(),
{
    let n = results.len() as int;
    let front = results.drop_last();
    let rest = results.remove(i);
    if i == n - 1 {
        assert(rest =~= front);
    } else {
        lemma_moved_last(front, i);
        lemma_stays_by_seed(front.remove(i));
        assert(rest.drop_last() =~= front.remove(i));
        law_order_of_results_does_not_matter(
            SurveyView::of_results(front.remove(i)),
            results[i],
            results[n - 1],
        );
    }
}

/// Results in any two orders add up to the same findings.
pub proof fn law_any_order_gives_the_same_findings(a: Seq<ResultOfSeed>, b: Seq<ResultOfSeed>)
    requires
        distinct_seeds(a),
        distinct_seeds(b),
        forall|x: ResultOfSeed|
            #![trigger a.contains(x)]
            #![trigger b.contains(x)]
            a.contains(x) <==> b.contains(x),
    ensures
        SurveyView::of_results(a) == SurveyView::of_results(b),
    decreases a.len(),
{
    if a.len() == 0 {
        if b.len() > 0 {
            assert(b.contains(b[0]));
        }
        assert(a =~= b);
    } else {
        let n = a.len() as int;
        let x = a[n - 1];
        assert(a.contains(x));
        let i = choose|i: int| 0 <= i < b.len() && b[i] == x;
        let rest = b.remove(i);
        let front = a.drop_last();
        assert forall|y: ResultOfSeed|
            #![trigger front.contains(y)]
            #![trigger rest.contains(y)]
            front.contains(y) <==> rest.contains(y) by {
            if front.contains(y) {
                let k = choose|k: int| 0 <= k < front.len() && front[k] == y;
                assert(a[k] == y && a[k].seed != a[n - 1].seed);
                assert(a.contains(y));
                let j = choose|j: int| 0 <= j < b.len() && b[j] == y;
                assert(rest[if j < i {
                    j
                } else {
                    j - 1
                }] == y);
            }
            if rest.contains(y) {
                let k = choose|k: int| 0 <= k < rest.len() && rest[k] == y;
                let j = if k < i {
                    k
                } else {
                    k + 1
                };
                assert(b[j] == y && b[j].seed != b[i].seed);
                assert(b.contains(y));
                let m = choose|m: int| 0 <= m < a.len() && a[m] == y;
                assert(front[m] == y);
            }
        }
        assert forall|p: int, q: int| 0 <= p < q < rest.len() implies (#[trigger] rest[p]).seed
            != (#[trigger] rest[q]).seed by {
            assert(b[if p < i {
                p
            } else {
                p + 1
            }].seed != b[if q < i {
                q
            } else {
                q + 1
            }].seed);
        }
        law_any_order_gives_the_same_findings(front, rest);
        lemma_moved_last(b, i);
    }
}

/// A result names its seed.
proof fn lemma_names_its_seed(seed: u64, opts: Options)
    ensures
        crate::fuzz::result_for(seed, opts).seed == seed,
{
    reveal(crate::fuzz::result_for);
    crate::fuzz::law_seeds_give_valid_runs(seed, opts);
}

/// The results of the seeds from `start` up to `end`, in order.
pub open spec fn in_turn(start: u64, end: u64, opts: Options) -> Seq<ResultOfSeed> {
    Seq::new(
        (end - start) as nat,
        |i: int| crate::fuzz::result_for((start + i) as u64, opts),
    )
}

pub proof fn lemma_in_turn(start: u64, end: u64, opts: Options)
    requires
        start <= end,
    ensures
        SurveyView::of_results(in_turn(start, end, opts)) == SurveyView::of_seeds(
            start,
            end,
            opts,
        ),
    decreases end - start,
{
    if start < end {
        let last = (end - 1) as u64;
        lemma_in_turn(start, last, opts);
        assert(in_turn(start, end, opts).drop_last() =~= in_turn(start, last, opts));
    }
}

/// However the seeds of a sweep finish, the findings are those of running them
/// one after the other.
pub proof fn law_sweeps_do_not_depend_on_who_finishes_first(
    start: u64,
    end: u64,
    opts: Options,
    results: Seq<ResultOfSeed>,
)
    requires
        start <= end,
        distinct_seeds(results),
        forall|x: ResultOfSeed| #[trigger]
            results.contains(x) <==> exists|seed: u64|
                start <= seed < end && x == #[trigger] crate::fuzz::result_for(seed, opts),
    ensures
        SurveyView::of_results(results) == SurveyView::of_seeds(start, end, opts),
{
    let ordered = in_turn(start, end, opts);
    lemma_in_turn(start, end, opts);
    assert forall|x: ResultOfSeed|
        #![trigger results.contains(x)]
        #![trigger ordered.contains(x)]
        results.contains(x) <==> ordered.contains(x) by {
        if results.contains(x) {
            let seed = choose|seed: u64|
                start <= seed < end && x == #[trigger] crate::fuzz::result_for(seed, opts);
            assert(ordered[seed - start] == x);
        }
        if ordered.contains(x) {
            let i = choose|i: int| 0 <= i < ordered.len() && ordered[i] == x;
            assert(x == crate::fuzz::result_for((start + i) as u64, opts));
        }
    }
    assert forall|i: int, j: int| 0 <= i < j < ordered.len() implies (#[trigger] ordered[i]).seed
        != (#[trigger] ordered[j]).seed by {
        lemma_names_its_seed((start + i) as u64, opts);
        lemma_names_its_seed((start + j) as u64, opts);
    }
    law_any_order_gives_the_same_findings(results, ordered);
}

/// Every seed of a sweep is counted, and the failures are exactly the results of
/// the seeds that failed, by seed.
pub proof fn law_sweeps_keep_every_failure(start: u64, end: u64, opts: Options)
    requires
        start <= end,
    ensures
        SurveyView::of_seeds(start, end, opts).coverage.seeds == end - start,
        by_seed(SurveyView::of_seeds(start, end, opts).failures),
        forall|x: ResultOfSeed| #[trigger]
            SurveyView::of_seeds(start, end, opts).failures.contains(x) <==> x.failed() && exists|
                seed: u64,
            |
                start <= seed < end && x == #[trigger] crate::fuzz::result_for(seed, opts),
    decreases end - start,
{
    if start < end {
        let last = (end - 1) as u64;
        law_sweeps_keep_every_failure(start, last, opts);
        let before = SurveyView::of_seeds(start, last, opts);
        let r = crate::fuzz::result_for(last, opts);
        law_failures_are_listed_by_seed(before, r);
        assert forall|x: ResultOfSeed| x.failed() && exists|seed: u64|
            start <= seed < end && x == #[trigger] crate::fuzz::result_for(
                seed,
                opts,
            ) implies #[trigger] before.with(r).failures.contains(x) by {
            let seed = choose|seed: u64|
                start <= seed < end && x == #[trigger] crate::fuzz::result_for(seed, opts);
            if seed < last {
                assert(before.failures.contains(x));
            }
        }
    }
}

impl Survey {
    pub fn new() -> (r: Survey)
        ensures
            r@ == SurveyView::empty(),
    {
        let r = Survey { coverage: Coverage::default(), failures: Vec::new() };
        assert(r@ =~= SurveyView::empty());
        r
    }

    /// Take in one seed's result.
    pub fn record(&mut self, result: SeedResult)
        ensures
            final(self)@ == old(self)@.with(result@),
    {
        self.coverage.absorb(&result);
        if result.failed() {
            let ghost before = self.failures@;
            let ghost all = results_view(before);
            let n: usize = self.failures.len();
            let mut i: usize = n;
            while i > 0 && self.failures[i - 1].seed > result.seed
                invariant
                    i <= n == self.failures@.len(),
                    self.failures@ == before,
                    all == results_view(before),
                    place(all, result@.seed, n as int) == place(all, result@.seed, i as int),
                decreases i,
            {
                i = i - 1;
            }
            let ghost seen = result@;
            self.failures.insert(i, result);
            assert(results_view(self.failures@) =~= all.insert(i as int, seen));
        }
    }
}

/// Run the seeds from `start` on, one after the other.
pub fn survey(start: u64, count: u64, opts: &Options) -> (r: Survey)
    requires
        start + count <= u64::MAX,
    ensures
        r@ == SurveyView::of_seeds(start, (start + count) as u64, *opts),
{
    let mut r = Survey::new();
    let end: u64 = start + count;
    let mut seed: u64 = start;
    while seed < end
        invariant
            start <= seed <= end,
            r@ == SurveyView::of_seeds(start, seed, *opts),
        decreases end - seed,
    {
        let result = run_seed(seed, opts);
        r.record(result);
        seed = seed + 1;
    }
    r
}

} // verus!
