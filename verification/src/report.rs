//! Turning results into something a person can act on.
use crate::faults::{Fault, FaultView};
use crate::fuzz::{Minimized, MinimizedView, ResultOfSeed, SeedResult};
use crate::invariants::ViolationView;
use crate::linearizability::{Verdict, VerdictView};
use crate::survey::Coverage;
use crate::text::push_decimal;
use vstd::prelude::*;

verus! {

// ---------------------------------------------------------------------------
// Layout
// ---------------------------------------------------------------------------

/// So many spaces.
pub open spec fn spaces(n: int) -> Seq<char>
    decreases n,
{
    if n <= 0 {
        Seq::empty()
    } else {
        spaces(n - 1) + " "@
    }
}

/// A number set flush right in a column of this width.
pub open spec fn flush_right(n: nat, width: nat) -> Seq<char> {
    spaces(width - crate::text::decimal(n).len()) + crate::text::decimal(n)
}

fn push_flush_right(out: &mut String, n: u64, width: usize)
    ensures
        final(out)@ == old(out)@ + flush_right(n as nat, width as nat),
{
    let mut digits = String::new();
    push_decimal(&mut digits, n);
    assert(digits@ =~= crate::text::decimal(n as nat));
    let len: usize = digits.as_str().unicode_len();
    let ghost start = out@;
    let missing: usize = if len < width {
        width - len
    } else {
        0
    };
    let mut i: usize = 0;
    assert(out@ =~= start + spaces(0));
    while i < missing
        invariant
            i <= missing,
            out@ == start + spaces(i as int),
        decreases missing - i,
    {
        out.append(" ");
        i = i + 1;
        assert(out@ =~= start + spaces(i as int));
    }
    assert(spaces(missing as int) == spaces(width - len));
    out.append(digits.as_str());
    assert(out@ =~= start + flush_right(n as nat, width as nat));
}

/// Three labelled numbers on a line.
pub open spec fn row(
    first: Seq<char>,
    a: u64,
    second: Seq<char>,
    b: u64,
    third: Seq<char>,
    c: u64,
) -> Seq<char> {
    Seq::<char>::empty() + first + flush_right(a as nat, 9) + second + flush_right(b as nat, 8)
        + third + flush_right(c as nat, 6) + "\n"@
}

fn push_row(out: &mut String, first: &str, a: u64, second: &str, b: u64, third: &str, c: u64)
    ensures
        final(out)@ == old(out)@ + row(first@, a, second@, b, third@, c),
{
    let ghost start = out@;
    out.append(first);
    push_flush_right(out, a, 9);
    out.append(second);
    push_flush_right(out, b, 8);
    out.append(third);
    push_flush_right(out, c, 6);
    out.append("\n");
    assert(out@ =~= start + row(first@, a, second@, b, third@, c));
}

// ---------------------------------------------------------------------------
// Coverage
// ---------------------------------------------------------------------------

/// Reasons to doubt that a clean sweep means much.
pub open spec fn doubts(c: Coverage) -> Seq<Seq<char>> {
    let none = Seq::<Seq<char>>::empty();
    let w = noted(
        none,
        c.stats.log_truncations == 0,
        "no log truncations: divergence was never reached"@,
    );
    let w = noted(
        w,
        c.stats.elections_started < c.seeds,
        "fewer elections than seeds: many runs may have done nothing"@,
    );
    let w = noted(
        w,
        c.stats.entries_applied == 0,
        "nothing was ever applied: the workload is not committing"@,
    );
    let w = noted(
        w,
        c.stats.snapshots_taken == 0,
        "no snapshots were taken: compaction is not being exercised"@,
    );
    let w = noted(
        w,
        c.stats.snapshots_installed == 0,
        "no snapshot was ever shipped to a follower: InstallSnapshot is untested"@,
    );
    let w = noted(
        w,
        c.stats.membership_changes == 0,
        "no membership changes: joint consensus is not being exercised"@,
    );
    let w = noted(
        w,
        c.stats.reads_served == 0,
        "no reads were served: ReadIndex is not being exercised"@,
    );
    let w = noted(
        w,
        c.operations_pending == 0,
        "no operation was ever left unanswered: the checker's pending path is untested"@,
    );
    noted(
        w,
        c.histories_undecided > c.histories_checked / 4,
        "many histories were undecided: raise the linearizability budget"@,
    )
}

/// One more remark, if it applies.
pub open spec fn noted(list: Seq<Seq<char>>, applies: bool, remark: Seq<char>) -> Seq<Seq<char>> {
    if applies {
        list.push(remark)
    } else {
        list
    }
}

/// The first `n` remarks, one a line.
pub open spec fn remarks(list: Seq<Seq<char>>, n: int) -> Seq<char>
    decreases n,
{
    if n <= 0 {
        Seq::empty()
    } else {
        remarks(list, n - 1) + "  - "@ + list[n - 1] + "\n"@
    }
}

/// What a sweep reached, as a table, and what it failed to reach.
pub open spec fn coverage_text(c: Coverage, seeds: u64) -> Seq<char> {
    let s = c.stats;
    let n = c.network;
    let doubts = doubts(c);
    let table = Seq::<char>::empty() + "\ncoverage\n"@ + row(
        "  elections    "@,
        s.elections_started,
        "   leaders elected "@,
        s.leaders_elected,
        "   max term "@,
        s.max_term,
    ) + row(
        "  truncations  "@,
        s.log_truncations,
        "   entries lost    "@,
        s.entries_truncated,
        "   applied  "@,
        s.entries_applied,
    ) + row(
        "  crashes      "@,
        s.crashes,
        "   restarts        "@,
        s.restarts,
        "   pauses   "@,
        s.pauses,
    ) + row(
        "  torn steps   "@,
        s.torn_steps,
        "   faults injected "@,
        s.faults_injected,
        "   deferred "@,
        s.messages_deferred,
    ) + row(
        "  snapshots    "@,
        s.snapshots_taken,
        "   installed       "@,
        s.snapshots_installed,
        "   memberships "@,
        s.membership_changes,
    ) + "  reads served "@ + flush_right(s.reads_served as nat, 9)
        + "   (via ReadIndex, never entering the log)\n"@ + row(
        "  msgs sent    "@,
        n.sent,
        "   dropped         "@,
        n.dropped,
        "   partitioned "@,
        n.partitioned,
    ) + row(
        "  duplicated   "@,
        n.duplicated,
        "   reordered       "@,
        n.reordered,
        "   max delay   "@,
        n.max_delay,
    ) + "  seeds with faults scheduled: "@ + crate::text::decimal(c.schedules_with_faults as nat)
        + " of "@ + crate::text::decimal(seeds as nat) + "\n"@ + "  client ops   "@ + flush_right(
        c.operations_completed as nat,
        9,
    ) + "   never answered  "@ + flush_right(c.operations_pending as nat, 8) + "\n"@
        + "  histories linearizable "@ + flush_right(c.histories_checked as nat, 7)
        + "   undecided "@ + flush_right(c.histories_undecided as nat, 10) + "\n"@;
    if doubts.len() == 0 {
        table
    } else {
        table + "\nweak coverage:\n"@ + remarks(doubts, doubts.len() as int)
    }
}

/// One more remark, if it applies.
fn note(out: &mut String, noted_already: &mut bool, applies: bool, remark: &str)
    ensures
        *final(noted_already) == (*old(noted_already) || applies),
        final(out)@ == old(out)@ + (if applies {
            (if *old(noted_already) {
                Seq::<char>::empty()
            } else {
                "\nweak coverage:\n"@
            }) + ("  - "@ + remark@ + "\n"@)
        } else {
            Seq::<char>::empty()
        }),
{
    let ghost start = out@;
    if applies {
        if !*noted_already {
            out.append("\nweak coverage:\n");
            *noted_already = true;
        }
        out.append("  - ");
        out.append(remark);
        out.append("\n");
    }
    assert(out@ =~= start + (if applies {
        (if *old(noted_already) {
            Seq::<char>::empty()
        } else {
            "\nweak coverage:\n"@
        }) + ("  - "@ + remark@ + "\n"@)
    } else {
        Seq::<char>::empty()
    }));
}

/// What the remarks so far add to the table.
pub open spec fn doubtful(list: Seq<Seq<char>>) -> Seq<char> {
    if list.len() == 0 {
        Seq::empty()
    } else {
        "\nweak coverage:\n"@ + remarks(list, list.len() as int)
    }
}

proof fn lemma_remarks_push(list: Seq<Seq<char>>, remark: Seq<char>, n: int)
    requires
        0 <= n <= list.len(),
    ensures
        remarks(list.push(remark), n) == remarks(list, n),
    decreases n,
{
    if n > 0 {
        lemma_remarks_push(list, remark, n - 1);
    }
}

proof fn lemma_noted(list: Seq<Seq<char>>, applies: bool, remark: Seq<char>)
    ensures
        doubtful(noted(list, applies, remark)) == doubtful(list) + (if applies {
            (if list.len() > 0 {
                Seq::<char>::empty()
            } else {
                "\nweak coverage:\n"@
            }) + ("  - "@ + remark + "\n"@)
        } else {
            Seq::<char>::empty()
        }),
        (noted(list, applies, remark).len() > 0) == (list.len() > 0 || applies),
{
    if applies {
        lemma_remarks_push(list, remark, list.len() as int);
        assert(list.push(remark)[list.len() as int] == remark);
    }
    assert(doubtful(noted(list, applies, remark)) =~= doubtful(list) + (if applies {
        (if list.len() > 0 {
            Seq::<char>::empty()
        } else {
            "\nweak coverage:\n"@
        }) + ("  - "@ + remark + "\n"@)
    } else {
        Seq::<char>::empty()
    }));
}

/// Add a remark to a text that ends with the remarks so far.
fn remark_on(
    out: &mut String,
    any: &mut bool,
    applies: bool,
    remark: &str,
    Ghost(list): Ghost<Seq<Seq<char>>>,
    Ghost(table): Ghost<Seq<char>>,
)
    requires
        *old(any) == (list.len() > 0),
        old(out)@ == table + doubtful(list),
    ensures
        *final(any) == (noted(list, applies, remark@).len() > 0),
        final(out)@ == table + doubtful(noted(list, applies, remark@)),
{
    proof {
        lemma_noted(list, applies, remark@);
    }
    let ghost start = out@;
    note(out, any, applies, remark);
    assert(out@ =~= table + doubtful(noted(list, applies, remark@)));
}

/// What a sweep reached, as a table. A clean sweep means nothing if the runs
/// never reached anything interesting, so the text says so rather than letting a
/// green result speak for itself.
pub fn coverage(c: &Coverage, seeds: u64) -> (r: String)
    ensures
        r@ == coverage_text(*c, seeds),
{
    let s = c.stats;
    let n = c.network;
    let mut out = String::new();
    out.append("\ncoverage\n");
    push_row(
        &mut out,
        "  elections    ",
        s.elections_started,
        "   leaders elected ",
        s.leaders_elected,
        "   max term ",
        s.max_term,
    );
    push_row(
        &mut out,
        "  truncations  ",
        s.log_truncations,
        "   entries lost    ",
        s.entries_truncated,
        "   applied  ",
        s.entries_applied,
    );
    push_row(
        &mut out,
        "  crashes      ",
        s.crashes,
        "   restarts        ",
        s.restarts,
        "   pauses   ",
        s.pauses,
    );
    push_row(
        &mut out,
        "  torn steps   ",
        s.torn_steps,
        "   faults injected ",
        s.faults_injected,
        "   deferred ",
        s.messages_deferred,
    );
    push_row(
        &mut out,
        "  snapshots    ",
        s.snapshots_taken,
        "   installed       ",
        s.snapshots_installed,
        "   memberships ",
        s.membership_changes,
    );
    out.append("  reads served ");
    push_flush_right(&mut out, s.reads_served, 9);
    out.append("   (via ReadIndex, never entering the log)\n");
    push_row(
        &mut out,
        "  msgs sent    ",
        n.sent,
        "   dropped         ",
        n.dropped,
        "   partitioned ",
        n.partitioned,
    );
    push_row(
        &mut out,
        "  duplicated   ",
        n.duplicated,
        "   reordered       ",
        n.reordered,
        "   max delay   ",
        n.max_delay,
    );
    out.append("  seeds with faults scheduled: ");
    push_decimal(&mut out, c.schedules_with_faults);
    out.append(" of ");
    push_decimal(&mut out, seeds);
    out.append("\n");
    out.append("  client ops   ");
    push_flush_right(&mut out, c.operations_completed, 9);
    out.append("   never answered  ");
    push_flush_right(&mut out, c.operations_pending, 8);
    out.append("\n");
    out.append("  histories linearizable ");
    push_flush_right(&mut out, c.histories_checked, 7);
    out.append("   undecided ");
    push_flush_right(&mut out, c.histories_undecided, 10);
    out.append("\n");
    let ghost table = out@;
    push_doubts(&mut out, c);
    assert(doubts(*c).len() > 0 ==> table + doubtful(doubts(*c)) =~= table + "\nweak coverage:\n"@
        + remarks(doubts(*c), doubts(*c).len() as int));
    assert(doubts(*c).len() == 0 ==> table + doubtful(doubts(*c)) =~= table);
    out
}

fn push_doubts(out: &mut String, c: &Coverage)
    ensures
        final(out)@ == old(out)@ + doubtful(doubts(*c)),
{
    let s = c.stats;
    let ghost table = out@;
    let mut any = false;
    let ghost list = Seq::<Seq<char>>::empty();
    assert(out@ =~= table + doubtful(list));
    let unreached = s.log_truncations == 0;
    let remark = "no log truncations: divergence was never reached";
    remark_on(out, &mut any, unreached, remark, Ghost(list), Ghost(table));
    let ghost list = noted(list, unreached, remark@);
    let few = s.elections_started < c.seeds;
    let remark = "fewer elections than seeds: many runs may have done nothing";
    remark_on(out, &mut any, few, remark, Ghost(list), Ghost(table));
    let ghost list = noted(list, few, remark@);
    let idle = s.entries_applied == 0;
    let remark = "nothing was ever applied: the workload is not committing";
    remark_on(out, &mut any, idle, remark, Ghost(list), Ghost(table));
    let ghost list = noted(list, idle, remark@);
    let uncompacted = s.snapshots_taken == 0;
    let remark = "no snapshots were taken: compaction is not being exercised";
    remark_on(out, &mut any, uncompacted, remark, Ghost(list), Ghost(table));
    let ghost list = noted(list, uncompacted, remark@);
    let unshipped = s.snapshots_installed == 0;
    let remark = "no snapshot was ever shipped to a follower: InstallSnapshot is untested";
    remark_on(out, &mut any, unshipped, remark, Ghost(list), Ghost(table));
    let ghost list = noted(list, unshipped, remark@);
    let settled = s.membership_changes == 0;
    let remark = "no membership changes: joint consensus is not being exercised";
    remark_on(out, &mut any, settled, remark, Ghost(list), Ghost(table));
    let ghost list = noted(list, settled, remark@);
    let unread = s.reads_served == 0;
    let remark = "no reads were served: ReadIndex is not being exercised";
    remark_on(out, &mut any, unread, remark, Ghost(list), Ghost(table));
    let ghost list = noted(list, unread, remark@);
    let answered = c.operations_pending == 0;
    let remark = "no operation was ever left unanswered: the checker's pending path is untested";
    remark_on(out, &mut any, answered, remark, Ghost(list), Ghost(table));
    let ghost list = noted(list, answered, remark@);
    let undecided = c.histories_undecided > c.histories_checked / 4;
    let remark = "many histories were undecided: raise the linearizability budget";
    remark_on(out, &mut any, undecided, remark, Ghost(list), Ghost(table));
}

// ---------------------------------------------------------------------------
// Failures
// ---------------------------------------------------------------------------

/// Where the violation at `k` goes among the first ones, already in order: after
/// every one that is no later.
pub open spec fn tick_place(v: Seq<ViolationView>, order: Seq<int>, k: int, n: int) -> int
    decreases n,
{
    if n <= 0 {
        0
    } else if v[order[n - 1]].tick <= v[k].tick {
        n
    } else {
        tick_place(v, order, k, n - 1)
    }
}

/// The first `n` violations' positions, earliest first, and those of one tick as
/// they came.
pub open spec fn earliest_first(v: Seq<ViolationView>, n: int) -> Seq<int>
    decreases n,
{
    if n <= 0 {
        Seq::empty()
    } else {
        let before = earliest_first(v, n - 1);
        before.insert(tick_place(v, before, n - 1, n - 1), n - 1)
    }
}

proof fn lemma_tick_place(v: Seq<ViolationView>, order: Seq<int>, k: int, n: int)
    requires
        0 <= n <= order.len(),
    ensures
        0 <= tick_place(v, order, k, n) <= n,
        tick_place(v, order, k, n) > 0 ==> v[order[tick_place(v, order, k, n) - 1]].tick
            <= v[k].tick,
        forall|i: int| tick_place(v, order, k, n) <= i < n ==> v[#[trigger] order[i]].tick
            > v[k].tick,
    decreases n,
{
    if n > 0 && v[order[n - 1]].tick > v[k].tick {
        lemma_tick_place(v, order, k, n - 1);
    }
}

/// The report's order lists every violation once, earliest first, and those of
/// one tick as they came.
pub proof fn law_reports_start_with_the_cause(v: Seq<ViolationView>, n: int)
    requires
        0 <= n <= v.len(),
    ensures
        earliest_first(v, n).len() == n,
        forall|i: int|
            0 <= i < n ==> 0 <= #[trigger] earliest_first(v, n)[i] < n,
        forall|i: int, j: int|
            0 <= i < j < n ==> {
                let a = #[trigger] earliest_first(v, n)[i];
                let b = #[trigger] earliest_first(v, n)[j];
                v[a].tick < v[b].tick || (v[a].tick == v[b].tick && a < b)
            },
    decreases n,
{
    if n > 0 {
        law_reports_start_with_the_cause(v, n - 1);
        let before = earliest_first(v, n - 1);
        let p = tick_place(v, before, n - 1, n - 1);
        lemma_tick_place(v, before, n - 1, n - 1);
        let after = earliest_first(v, n);
        assert(after == before.insert(p, n - 1));
        assert forall|i: int| 0 <= i < n implies 0 <= #[trigger] after[i] < n by {
            if i < p {
                assert(after[i] == before[i]);
            } else if i > p {
                assert(after[i] == before[i - 1]);
            }
        }
        assert forall|i: int, j: int| 0 <= i < j < n implies {
            let a = #[trigger] after[i];
            let b = #[trigger] after[j];
            v[a].tick < v[b].tick || (v[a].tick == v[b].tick && a < b)
        } by {
            if j == p {
                assert(after[i] == before[i]);
                if i < p - 1 {
                    assert(before[p - 1] < n - 1);
                }
            } else if i == p {
                assert(after[j] == before[j - 1]);
            } else if j < p {
                assert(after[i] == before[i] && after[j] == before[j]);
            } else if i < p {
                assert(after[i] == before[i] && after[j] == before[j - 1]);
            } else {
                assert(after[i] == before[i - 1] && after[j] == before[j - 1]);
            }
        }
    }
}

/// The positions of the violations, earliest first.
fn order_of(result: &SeedResult) -> (r: Vec<usize>)
    ensures
        r@.len() == result@.violations.len(),
        forall|i: int| 0 <= i < r@.len() ==> #[trigger] r@[i] < result@.violations.len(),
        r@.map_values(|x: usize| x as int) == earliest_first(
            result@.violations,
            result@.violations.len() as int,
        ),
{
    let ghost v = result@.violations;
    let n: usize = result.violations.len();
    let mut r: Vec<usize> = Vec::new();
    let mut k: usize = 0;
    assert(r@.map_values(|x: usize| x as int) =~= earliest_first(v, 0));
    while k < n
        invariant
            k <= n == v.len() == result.violations@.len(),
            v == result@.violations,
            r@.len() == k,
            forall|i: int| 0 <= i < k ==> #[trigger] r@[i] < n,
            r@.map_values(|x: usize| x as int) == earliest_first(v, k as int),
        decreases n - k,
    {
        let ghost before = earliest_first(v, k as int);
        let mut i: usize = k;
        let mut placing = true;
        while placing
            invariant
                k < n == v.len() == result.violations@.len(),
                v == result@.violations,
                i <= k == r@.len(),
                forall|j: int| 0 <= j < k ==> #[trigger] r@[j] < n,
                before == r@.map_values(|x: usize| x as int),
                placing ==> tick_place(v, before, k as int, k as int) == tick_place(
                    v,
                    before,
                    k as int,
                    i as int,
                ),
                !placing ==> tick_place(v, before, k as int, k as int) == i,
            decreases placing as int, i,
        {
            if i == 0 {
                placing = false;
            } else {
                let at: usize = r[i - 1];
                assert(before[i - 1] == at);
                assert(v[at as int] == result.violations@[at as int]@);
                assert(v[k as int] == result.violations@[k as int]@);
                if result.violations[at].tick <= result.violations[k].tick {
                    placing = false;
                } else {
                    i = i - 1;
                }
            }
        }
        let ghost old_r = r@;
        r.insert(i, k);
        assert(r@.map_values(|x: usize| x as int) =~= before.insert(i as int, k as int));
        assert forall|j: int| 0 <= j < k + 1 implies #[trigger] r@[j] < n by {
            if j < i {
                assert(r@[j] == old_r[j]);
            } else if j > i {
                assert(r@[j] == old_r[j - 1]);
            }
        }
        k = k + 1;
    }
    r
}

/// The first `n` violations in this order, one a line.
pub open spec fn listed(
    start: Seq<char>,
    v: Seq<ViolationView>,
    order: Seq<int>,
    n: int,
) -> Seq<char>
    decreases n,
{
    if n <= 0 {
        start
    } else {
        listed(start, v, order, n - 1) + "  "@ + v[order[n - 1]].report() + "\n"@
    }
}

/// Where the line that `i` is on ends.
pub open spec fn line_end(s: Seq<char>, i: int) -> int
    decreases s.len() - i,
{
    if i >= s.len() {
        s.len() as int
    } else if s[i] == '\n' {
        i
    } else {
        line_end(s, i + 1)
    }
}

/// Where the text of a line that starts at `i` and ends at `end` stops: a
/// carriage return before the line feed belongs to the line's ending.
pub open spec fn line_stop(s: Seq<char>, i: int, end: int) -> int {
    if i < end < s.len() && s[end - 1] == '\r' {
        end - 1
    } else {
        end
    }
}

/// The lines from `i` on, each set two spaces in.
pub open spec fn indented(start: Seq<char>, s: Seq<char>, i: int) -> Seq<char>
    decreases s.len() + 1 - i,
{
    if i >= s.len() {
        start
    } else {
        proof {
            lemma_line_end(s, i);
        }
        let end = line_end(s, i);
        indented(start + "  "@ + s.subrange(i, line_stop(s, i, end)) + "\n"@, s, end + 1)
    }
}

/// A line ends no earlier than it starts.
pub proof fn lemma_line_end(s: Seq<char>, i: int)
    requires
        i <= s.len(),
    ensures
        i <= line_end(s, i) <= s.len(),
    decreases s.len() - i,
{
    if i < s.len() && s[i] != '\n' {
        lemma_line_end(s, i + 1);
    }
}

fn push_indented(out: &mut String, text: &String)
    ensures
        final(out)@ == indented(old(out)@, text@, 0),
{
    let s = text.as_str();
    let n: usize = s.unicode_len();
    let ghost want = indented(out@, s@, 0);
    let mut i: usize = 0;
    while i < n
        invariant
            n == s@.len(),
            i <= n,
            want == indented(out@, s@, i as int),
        decreases n - i,
    {
        let ghost here = out@;
        proof {
            lemma_line_end(s@, i as int);
        }
        let mut end: usize = i;
        let mut found = false;
        while end < n && !found
            invariant
                n == s@.len(),
                i <= end <= n,
                found ==> end < n && line_end(s@, i as int) == end,
                !found ==> line_end(s@, i as int) == line_end(s@, end as int),
            decreases n - end, !found as int,
        {
            if s.get_char(end) == '\n' {
                found = true;
            } else {
                end = end + 1;
            }
        }
        let mut stop: usize = end;
        if i < end && end < n {
            if s.get_char(end - 1) == '\r' {
                stop = end - 1;
            }
        }
        out.append("  ");
        out.append(s.substring_char(i, stop));
        out.append("\n");
        if end < n {
            i = end + 1;
        } else {
            i = n;
            assert(indented(out@, s@, end + 1) == out@);
        }
    }
}

/// The report on one failing seed.
pub open spec fn failure_text(r: ResultOfSeed) -> Seq<char> {
    let n = r.violations.len();
    let order = earliest_first(r.violations, n as int);
    let head = Seq::<char>::empty() + "\nseed "@ + crate::text::decimal(r.seed as nat)
        + " FAILED ("@ + crate::text::decimal(r.nodes as nat) + " nodes, "@
        + crate::text::decimal(n) + " violation(s))\n"@;
    let list = listed(
        head,
        r.violations,
        order,
        if n > 5 {
            5
        } else {
            n as int
        },
    );
    let rest = if n > 5 {
        list + "  ... and "@ + crate::text::decimal((n - 5) as nat) + " more\n"@
    } else {
        list
    };
    match r.linearizability {
        VerdictView::NotLinearizable(e) => indented(
            rest + "\n  the client-visible history is impossible:\n"@,
            e.report(),
            0,
        ),
        _ => rest,
    }
}

/// The report on one failing seed. Earliest first: the first violation is
/// usually the cause and the rest are downstream symptoms.
pub fn failure(result: &SeedResult) -> (r: String)
    ensures
        r@ == failure_text(result@),
{
    let ghost v = result@.violations;
    let mut out = String::new();
    let n: usize = result.violations.len();
    out.append("\nseed ");
    push_decimal(&mut out, result.seed);
    out.append(" FAILED (");
    push_decimal(&mut out, result.nodes as u64);
    out.append(" nodes, ");
    push_decimal(&mut out, n as u64);
    out.append(" violation(s))\n");
    let ghost head = out@;
    let order = order_of(result);
    let ghost positions = earliest_first(v, n as int);
    let shown: usize = if n > 5 {
        5
    } else {
        n
    };
    let mut i: usize = 0;
    while i < shown
        invariant
            i <= shown <= n == order@.len() == v.len(),
            v == result@.violations,
            forall|j: int| 0 <= j < n ==> #[trigger] order@[j] < n,
            positions == order@.map_values(|x: usize| x as int),
            out@ == listed(head, v, positions, i as int),
        decreases shown - i,
    {
        let at: usize = order[i];
        assert(positions[i as int] == at);
        assert(v[at as int] == result.violations@[at as int]@);
        let text = result.violations[at].report();
        out.append("  ");
        out.append(text.as_str());
        out.append("\n");
        i = i + 1;
    }
    if n > 5 {
        out.append("  ... and ");
        push_decimal(&mut out, (n - 5) as u64);
        out.append(" more\n");
    }
    match &result.linearizability {
        Verdict::NotLinearizable(e) => {
            out.append("\n  the client-visible history is impossible:\n");
            let text = e.report();
            push_indented(&mut out, &text);
        },
        _ => {},
    }
    out
}

// ---------------------------------------------------------------------------
// Minimized repros
// ---------------------------------------------------------------------------

/// A fault in words.
pub fn describe_fault(fault: &Fault) -> (r: String)
    ensures
        r@ == fault@.in_words(" -> "@, " (one way)"@),
{
    fault.in_words(" -> ", " (one way)")
}

/// The first `n` faults of a script, one a line.
pub open spec fn script_lines(
    start: Seq<char>,
    faults: Seq<(u64, FaultView)>,
    n: int,
) -> Seq<char>
    decreases n,
{
    if n <= 0 {
        start
    } else {
        script_lines(start, faults, n - 1) + "    tick "@ + flush_right(
            faults[n - 1].0 as nat,
            7,
        ) + "  "@ + faults[n - 1].1.in_words(" -> "@, " (one way)"@) + "\n"@
    }
}

/// The report on a shrink.
pub open spec fn minimized_text(m: MinimizedView) -> Seq<char> {
    let none = Seq::<char>::empty();
    if !m.reproduced {
        none + "  could not reproduce seed "@ + crate::text::decimal(m.seed as nat)
            + " from a fixed fault script; the seed alone is the repro\n"@
    } else {
        let removed = if m.original_faults > m.faults.len() {
            (m.original_faults - m.faults.len()) as nat
        } else {
            0
        };
        let head = none + "  minimized: "@ + crate::text::decimal(m.original_faults) + " faults -> "@
            + crate::text::decimal(m.faults.len()) + " ("@ + crate::text::decimal(removed)
            + " removed), "@ + crate::text::decimal(m.original_ticks as nat) + " -> "@
            + crate::text::decimal(m.ticks as nat) + " ticks, "@ + crate::text::decimal(
            m.attempts as nat,
        ) + " attempts\n"@ + "  preserving: "@ + m.target.name_spec() + "\n"@;
        script_lines(head, m.faults, m.faults.len() as int)
    }
}

/// The report on a shrink.
pub fn minimized(m: &Minimized) -> (r: String)
    ensures
        r@ == minimized_text(m@),
{
    let mut out = String::new();
    if !m.reproduced {
        out.append("  could not reproduce seed ");
        push_decimal(&mut out, m.seed);
        out.append(" from a fixed fault script; the seed alone is the repro\n");
        return out;
    }
    out.append("  minimized: ");
    push_decimal(&mut out, m.original_faults as u64);
    out.append(" faults -> ");
    push_decimal(&mut out, m.faults.len() as u64);
    out.append(" (");
    push_decimal(&mut out, m.shrank_by() as u64);
    out.append(" removed), ");
    push_decimal(&mut out, m.original_ticks);
    out.append(" -> ");
    push_decimal(&mut out, m.ticks);
    out.append(" ticks, ");
    push_decimal(&mut out, m.attempts as u64);
    out.append(" attempts\n");
    out.append("  preserving: ");
    let name = m.target.name();
    out.append(name.as_str());
    out.append("\n");
    let ghost head = out@;
    let n: usize = m.faults.len();
    let mut i: usize = 0;
    while i < n
        invariant
            i <= n == m.faults@.len(),
            out@ == script_lines(head, m@.faults, i as int),
        decreases n - i,
    {
        let text = describe_fault(&m.faults[i].1);
        out.append("    tick ");
        push_flush_right(&mut out, m.faults[i].0, 7);
        out.append("  ");
        out.append(text.as_str());
        out.append("\n");
        i = i + 1;
    }
    out
}

/// What is written down for a failing seed.
pub open spec fn repro_text(r: ResultOfSeed, m: Option<MinimizedView>) -> Seq<char> {
    Seq::<char>::empty() + "# repro for seed "@ + crate::text::decimal(r.seed as nat) + "\n"@
        + failure_text(r) + (match m {
        Some(m) => minimized_text(m),
        None => Seq::empty(),
    }) + "\nreplay with: cargo run --release -p fuzz -- --start "@ + crate::text::decimal(
        r.seed as nat,
    ) + " --seeds 1 --trace-dir <dir>\n"@
}

/// What is written down for a failing seed: its report, the shrink's if there
/// was one, and how to replay it.
pub fn repro(result: &SeedResult, m: Option<&Minimized>) -> (r: String)
    ensures
        r@ == repro_text(
            result@,
            match m {
                Some(m) => Some(m@),
                None => None,
            },
        ),
{
    let mut out = String::new();
    out.append("# repro for seed ");
    push_decimal(&mut out, result.seed);
    out.append("\n");
    let text = failure(result);
    out.append(text.as_str());
    match m {
        Some(m) => {
            let text = minimized(m);
            out.append(text.as_str());
        },
        None => {
            assert(out@ =~= out@ + Seq::<char>::empty());
        },
    }
    out.append("\nreplay with: cargo run --release -p fuzz -- --start ");
    push_decimal(&mut out, result.seed);
    out.append(" --seeds 1 --trace-dir <dir>\n");
    out
}

} // verus!
