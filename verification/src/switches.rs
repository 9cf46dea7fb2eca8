//! What the words on a command line switch on.
use crate::args::{ArgsView, Kind, ParsedView, Reading};
use crate::BugSwitches;
use vstd::prelude::*;

verus! {

proof fn lemma_same_value(s: Seq<char>)
    requires
        crate::args::all_digits(s),
    ensures
        crate::args::digits_value(s) == crate::text::reading(s),
    decreases s.len(),
{
    if s.len() > 0 {
        assert(crate::args::all_digits(s.drop_last())) by {
            assert forall|i: int| 0 <= i < s.drop_last().len() implies '0' <= #[trigger]
                s.drop_last()[i] <= '9' by {
                assert(s.drop_last()[i] == s[i]);
            }
        }
        lemma_same_value(s.drop_last());
        assert('0' <= s[s.len() - 1] <= '9');
    }
}

/// A number is read as it is written, with a plus sign or without.
pub proof fn law_numbers_are_read_as_written(n: u64)
    ensures
        crate::args::number(crate::text::decimal(n as nat)) == Some(n),
        crate::args::number(seq!['+'] + crate::text::decimal(n as nat)) == Some(n),
{
    let s = crate::text::decimal(n as nat);
    crate::text::law_numbers_read_back(n as nat);
    assert(crate::args::all_digits(s)) by {
        assert forall|i: int| 0 <= i < s.len() implies '0' <= #[trigger] s[i] <= '9' by {
            assert(48 <= s[i] as int <= 57);
        }
    }
    lemma_same_value(s);
    assert('0' <= s[0] <= '9');
    assert(s[0] != '+');
    let t = seq!['+'] + s;
    assert(t[0] == '+');
    assert(t.skip(1) =~= s);
}

/// Nothing but digits is a number, and nothing is none.
pub proof fn law_words_are_no_numbers(s: Seq<char>, i: int)
    requires
        s.len() == 0 || (0 <= i < s.len() && !('0' <= s[i] <= '9') && (i > 0 || s[0] != '+')),
    ensures
        crate::args::number(s) is None,
{
    if s.len() > 0 {
        if s[0] == '+' {
            assert(s.skip(1)[i - 1] == s[i]);
        }
    }
}

/// Exactly these faults are switched on.
pub open spec fn switched(
    bugs: BugSwitches,
    commit: bool,
    vote: bool,
    blind: bool,
    persist: bool,
    anchor: bool,
    reconcile: bool,
    read: bool,
) -> bool {
    &&& bugs.commit_prior_term_entries == commit
    &&& bugs.vote_twice_per_term == vote
    &&& bugs.trust_leader_commit_blindly == blind
    &&& bugs.skip_hard_state_persistence == persist
    &&& bugs.compaction_anchor_at_zero == anchor
    &&& bugs.skip_snapshot_reconcile == reconcile
    &&& bugs.read_index_at_arrival == read
}

/// Each name switches on the one fault that it names, and any other name none.
pub proof fn law_names_switch_on_one_fault(name: Seq<char>)
    ensures
        ({
            let a = name == "commit-rule"@;
            let b = name == "double-vote"@;
            let c = name == "blind-commit"@;
            let d = name == "no-persist"@;
            let e = name == "compaction-anchor"@;
            let f = name == "no-reconcile"@;
            let g = name == "early-read-index"@;
            let h = name == "stale-read"@;
            match crate::args::bug_named(name) {
                None => !(a || b || c || d || e || f || g || h),
                Some((bugs, stale)) => (a || b || c || d || e || f || g || h) && switched(
                    bugs,
                    a,
                    b,
                    c,
                    d,
                    e,
                    f,
                    g,
                ) && stale == h,
            }
        }),
{
    reveal(crate::args::bug_named);
    reveal_strlit("commit-rule");
    reveal_strlit("double-vote");
    reveal_strlit("blind-commit");
    reveal_strlit("no-persist");
    reveal_strlit("compaction-anchor");
    reveal_strlit("no-reconcile");
    reveal_strlit("early-read-index");
    reveal_strlit("stale-read");
    assert("commit-rule"@.len() == 11 && "commit-rule"@[0] == 'c');
    assert("double-vote"@.len() == 11 && "double-vote"@[0] == 'd');
    assert("blind-commit"@.len() == 12 && "blind-commit"@[0] == 'b');
    assert("no-persist"@.len() == 10 && "no-persist"@[0] == 'n');
    assert("compaction-anchor"@.len() == 17);
    assert("no-reconcile"@.len() == 12 && "no-reconcile"@[0] == 'n');
    assert("early-read-index"@.len() == 16);
    assert("stale-read"@.len() == 10 && "stale-read"@[0] == 's');
}

proof fn lemma_words()
    ensures
        crate::args::kind_of("--start"@) == Kind::Start,
        crate::args::kind_of("--seeds"@) == Kind::Seeds,
        crate::args::kind_of("--threads"@) == Kind::Threads,
        crate::args::kind_of("--ticks"@) == Kind::Ticks,
        crate::args::kind_of("--no-minimize"@) == Kind::NoMinimize,
        crate::args::kind_of("--describe"@) == Kind::Describe,
        crate::args::kind_of("--trace-dir"@) == Kind::TraceDir,
        crate::args::kind_of("--bug"@) == Kind::Bug,
        crate::args::kind_of("-h"@) == Kind::Help,
        crate::args::kind_of("--help"@) == Kind::Help,
{
    reveal(crate::args::kind_of);
    reveal_strlit("--start");
    reveal_strlit("--seeds");
    reveal_strlit("--threads");
    reveal_strlit("--ticks");
    reveal_strlit("--no-minimize");
    reveal_strlit("--describe");
    reveal_strlit("--trace-dir");
    reveal_strlit("--bug");
    reveal_strlit("-h");
    reveal_strlit("--help");
    assert("--start"@.len() == 7 && "--start"@[3] == 't');
    assert("--seeds"@.len() == 7 && "--seeds"@[3] == 'e');
    assert("--ticks"@.len() == 7 && "--ticks"@[3] == 'i');
    assert("--threads"@.len() == 9);
    assert("--no-minimize"@.len() == 13);
    assert("--describe"@.len() == 10);
    assert("--trace-dir"@.len() == 11);
    assert("--bug"@.len() == 5);
    assert("-h"@.len() == 2);
    assert("--help"@.len() == 6);
}

/// Each option sets what it names to what follows it, and nothing else.
pub proof fn law_options_set_what_they_name(args: Seq<Seq<char>>, i: int, was: ArgsView, n: u64)
    requires
        0 <= i < args.len(),
    ensures
        ({
            let r = crate::args::reading(args, i, was);
            let value = i + 1 < args.len() && crate::args::number(args[i + 1]) == Some(n);
            &&& args[i] == "--start"@ && value ==> r == Reading::Next(
                ArgsView { start: n, ..was },
                2,
            )
            &&& args[i] == "--seeds"@ && value ==> r == Reading::Next(
                ArgsView { seeds: n, ..was },
                2,
            )
            &&& args[i] == "--ticks"@ && value ==> r == Reading::Next(
                ArgsView { ticks: n, ..was },
                2,
            )
            &&& args[i] == "--threads"@ && value && n <= usize::MAX ==> r == Reading::Next(
                ArgsView { threads: n as usize, ..was },
                2,
            )
            &&& args[i] == "--no-minimize"@ ==> r == Reading::Next(
                ArgsView { minimize: false, ..was },
                1,
            )
            &&& args[i] == "--describe"@ ==> r == Reading::Next(
                ArgsView { describe: true, ..was },
                1,
            )
            &&& args[i] == "--trace-dir"@ && i + 1 < args.len() ==> r == Reading::Next(
                ArgsView { trace_dir: Some(args[i + 1]), ..was },
                2,
            )
            &&& args[i] == "--help"@ || args[i] == "-h"@ ==> r == Reading::End(ParsedView::Help)
            &&& (args[i] == "--start"@ || args[i] == "--seeds"@ || args[i] == "--ticks"@ || args[i]
                == "--threads"@) && (i + 1 >= args.len() || crate::args::number(args[i + 1])
                is None) ==> (r matches Reading::End(p) && p is Wrong)
            &&& args[i] == "--bug"@ && i + 1 < args.len() ==> match crate::args::bug_named(
                args[i + 1],
            ) {
                None => r matches Reading::End(p) && p is Wrong,
                Some((bugs, stale)) => r matches Reading::Next(now, taken) && taken == 2 && now.bugs
                    == bugs && (now.stale_reads <==> was.stale_reads || stale) && now.bug_label == Some(args[i + 1])
                    && now.seeds == was.seeds && now.start == was.start && now.ticks == was.ticks,
            }
        }),
{
    reveal(crate::args::reading);
    lemma_words();
}

} // verus!
