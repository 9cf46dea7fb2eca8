//! The command line of the fuzzer.
use crate::kvmap::same_str;
use crate::BugSwitches;
use vstd::prelude::*;

verus! {

/// What was asked for on the command line.
#[derive(Debug)]
pub struct Args {
    pub start: u64,
    pub seeds: u64,
    pub threads: usize,
    pub ticks: u64,
    pub bugs: BugSwitches,
    pub stale_reads: bool,
    pub bug_label: Option<String>,
    pub trace_dir: Option<String>,
    pub minimize: bool,
    pub describe: bool,
}

pub struct ArgsView {
    pub start: u64,
    pub seeds: u64,
    pub threads: usize,
    pub ticks: u64,
    pub bugs: BugSwitches,
    pub stale_reads: bool,
    pub bug_label: Option<Seq<char>>,
    pub trace_dir: Option<Seq<char>>,
    pub minimize: bool,
    pub describe: bool,
}

/// The text, if there is one.
pub open spec fn optional_text(s: Option<String>) -> Option<Seq<char>> {
    match s {
        Some(s) => Some(s@),
        None => None,
    }
}

impl View for Args {
    type V = ArgsView;

    open spec fn view(&self) -> ArgsView {
        ArgsView {
            start: self.start,
            seeds: self.seeds,
            threads: self.threads,
            ticks: self.ticks,
            bugs: self.bugs,
            stale_reads: self.stale_reads,
            bug_label: optional_text(self.bug_label),
            trace_dir: optional_text(self.trace_dir),
            minimize: self.minimize,
            describe: self.describe,
        }
    }
}

/// What the command line says to do.
#[derive(Debug)]
pub enum Parsed {
    Run(Args),
    /// Print the usage and stop.
    Help,
    /// What is wrong with it.
    Wrong(String),
}

pub enum ParsedView {
    Run(ArgsView),
    Help,
    Wrong(Seq<char>),
}

impl View for Parsed {
    type V = ParsedView;

    open spec fn view(&self) -> ParsedView {
        match self {
            Parsed::Run(a) => ParsedView::Run(a@),
            Parsed::Help => ParsedView::Help,
            Parsed::Wrong(s) => ParsedView::Wrong(s@),
        }
    }
}

// ---------------------------------------------------------------------------
// Numbers
// ---------------------------------------------------------------------------

/// The value of a decimal digit.
pub open spec fn digit_value(c: char) -> nat {
    (c as nat - '0' as nat) as nat
}

/// The value of a string of decimal digits.
pub open spec fn digits_value(s: Seq<char>) -> nat
    decreases s.len(),
{
    if s.len() == 0 {
        0
    } else {
        digits_value(s.drop_last()) * 10 + digit_value(s.last())
    }
}

pub open spec fn all_digits(s: Seq<char>) -> bool {
    forall|i: int| 0 <= i < s.len() ==> '0' <= #[trigger] s[i] <= '9'
}

/// What a text says as a number: an optional plus sign and then only digits, at
/// least one, within the range of a `u64`.
pub open spec fn number(s: Seq<char>) -> Option<u64> {
    let digits = if s.len() > 0 && s[0] == '+' {
        s.skip(1)
    } else {
        s
    };
    if digits.len() > 0 && all_digits(digits) && digits_value(digits) <= u64::MAX {
        Some(digits_value(digits) as u64)
    } else {
        None
    }
}

/// More digits never make a smaller number.
proof fn lemma_digits_grow(s: Seq<char>, n: int)
    requires
        0 <= n <= s.len(),
        all_digits(s),
    ensures
        digits_value(s.take(n)) <= digits_value(s),
    decreases s.len(),
{
    if n == s.len() {
        assert(s.take(n) =~= s);
    } else {
        assert(s.drop_last().take(n) =~= s.take(n));
        lemma_digits_grow(s.drop_last(), n);
    }
}

/// The value of a decimal digit.
fn digit_of(c: char) -> (r: u64)
    requires
        '0' <= c <= '9',
    ensures
        r == digit_value(c),
{
    c as u64 - '0' as u64
}

/// What a text says as a number.
pub fn parse_number(text: &str) -> (r: Option<u64>)
    ensures
        r == number(text@),
{
    let n: usize = text.unicode_len();
    let mut from: usize = 0;
    if n > 0 {
        if text.get_char(0) == '+' {
            from = 1;
        }
    }
    let ghost digits = if text@.len() > 0 && text@[0] == '+' {
        text@.skip(1)
    } else {
        text@
    };
    if from == n {
        return None;
    }
    let mut value: u64 = 0;
    let mut i: usize = from;
    assert(digits.take(0) =~= Seq::<char>::empty());
    while i < n
        invariant
            from <= i <= n == text@.len(),
            digits.len() == n - from,
            n > from,
            number(text@) == (if all_digits(digits) && digits_value(digits) <= u64::MAX {
                Some(digits_value(digits) as u64)
            } else {
                None
            }),
            forall|k: int| 0 <= k < digits.len() ==> #[trigger] digits[k] == text@[k + from],
            forall|k: int| 0 <= k < i - from ==> '0' <= #[trigger] digits[k] <= '9',
            value == digits_value(digits.take(i - from)),
        decreases n - i,
    {
        let c = text.get_char(i);
        assert(digits[i - from] == c);
        if c < '0' || c > '9' {
            return None;
        }
        let d: u64 = digit_of(c);
        let ghost next = digits.take(i - from + 1);
        assert(next.drop_last() =~= digits.take(i - from));
        assert(next.last() == c);
        proof {
            if all_digits(digits) {
                lemma_digits_grow(digits, i - from + 1);
            }
        }
        match value.checked_mul(10) {
            None => {
                return None;
            },
            Some(tens) => {
                match tens.checked_add(d) {
                    None => {
                        return None;
                    },
                    Some(v) => {
                        value = v;
                    },
                }
            },
        }
        i = i + 1;
    }
    assert(digits.take(n - from) =~= digits);
    Some(value)
}

// ---------------------------------------------------------------------------
// Arguments
// ---------------------------------------------------------------------------

/// The deliberate bug with this name: a switch of the algorithm's, or the
/// simulator's own.
#[verifier::opaque]
pub open spec fn bug_named(name: Seq<char>) -> Option<(BugSwitches, bool)> {
    let none = BugSwitches::none();
    if name == "commit-rule"@ {
        Some((BugSwitches { commit_prior_term_entries: true, ..none }, false))
    } else if name == "double-vote"@ {
        Some((BugSwitches { vote_twice_per_term: true, ..none }, false))
    } else if name == "blind-commit"@ {
        Some((BugSwitches { trust_leader_commit_blindly: true, ..none }, false))
    } else if name == "no-persist"@ {
        Some((BugSwitches { skip_hard_state_persistence: true, ..none }, false))
    } else if name == "compaction-anchor"@ {
        Some((BugSwitches { compaction_anchor_at_zero: true, ..none }, false))
    } else if name == "no-reconcile"@ {
        Some((BugSwitches { skip_snapshot_reconcile: true, ..none }, false))
    } else if name == "early-read-index"@ {
        Some((BugSwitches { read_index_at_arrival: true, ..none }, false))
    } else if name == "stale-read"@ {
        Some((none, true))
    } else {
        None
    }
}

/// The deliberate bug with this name.
pub fn find_bug(name: &str) -> (r: Option<(BugSwitches, bool)>)
    ensures
        r == bug_named(name@),
{
    proof {
        reveal(bug_named);
    }
    let none = BugSwitches::default();
    if same_str(name, "commit-rule") {
        Some((BugSwitches { commit_prior_term_entries: true, ..none }, false))
    } else if same_str(name, "double-vote") {
        Some((BugSwitches { vote_twice_per_term: true, ..none }, false))
    } else if same_str(name, "blind-commit") {
        Some((BugSwitches { trust_leader_commit_blindly: true, ..none }, false))
    } else if same_str(name, "no-persist") {
        Some((BugSwitches { skip_hard_state_persistence: true, ..none }, false))
    } else if same_str(name, "compaction-anchor") {
        Some((BugSwitches { compaction_anchor_at_zero: true, ..none }, false))
    } else if same_str(name, "no-reconcile") {
        Some((BugSwitches { skip_snapshot_reconcile: true, ..none }, false))
    } else if same_str(name, "early-read-index") {
        Some((BugSwitches { read_index_at_arrival: true, ..none }, false))
    } else if same_str(name, "stale-read") {
        Some((none, true))
    } else {
        None
    }
}

/// The kinds of argument there are.
#[derive(Clone, Copy, Debug, PartialEq, Eq, Structural)]
pub enum Kind {
    Start,
    Seeds,
    Threads,
    Ticks,
    NoMinimize,
    Describe,
    TraceDir,
    Bug,
    Help,
    Other,
}

/// Which kind of argument this is.
#[verifier::opaque]
pub open spec fn kind_of(arg: Seq<char>) -> Kind {
    if arg == "--start"@ {
        Kind::Start
    } else if arg == "--seeds"@ {
        Kind::Seeds
    } else if arg == "--threads"@ {
        Kind::Threads
    } else if arg == "--ticks"@ {
        Kind::Ticks
    } else if arg == "--no-minimize"@ {
        Kind::NoMinimize
    } else if arg == "--describe"@ {
        Kind::Describe
    } else if arg == "--trace-dir"@ {
        Kind::TraceDir
    } else if arg == "--bug"@ {
        Kind::Bug
    } else if arg == "-h"@ || arg == "--help"@ {
        Kind::Help
    } else {
        Kind::Other
    }
}

fn find_kind(arg: &str) -> (r: Kind)
    ensures
        r == kind_of(arg@),
{
    proof {
        reveal(kind_of);
    }
    if same_str(arg, "--start") {
        Kind::Start
    } else if same_str(arg, "--seeds") {
        Kind::Seeds
    } else if same_str(arg, "--threads") {
        Kind::Threads
    } else if same_str(arg, "--ticks") {
        Kind::Ticks
    } else if same_str(arg, "--no-minimize") {
        Kind::NoMinimize
    } else if same_str(arg, "--describe") {
        Kind::Describe
    } else if same_str(arg, "--trace-dir") {
        Kind::TraceDir
    } else if same_str(arg, "--bug") {
        Kind::Bug
    } else if same_str(arg, "-h") || same_str(arg, "--help") {
        Kind::Help
    } else {
        Kind::Other
    }
}

/// The arguments' meaning before any is read.
pub open spec fn standing_args(threads: usize) -> ArgsView {
    ArgsView {
        start: 0,
        seeds: 1_000,
        threads,
        ticks: 30_000,
        bugs: BugSwitches::none(),
        stale_reads: false,
        bug_label: None,
        trace_dir: None,
        minimize: true,
        describe: false,
    }
}

/// The number that follows the argument at `i`, or what is wrong.
pub open spec fn value_after(args: Seq<Seq<char>>, i: int) -> Result<u64, Seq<char>> {
    if i + 1 >= args.len() {
        Err(Seq::<char>::empty() + args[i] + " needs a value"@)
    } else {
        match number(args[i + 1]) {
            Some(n) => Ok(n),
            None => Err(Seq::<char>::empty() + args[i] + ": not a number"@),
        }
    }
}

/// What reading one argument leads to: what is known now and how many were
/// taken, or the end.
pub enum Reading {
    Next(ArgsView, int),
    End(ParsedView),
}

/// The argument at `i` and its value.
#[verifier::opaque]
pub open spec fn reading(args: Seq<Seq<char>>, i: int, so_far: ArgsView) -> Reading {
    match kind_of(args[i]) {
        Kind::Start => match value_after(args, i) {
            Ok(n) => Reading::Next(ArgsView { start: n, ..so_far }, 2),
            Err(e) => Reading::End(ParsedView::Wrong(e)),
        },
        Kind::Seeds => match value_after(args, i) {
            Ok(n) => Reading::Next(ArgsView { seeds: n, ..so_far }, 2),
            Err(e) => Reading::End(ParsedView::Wrong(e)),
        },
        Kind::Threads => match value_after(args, i) {
            Ok(n) => Reading::Next(ArgsView { threads: n as usize, ..so_far }, 2),
            Err(e) => Reading::End(ParsedView::Wrong(e)),
        },
        Kind::Ticks => match value_after(args, i) {
            Ok(n) => Reading::Next(ArgsView { ticks: n, ..so_far }, 2),
            Err(e) => Reading::End(ParsedView::Wrong(e)),
        },
        Kind::NoMinimize => Reading::Next(ArgsView { minimize: false, ..so_far }, 1),
        Kind::Describe => Reading::Next(ArgsView { describe: true, ..so_far }, 1),
        Kind::TraceDir => if i + 1 >= args.len() {
            Reading::End(ParsedView::Wrong("--trace-dir needs a path"@))
        } else {
            Reading::Next(ArgsView { trace_dir: Some(args[i + 1]), ..so_far }, 2)
        },
        Kind::Bug => if i + 1 >= args.len() {
            Reading::End(ParsedView::Wrong("--bug needs a name"@))
        } else {
            match bug_named(args[i + 1]) {
                None => Reading::End(
                    ParsedView::Wrong(Seq::<char>::empty() + "unknown bug: "@ + args[i + 1]),
                ),
                Some(bug) => Reading::Next(
                    ArgsView {
                        bugs: bug.0,
                        stale_reads: so_far.stale_reads || bug.1,
                        bug_label: Some(args[i + 1]),
                        ..so_far
                    },
                    2,
                ),
            }
        },
        Kind::Help => Reading::End(ParsedView::Help),
        Kind::Other => Reading::End(
            ParsedView::Wrong(Seq::<char>::empty() + "unknown argument: "@ + args[i]),
        ),
    }
}

/// The arguments from `i` on, read one after the other. The first that is wrong,
/// or that asks for help, ends it.
pub open spec fn read_from(args: Seq<Seq<char>>, i: int, so_far: ArgsView) -> ParsedView
    decreases args.len() + 1 - i,
{
    if i < 0 || i >= args.len() {
        ParsedView::Run(so_far)
    } else {
        match reading(args, i, so_far) {
            Reading::Next(next, taken) => if taken == 2 {
                read_from(args, i + 2, next)
            } else {
                read_from(args, i + 1, next)
            },
            Reading::End(end) => end,
        }
    }
}

pub open spec fn texts_of(args: Seq<String>) -> Seq<Seq<char>> {
    Seq::new(args.len(), |i: int| args[i]@)
}

fn number_after(args: &Vec<String>, i: usize) -> (r: Result<u64, String>)
    requires
        i < args@.len(),
    ensures
        match (r, value_after(texts_of(args@), i as int)) {
            (Ok(a), Ok(b)) => a == b,
            (Err(a), Err(b)) => a@ == b,
            _ => false,
        },
{
    let mut wrong = String::new();
    wrong.append(args[i].as_str());
    assert(texts_of(args@)[i as int] == args@[i as int]@);
    if args.len() - i <= 1 {
        wrong.append(" needs a value");
        return Err(wrong);
    }
    assert(texts_of(args@)[i + 1] == args@[i + 1]@);
    match parse_number(args[i + 1].as_str()) {
        Some(n) => Ok(n),
        None => {
            wrong.append(": not a number");
            Err(wrong)
        },
    }
}

/// Read the argument at `i` and its value: how many were taken, or the end.
fn read_one(args: &Vec<String>, i: usize, so_far: &mut Args) -> (r: Result<usize, Parsed>)
    requires
        i < args@.len(),
    ensures
        match (r, reading(texts_of(args@), i as int, old(so_far)@)) {
            (Ok(n), Reading::Next(next, taken)) => n == taken && (n == 1 || (n == 2 && i + 2
                <= args@.len())) && final(so_far)@ == next,
            (Err(p), Reading::End(end)) => p@ == end,
            _ => false,
        },
{
    proof {
        reveal(reading);
    }
    let ghost texts = texts_of(args@);
    assert(texts[i as int] == args@[i as int]@);
    let more = args.len() - i > 1;
    assert(more ==> texts[i + 1] == args@[i + 1]@);
    match find_kind(args[i].as_str()) {
        Kind::Start => match number_after(args, i) {
            Ok(n) => {
                so_far.start = n;
                Ok(2)
            },
            Err(e) => Err(Parsed::Wrong(e)),
        },
        Kind::Seeds => match number_after(args, i) {
            Ok(n) => {
                so_far.seeds = n;
                Ok(2)
            },
            Err(e) => Err(Parsed::Wrong(e)),
        },
        Kind::Threads => match number_after(args, i) {
            Ok(n) => {
                so_far.threads = n as usize;
                Ok(2)
            },
            Err(e) => Err(Parsed::Wrong(e)),
        },
        Kind::Ticks => match number_after(args, i) {
            Ok(n) => {
                so_far.ticks = n;
                Ok(2)
            },
            Err(e) => Err(Parsed::Wrong(e)),
        },
        Kind::NoMinimize => {
            so_far.minimize = false;
            Ok(1)
        },
        Kind::Describe => {
            so_far.describe = true;
            Ok(1)
        },
        Kind::TraceDir => {
            if !more {
                return Err(Parsed::Wrong("--trace-dir needs a path".to_owned()));
            }
            so_far.trace_dir = Some(args[i + 1].as_str().to_owned());
            Ok(2)
        },
        Kind::Bug => {
            if !more {
                return Err(Parsed::Wrong("--bug needs a name".to_owned()));
            }
            let name = args[i + 1].as_str();
            match find_bug(name) {
                None => {
                    let mut wrong = String::new();
                    wrong.append("unknown bug: ");
                    wrong.append(name);
                    Err(Parsed::Wrong(wrong))
                },
                Some(bug) => {
                    so_far.bugs = bug.0;
                    so_far.stale_reads = so_far.stale_reads || bug.1;
                    so_far.bug_label = Some(name.to_owned());
                    Ok(2)
                },
            }
        },
        Kind::Help => Err(Parsed::Help),
        Kind::Other => {
            let mut wrong = String::new();
            wrong.append("unknown argument: ");
            wrong.append(args[i].as_str());
            Err(Parsed::Wrong(wrong))
        },
    }
}

/// Read the arguments, starting from the defaults with this many threads.
pub fn parse(args: &Vec<String>, threads: usize) -> (r: Parsed)
    ensures
        r@ == read_from(texts_of(args@), 0, standing_args(threads)),
{
    let ghost texts = texts_of(args@);
    let mut so_far = Args {
        start: 0,
        seeds: 1_000,
        threads,
        ticks: 30_000,
        bugs: BugSwitches::default(),
        stale_reads: false,
        bug_label: None,
        trace_dir: None,
        minimize: true,
        describe: false,
    };
    let mut i: usize = 0;
    while i < args.len()
        invariant
            i <= args@.len(),
            texts == texts_of(args@),
            read_from(texts, 0, standing_args(threads)) == read_from(texts, i as int, so_far@),
        decreases args@.len() - i,
    {
        match read_one(args, i, &mut so_far) {
            Ok(taken) => {
                i = i + taken;
            },
            Err(end) => {
                return end;
            },
        }
    }
    Parsed::Run(so_far)
}

} // verus!
