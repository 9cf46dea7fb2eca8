//! What a log gives away about itself, entry by entry.
use crate::log::{EntryView, LogView};
use crate::LogId;
use vstd::prelude::*;

verus! {

/// A follower that has nothing where a leader wants to go on says where its own
/// log ends; one that has something else there says of which term it is, and
/// where the entries of that term begin.
pub proof fn law_hints_point_at_the_conflict(log: LogView, prev: u64)
    requires
        log.wf(),
        !log.zero_anchor,
    ensures
        ({
            let hint = log.conflict_hint(prev);
            let last = log.start + log.entries.len() - 1;
            &&& prev > last ==> hint.term is None && hint.first_index == last + 1
            &&& log.start <= prev <= last ==> {
                let term = log.entries[prev - log.start].term;
                &&& hint.term == Some(term)
                &&& log.start <= hint.first_index <= prev
                &&& forall|i: int|
                    hint.first_index <= i <= prev ==> (#[trigger] log.entries[i
                        - log.start]).term == term
                &&& hint.first_index > log.start ==> log.entries[hint.first_index - 1
                    - log.start].term != term
            }
            &&& prev < log.last_included.index ==> hint.term is None && hint.first_index
                == log.start
        }),
{
    let last = log.start + log.entries.len() - 1;
    if log.start <= prev <= last {
        lemma_run(log, prev, log.entries[prev - log.start].term);
    }
}

proof fn lemma_run(log: LogView, index: u64, term: u64)
    requires
        log.wf(),
        !log.zero_anchor,
        log.holds(index),
        log.at(index).term == term,
    ensures
        ({
            let first = log.run_start(index, term);
            &&& log.start <= first <= index
            &&& forall|i: int|
                first <= i <= index ==> (#[trigger] log.entries[i - log.start]).term == term
            &&& first > log.start ==> log.entries[first - 1 - log.start].term != term
        }),
    decreases index,
{
    if index > log.start {
        let before = (index - 1) as u64;
        assert(log.holds(before));
        assert(log.term_at(before) == Some(log.at(before).term));
        if log.term_at(before) == Some(term) {
            lemma_run(log, before, term);
            let first = log.run_start(before, term);
            assert forall|i: int| first <= i <= index implies (#[trigger] log.entries[i
                - log.start]).term == term by {
                if i == index {
                    assert(log.entries[index - log.start].term == term);
                }
            }
        }
    }
}

/// What is sent from an index on: the entries from there, or from where the log
/// starts, one after the other, as many as there are but no more than asked for.
pub proof fn law_entries_come_in_order(log: LogView, index: u64, max: usize, k: int)
    requires
        log.wf(),
    ensures
        ({
            let sent = log.entries_from(index, max);
            let first = if index < log.start {
                log.start as int
            } else {
                index as int
            };
            let there = log.start + log.entries.len() - first;
            &&& there <= 0 ==> sent.len() == 0
            &&& there > 0 ==> sent.len() == if there < max {
                there
            } else {
                max as int
            }
            &&& 0 <= k < sent.len() ==> sent[k] == log.entries[first + k - log.start]
        }),
{
}

/// What is left of a log that is cut: everything before the cut.
pub proof fn law_cuts_leave_the_rest(log: LogView, index: u64, i: u64)
    requires
        log.wf(),
    ensures
        log.truncate_from(index).holds(i) <==> log.holds(i) && i < index,
        log.truncate_from(index).holds(i) ==> log.truncate_from(index).at(i) == log.at(i),
        log.truncate_from(index).last_included == log.last_included,
        log.truncate_from(index).start == log.start,
{
}

/// What is left of a log behind a snapshot: what comes after it, if the log agrees
/// with the snapshot on where it ends; else nothing.
pub proof fn law_snapshots_replace_what_they_cover(log: LogView, boundary: LogId, i: u64)
    requires
        log.wf(),
        boundary.index < u64::MAX,
        boundary.index >= log.last_included.index,
    ensures
        ({
            let after = log.reconcile(boundary);
            let agrees = log.term_at(boundary.index) == Some(boundary.term);
            &&& after.start == boundary.index + 1
            &&& after.last_included == boundary || (boundary.index == log.last_included.index
                && after == log)
            &&& agrees ==> (after.holds(i) <==> log.holds(i) && i > boundary.index)
            &&& agrees && after.holds(i) ==> after.at(i) == log.at(i)
            &&& !agrees ==> !after.holds(i)
        }),
{
}

/// The configuration in force up to an index is the last one up to there.
pub proof fn law_the_last_configuration_counts(log: LogView, upto: u64, i: u64)
    requires
        log.wf(),
        upto <= log.last_index(),
    ensures
        log.latest_config(upto) matches Some(c) ==> log.start <= c <= upto && log.at(c).payload
            is Config,
        log.start <= i <= upto && log.at(i).payload is Config ==> (log.latest_config(
            upto,
        ) matches Some(c) && c >= i),
    decreases upto,
{
    if upto >= log.start && upto > 0 && !(log.at(upto).payload is Config) {
        law_the_last_configuration_counts(log, (upto - 1) as u64, i);
    }
}

/// The first difference is one: everything before it is in the log already, and
/// it is not.
pub proof fn law_differences_are_found(log: LogView, entries: Seq<EntryView>, from: int)
    requires
        0 <= from <= entries.len(),
    ensures
        ({
            let k = log.first_difference(entries, from);
            &&& from <= k <= entries.len()
            &&& forall|i: int|
                from <= i < k ==> log.term_at((#[trigger] entries[i]).index) == Some(
                    entries[i].term,
                )
            &&& k < entries.len() ==> log.term_at(entries[k].index) != Some(entries[k].term)
        }),
    decreases entries.len() - from,
{
    if from < entries.len() && log.term_at(entries[from].index) == Some(entries[from].term) {
        law_differences_are_found(log, entries, from + 1);
    }
}

} // verus!
