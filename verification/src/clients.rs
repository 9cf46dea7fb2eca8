//! What the clients ask for, of whom, and how long they keep at it.
use crate::cluster_model::ClusterView;
use crate::kv::CommandView;
use crate::workload::{AskView, DriverView, FlightView, WorkloadView};
use vstd::prelude::*;

verus! {

/// What a client asks for.
///
/// The kinds of request come as often as their weights say. A request is about
/// one of the keys, and writes a value that nobody has written before; a
/// conditional write expects nothing half of the time, and else some value that
/// was written earlier.
pub proof fn law_requests_go_by_weight(w: WorkloadView)
    requires
        w.wf(),
        w.issued < u64::MAX,
    ensures
        ({
            let (ask, after) = w.ask();
            let r1 = crate::rand::advanced(w.rng);
            let r2 = crate::rand::advanced(r1);
            let r3 = crate::rand::advanced(r2);
            let put = w.cfg.weight_put as int;
            let get = put + w.cfg.weight_get;
            let cas = get + w.cfg.weight_cas;
            let roll = crate::disturbance::share(r2, cas + w.cfg.weight_delete);
            let about = crate::disturbance::share(r1, w.cfg.keys as int);
            let key = "k"@ + crate::text::decimal(about as nat);
            let value = "v"@ + crate::text::decimal((w.issued + 1) as nat);
            &&& 0 <= roll < cas + w.cfg.weight_delete
            &&& 0 <= about < w.cfg.keys
            &&& ask.client == crate::disturbance::share(w.rng, w.cfg.clients as int)
            &&& ask.command.key() == key
            &&& ask.command is Put <==> roll < put
            &&& ask.command is Get <==> put <= roll < get
            &&& ask.command is Cas <==> get <= roll < cas
            &&& ask.command is Delete <==> cas <= roll
            &&& ask.command matches CommandView::Put { value: v, .. } ==> v == value
            &&& ask.command matches CommandView::Cas { expect, value: v, .. } ==> {
                &&& v == value
                &&& expect is None <==> crate::rand::comes_up(r3, 1, 2)
                &&& expect matches Some(e) ==> exists|n: u64|
                    n <= w.issued && e == "v"@ + #[trigger] crate::text::decimal(n as nat)
            }
            &&& after.issued == w.issued + 1
            &&& after.cfg == w.cfg
        }),
{
    let r1 = crate::rand::advanced(w.rng);
    let r2 = crate::rand::advanced(r1);
    let r3 = crate::rand::advanced(r2);
    let r4 = crate::rand::advanced(r3);
    let issued = (w.issued + 1) as u64;
    crate::rand::lemma_range_bounds(w.rng, 0, w.cfg.clients as u64);
    crate::rand::lemma_range_bounds(r1, 0, w.cfg.keys as u64);
    crate::rand::lemma_range_bounds(r2, 0, w.cfg.total());
    crate::rand::lemma_range_bounds(r4, 0, issued);
    let ask = w.ask().0;
    let about = crate::disturbance::share(r1, w.cfg.keys as int);
    assert(ask.command.key() =~= "k"@ + crate::text::decimal(about as nat));
    let value = crate::workload::numbered("v"@, issued);
    assert(value =~= "v"@ + crate::text::decimal(issued as nat));
    let earlier = crate::rand::in_range(r4, 0, issued);
    assert(crate::workload::numbered("v"@, earlier) =~= "v"@ + crate::text::decimal(
        earlier as nat,
    ));
}

/// Whom a client asks: the leader it knows of, unless its hint is out of date or
/// there is none; then anybody.
pub proof fn law_clients_ask_the_leader(w: WorkloadView, leader: Option<u32>, nodes: nat)
    requires
        0 < nodes <= u32::MAX,
    ensures
        ({
            let (target, after) = w.aim(leader, nodes);
            let stale = w.cfg.stale_target_permille > 0 && crate::rand::comes_up(
                w.rng,
                w.cfg.stale_target_permille as u64,
                1000,
            );
            let s = if w.cfg.stale_target_permille > 0 {
                crate::rand::advanced(w.rng)
            } else {
                w.rng
            };
            &&& leader is Some && !stale ==> Some(target) == leader
            &&& leader is None || stale ==> target < nodes && target == crate::disturbance::share(
                s,
                nodes as int,
            )
            &&& after.next_seq == w.next_seq && after.issued == w.issued && after.cfg == w.cfg
        }),
{
    crate::rand::lemma_range_bounds(w.rng, 0, nodes as u64);
    crate::rand::lemma_range_bounds(crate::rand::advanced(w.rng), 0, nodes as u64);
}

/// Clients pause between requests for as long as they were told.
pub proof fn law_clients_pause(w: WorkloadView)
    ensures
        w.cfg.gap_min <= w.gap(),
        w.cfg.gap_min < w.cfg.gap_max ==> w.gap() < w.cfg.gap_max,
        w.after_gap().next_seq == w.next_seq && w.after_gap().issued == w.issued,
{
    crate::disturbance::law_spans_stay_in_bounds(w.cfg.gap_min, w.cfg.gap_max, w.rng);
}

// ---------------------------------------------------------------------------
// Trying again
// ---------------------------------------------------------------------------

/// Nobody has answered yet.
pub open spec fn open_still(sim: ClusterView, f: FlightView) -> bool {
    !sim.history.is_answered(f.client, f.seq)
}

/// A request is sent again: it has waited long enough, and was not sent too often.
pub open spec fn goes_again(d: DriverView, sim: ClusterView, f: FlightView) -> bool {
    open_still(sim, f) && sim.now >= f.resend_at && f.attempts < d.max_attempts
}

/// What becomes of a request that is in flight, if it stays in flight.
pub open spec fn stays(d: DriverView, sim: ClusterView, f: FlightView, g: FlightView) -> bool {
    &&& open_still(sim, f)
    &&& g.client == f.client && g.seq == f.seq && g.command == f.command
    &&& sim.now < f.resend_at ==> g.attempts == f.attempts && g.resend_at == f.resend_at
    &&& sim.now >= f.resend_at ==> f.attempts < d.max_attempts && g.attempts == f.attempts + 1
        && g.resend_at == if sim.now + d.retry_after > u64::MAX {
        u64::MAX as int
    } else {
        sim.now + d.retry_after
    }
}

proof fn lemma_kept_from(d: DriverView, sim: ClusterView, n: int, i: int) -> (k: int)
    requires
        0 <= n <= d.in_flight.len(),
        0 <= i < d.kept(sim, n).len(),
    ensures
        0 <= k < n,
        stays(d, sim, d.in_flight[k], d.kept(sim, n)[i]),
    decreases n,
{
    if i < d.kept(sim, n - 1).len() {
        lemma_kept_from(d, sim, n - 1, i)
    } else {
        n - 1
    }
}

proof fn lemma_kept_to(d: DriverView, sim: ClusterView, n: int, k: int) -> (i: int)
    requires
        0 <= k < n <= d.in_flight.len(),
        open_still(sim, d.in_flight[k]),
        !hopeless_now(d, sim, d.in_flight[k]),
    ensures
        0 <= i < d.kept(sim, n).len(),
        stays(d, sim, d.in_flight[k], d.kept(sim, n)[i]),
    decreases n,
{
    if k < n - 1 {
        lemma_kept_to(d, sim, n - 1, k)
    } else {
        d.kept(sim, n - 1).len() as int
    }
}

proof fn lemma_again_from(d: DriverView, sim: ClusterView, n: int, i: int) -> (k: int)
    requires
        0 <= n <= d.in_flight.len(),
        0 <= i < d.overdue(sim, n).len(),
    ensures
        0 <= k < n,
        goes_again(d, sim, d.in_flight[k]),
        same_request(d.in_flight[k], d.overdue(sim, n)[i]),
    decreases n,
{
    if i < d.overdue(sim, n - 1).len() {
        lemma_again_from(d, sim, n - 1, i)
    } else {
        n - 1
    }
}

proof fn lemma_again_to(d: DriverView, sim: ClusterView, n: int, k: int) -> (i: int)
    requires
        0 <= k < n <= d.in_flight.len(),
        goes_again(d, sim, d.in_flight[k]),
    ensures
        0 <= i < d.overdue(sim, n).len(),
        same_request(d.in_flight[k], d.overdue(sim, n)[i]),
    decreases n,
{
    if k < n - 1 {
        lemma_again_to(d, sim, n - 1, k)
    } else {
        d.overdue(sim, n - 1).len() as int
    }
}

proof fn lemma_hopeless_from(d: DriverView, sim: ClusterView, n: int, i: int) -> (k: int)
    requires
        0 <= n <= d.in_flight.len(),
        0 <= i < d.hopeless(sim, n).len(),
    ensures
        0 <= k < n,
        hopeless_now(d, sim, d.in_flight[k]),
        (d.in_flight[k].client, d.in_flight[k].seq) == d.hopeless(sim, n)[i],
    decreases n,
{
    if i < d.hopeless(sim, n - 1).len() {
        lemma_hopeless_from(d, sim, n - 1, i)
    } else {
        n - 1
    }
}

proof fn lemma_hopeless_to(d: DriverView, sim: ClusterView, n: int, k: int) -> (i: int)
    requires
        0 <= k < n <= d.in_flight.len(),
        hopeless_now(d, sim, d.in_flight[k]),
    ensures
        0 <= i < d.hopeless(sim, n).len(),
        (d.in_flight[k].client, d.in_flight[k].seq) == d.hopeless(sim, n)[i],
    decreases n,
{
    if k < n - 1 {
        lemma_hopeless_to(d, sim, n - 1, k)
    } else {
        d.hopeless(sim, n - 1).len() as int
    }
}

/// The same thing is asked under the same number.
pub open spec fn same_request(f: FlightView, a: AskView) -> bool {
    a.client == f.client && a.seq == f.seq && a.command == f.command
}

/// A request is given up: it has waited long enough, and was sent often enough.
pub open spec fn hopeless_now(d: DriverView, sim: ClusterView, f: FlightView) -> bool {
    open_still(sim, f) && sim.now >= f.resend_at && f.attempts >= d.max_attempts
}

proof fn lemma_given_up(d: DriverView, sim: ClusterView, list: Seq<(u32, u64)>, n: int)
    requires
        n >= 0,
    ensures
        ({
            let r = d.give_up(sim, list, n).0;
            &&& r.in_flight == d.in_flight && r.work == d.work && r.retries == d.retries
            &&& r.retry_after == d.retry_after && r.max_attempts == d.max_attempts
            &&& r.abandoned == if d.abandoned + n > u64::MAX {
                u64::MAX as int
            } else {
                d.abandoned + n
            }
        }),
    decreases n,
{
    if n > 0 {
        lemma_given_up(d, sim, list, n - 1);
    }
}

proof fn lemma_sent_again(d: DriverView, sim: ClusterView, list: Seq<AskView>, n: int)
    requires
        n >= 0,
    ensures
        ({
            let r = d.resend(sim, list, n).0;
            &&& r.in_flight == d.in_flight && r.abandoned == d.abandoned
            &&& r.retry_after == d.retry_after && r.max_attempts == d.max_attempts
            &&& r.work.next_seq == d.work.next_seq && r.work.issued == d.work.issued
            &&& r.retries == if d.retries + n > u64::MAX {
                u64::MAX as int
            } else {
                d.retries + n
            }
        }),
    decreases n,
{
    if n > 0 {
        lemma_sent_again(d, sim, list, n - 1);
    }
}

/// What the clients do about the requests that they have in flight.
///
/// One that was answered is done with. One that is not due yet stays as it is;
/// one that is due is sent again, once more, and has its wait start over; unless
/// it was sent often enough already: then it is given up. Here `k` is any request
/// that was in flight.
pub proof fn law_clients_keep_at_it(d: DriverView, sim: ClusterView, k: int)
    requires
        0 <= k < d.in_flight.len(),
    ensures
        ({
            let n = d.in_flight.len() as int;
            let after = d.tidied(sim).0;
            let again = d.overdue(sim, n);
            let hopeless = d.hopeless(sim, n);
            let f = d.in_flight[k];
            &&& open_still(sim, f) && !hopeless_now(d, sim, f) ==> exists|i: int|
                0 <= i < after.in_flight.len() && stays(d, sim, f, #[trigger] after.in_flight[i])
            &&& goes_again(d, sim, f) ==> exists|i: int|
                0 <= i < again.len() && same_request(f, #[trigger] again[i])
            &&& hopeless_now(d, sim, f) ==> exists|i: int|
                0 <= i < hopeless.len() && (f.client, f.seq) == #[trigger] hopeless[i]
        }),
{
    let n = d.in_flight.len() as int;
    let f = d.in_flight[k];
    lemma_tidied(d, sim);
    if open_still(sim, f) && !hopeless_now(d, sim, f) {
        let i = lemma_kept_to(d, sim, n, k);
        assert(stays(d, sim, f, d.tidied(sim).0.in_flight[i]));
    }
    if goes_again(d, sim, f) {
        let i = lemma_again_to(d, sim, n, k);
        assert(same_request(f, d.overdue(sim, n)[i]));
    }
    if hopeless_now(d, sim, f) {
        let i = lemma_hopeless_to(d, sim, n, k);
        assert((f.client, f.seq) == d.hopeless(sim, n)[i]);
    }
}

/// And they do nothing else: whatever is still in flight, sent again or given up
/// was in flight before, for the same request.
pub proof fn law_clients_make_nothing_up(d: DriverView, sim: ClusterView, i: int)
    ensures
        ({
            let n = d.in_flight.len() as int;
            let after = d.tidied(sim).0;
            let again = d.overdue(sim, n);
            let hopeless = d.hopeless(sim, n);
            &&& 0 <= i < after.in_flight.len() ==> exists|k: int|
                0 <= k < n && stays(d, sim, #[trigger] d.in_flight[k], after.in_flight[i])
            &&& 0 <= i < again.len() ==> exists|k: int|
                0 <= k < n && goes_again(d, sim, #[trigger] d.in_flight[k]) && same_request(
                    d.in_flight[k],
                    again[i],
                )
            &&& 0 <= i < hopeless.len() ==> exists|k: int|
                0 <= k < n && hopeless_now(d, sim, #[trigger] d.in_flight[k]) && (
                d.in_flight[k].client, d.in_flight[k].seq) == hopeless[i]
        }),
{
    let n = d.in_flight.len() as int;
    lemma_tidied(d, sim);
    if 0 <= i < d.kept(sim, n).len() {
        let k = lemma_kept_from(d, sim, n, i);
        assert(stays(d, sim, d.in_flight[k], d.tidied(sim).0.in_flight[i]));
    }
    if 0 <= i < d.overdue(sim, n).len() {
        let k = lemma_again_from(d, sim, n, i);
        assert(goes_again(d, sim, d.in_flight[k]));
    }
    if 0 <= i < d.hopeless(sim, n).len() {
        let k = lemma_hopeless_from(d, sim, n, i);
        assert(hopeless_now(d, sim, d.in_flight[k]));
    }
}

proof fn lemma_tidied(d: DriverView, sim: ClusterView)
    ensures
        ({
            let n = d.in_flight.len() as int;
            let after = d.tidied(sim).0;
            let again = d.overdue(sim, n).len();
            let hopeless = d.hopeless(sim, n).len();
            &&& after.in_flight == d.kept(sim, n)
            &&& d.retries + again <= u64::MAX ==> after.retries == d.retries + again
            &&& d.abandoned + hopeless <= u64::MAX ==> after.abandoned == d.abandoned + hopeless
            &&& after.retry_after == d.retry_after && after.max_attempts == d.max_attempts
            &&& after.work.next_seq == d.work.next_seq && after.work.issued == d.work.issued
        }),
{
    let n = d.in_flight.len() as int;
    let again = d.overdue(sim, n);
    let hopeless = d.hopeless(sim, n);
    let kept = DriverView { in_flight: d.kept(sim, n), ..d };
    lemma_given_up(kept, sim, hopeless, hopeless.len() as int);
    let (e, s) = kept.give_up(sim, hopeless, hopeless.len() as int);
    lemma_sent_again(e, s, again, again.len() as int);
}

/// Each request that is sent again counts as one retry, and each that is given up
/// as one abandoned; the clients' patience and numbers stay what they were.
pub proof fn law_retries_are_counted(d: DriverView, sim: ClusterView)
    ensures
        ({
            let n = d.in_flight.len() as int;
            let after = d.tidied(sim).0;
            let again = d.overdue(sim, n).len();
            let hopeless = d.hopeless(sim, n).len();
            &&& d.retries + again <= u64::MAX ==> after.retries == d.retries + again
            &&& d.abandoned + hopeless <= u64::MAX ==> after.abandoned == d.abandoned + hopeless
            &&& after.retry_after == d.retry_after && after.max_attempts == d.max_attempts
            &&& after.work.next_seq == d.work.next_seq && after.work.issued == d.work.issued
        }),
{
    lemma_tidied(d, sim);
}

/// A client that waits for an answer asks for nothing new, and its next number
/// stays its next number. One that does not wait has a new request in flight,
/// sent once.
pub proof fn law_one_request_at_a_time(d: DriverView, sim: ClusterView)
    requires
        d.work.wf(),
        d.work.next_seq[d.work.next_client() as int] < u64::MAX,
    ensures
        ({
            let (after, s) = d.issue(sim);
            let client = d.work.next_client();
            let waits = exists|i: int|
                0 <= i < d.in_flight.len() && (#[trigger] d.in_flight[i]).client == client;
            &&& waits ==> s == sim && after.in_flight == d.in_flight && after.work.next_seq
                == d.work.next_seq
            &&& !waits ==> {
                let f = after.in_flight.last();
                &&& after.in_flight.len() == d.in_flight.len() + 1
                &&& after.in_flight.drop_last() == d.in_flight
                &&& f.client == client && f.seq == d.work.next_seq[client as int] && f.attempts == 1
                &&& f.command == d.work.ask().0.command
                &&& f.resend_at == if sim.now + d.retry_after > u64::MAX {
                    u64::MAX as int
                } else {
                    sim.now + d.retry_after
                }
                &&& after.work.next_seq[client as int] == f.seq + 1
            }
            &&& after.retries == d.retries && after.abandoned == d.abandoned
        }),
{
    crate::rand::lemma_range_bounds(d.work.rng, 0, d.work.cfg.clients as u64);
    crate::workload::law_numbers_are_gapless(d.work, d.work.next_client());
    let (after, s) = d.issue(sim);
    assert(after.in_flight.len() > d.in_flight.len() ==> after.in_flight.drop_last()
        =~= d.in_flight);
}

} // verus!
