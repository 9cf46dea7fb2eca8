//! The event queue.
//!
//! Ordering here *is* the run. Two events at the same tick must be processed in
//! a defined order or the same seed produces different results, so every event
//! carries a monotonic sequence number and the queue is kept in the order of
//! `(tick, seq)`.
use crate::faults::{Fault, FaultView};
use crate::message::MessageView;
use crate::model::RequestView;
use crate::{ClientRequest, NodeId, RaftMessage, Tick};
use vstd::prelude::*;

verus! {

/// Something that happens at a tick.
#[derive(Debug, PartialEq, Eq)]
pub enum Event {
    /// A message finished traversing the network.
    Deliver {
        from: NodeId,
        to: NodeId,
        msg: RaftMessage,
        /// When it was handed to the network.
        sent_at: Tick,
    },
    /// A node's timer may have expired. Delivered as a tick; a no-op if no
    /// deadline has actually been reached.
    Timer { node: NodeId },
    /// A client submitted a request to a node.
    Client { node: NodeId, req: ClientRequest },
    /// The fault schedule disturbs or repairs the network.
    Fault { fault: Fault },
    /// Time for this node to snapshot its state machine and drop the log
    /// prefix.
    Compact { node: NodeId },
}

pub enum EventView {
    Deliver { from: u32, to: u32, msg: MessageView, sent_at: u64 },
    Timer { node: u32 },
    Client { node: u32, req: RequestView },
    Fault { fault: FaultView },
    Compact { node: u32 },
}

impl View for Event {
    type V = EventView;

    open spec fn view(&self) -> EventView {
        match *self {
            Event::Deliver { from, to, msg, sent_at } => EventView::Deliver {
                from,
                to,
                msg: msg@,
                sent_at,
            },
            Event::Timer { node } => EventView::Timer { node },
            Event::Client { node, req } => EventView::Client { node, req: req@ },
            Event::Fault { fault } => EventView::Fault { fault: fault@ },
            Event::Compact { node } => EventView::Compact { node },
        }
    }
}

impl Clone for Event {
    fn clone(&self) -> (r: Self)
        ensures
            r@ == self@,
    {
        match self {
            Event::Deliver { from, to, msg, sent_at } => Event::Deliver {
                from: *from,
                to: *to,
                msg: msg.clone(),
                sent_at: *sent_at,
            },
            Event::Timer { node } => Event::Timer { node: *node },
            Event::Client { node, req } => Event::Client { node: *node, req: req.clone() },
            Event::Fault { fault } => Event::Fault { fault: fault.clone() },
            Event::Compact { node } => Event::Compact { node: *node },
        }
    }
}

/// A pending event and its place in the order.
#[derive(Debug)]
pub struct Scheduled {
    pub tick: Tick,
    pub seq: u64,
    pub event: Event,
}

#[verifier::ext_equal]
pub struct SlotView {
    pub tick: u64,
    pub seq: u64,
    pub event: EventView,
}

impl View for Scheduled {
    type V = SlotView;

    open spec fn view(&self) -> SlotView {
        SlotView { tick: self.tick, seq: self.seq, event: self.event@ }
    }
}

impl Clone for Scheduled {
    fn clone(&self) -> (r: Self)
        ensures
            r@ == self@,
    {
        Scheduled { tick: self.tick, seq: self.seq, event: self.event.clone() }
    }
}

/// The pending events, soonest first.
#[verifier::ext_equal]
pub struct QueueView {
    pub slots: Seq<SlotView>,
    pub next_seq: u64,
}

/// How many of these slots are due at `tick` or before.
pub open spec fn due(slots: Seq<SlotView>, tick: u64) -> nat
    decreases slots.len(),
{
    if slots.len() == 0 {
        0
    } else if slots[0].tick <= tick {
        1 + due(slots.skip(1), tick)
    } else {
        0
    }
}

/// The first `n` slots, less the faults among them.
pub open spec fn without_faults(slots: Seq<SlotView>, n: int) -> Seq<SlotView>
    decreases n,
{
    if n <= 0 {
        Seq::empty()
    } else if slots[n - 1].event is Fault {
        without_faults(slots, n - 1)
    } else {
        without_faults(slots, n - 1).push(slots[n - 1])
    }
}

impl QueueView {
    /// Less the faults that have not happened yet.
    pub open spec fn without_faults(self) -> QueueView {
        QueueView { slots: without_faults(self.slots, self.slots.len() as int), ..self }
    }

    pub open spec fn empty() -> QueueView {
        QueueView { slots: Seq::empty(), next_seq: 0 }
    }

    /// A new event goes behind everything already scheduled for its tick.
    pub open spec fn push(self, tick: u64, event: EventView) -> QueueView {
        QueueView {
            slots: self.slots.insert(
                due(self.slots, tick) as int,
                SlotView { tick, seq: self.next_seq, event },
            ),
            next_seq: self.next_seq.saturating_add(1),
        }
    }

    pub open spec fn rest(self) -> QueueView {
        QueueView { slots: self.slots.skip(1), ..self }
    }

    pub open spec fn next_tick(self) -> Option<u64> {
        if self.slots.len() == 0 {
            None
        } else {
            Some(self.slots[0].tick)
        }
    }

    /// Slots are ordered by tick, then by sequence number, and every sequence
    /// number was handed out before `next_seq`.
    pub open spec fn ordered(self) -> bool {
        &&& forall|i: int, j: int|
            0 <= i < j < self.slots.len() ==> comes_before(
                #[trigger] self.slots[i],
                #[trigger] self.slots[j],
            )
        &&& forall|i: int| 0 <= i < self.slots.len() ==> (#[trigger] self.slots[i]).seq < self.next_seq
    }
}

/// The total order of processing.
pub open spec fn comes_before(a: SlotView, b: SlotView) -> bool {
    a.tick < b.tick || (a.tick == b.tick && a.seq < b.seq)
}

/// Exactly those that are due come first.
pub(crate) proof fn lemma_due(slots: Seq<SlotView>, tick: u64)
    ensures
        due(slots, tick) <= slots.len(),
        forall|i: int| 0 <= i < due(slots, tick) ==> (#[trigger] slots[i]).tick <= tick,
        due(slots, tick) < slots.len() ==> slots[due(slots, tick) as int].tick > tick,
    decreases slots.len(),
{
    if slots.len() > 0 && slots[0].tick <= tick {
        let rest = slots.skip(1);
        lemma_due(rest, tick);
        assert forall|i: int| 0 <= i < due(slots, tick) implies (#[trigger] slots[i]).tick
            <= tick by {
            if i > 0 {
                assert(slots[i] == rest[i - 1]);
            }
        }
        if due(slots, tick) < slots.len() {
            assert(slots[due(slots, tick) as int] == rest[due(rest, tick) as int]);
        }
    }
}

proof fn lemma_without_faults(slots: Seq<SlotView>, n: int, next_seq: u64)
    requires
        0 <= n <= slots.len(),
    ensures
        ({
            let kept = without_faults(slots, n);
            &&& forall|s: SlotView| #[trigger]
                kept.contains(s) <==> slots.take(n).contains(s) && !(s.event is Fault)
            &&& QueueView { slots: slots.take(n), next_seq }.ordered() ==> QueueView {
                slots: kept,
                next_seq,
            }.ordered()
        }),
    decreases n,
{
    if n > 0 {
        lemma_without_faults(slots, n - 1, next_seq);
        let before = without_faults(slots, n - 1);
        let kept = without_faults(slots, n);
        let all = slots.take(n);
        let fewer = slots.take(n - 1);
        assert forall|s: SlotView| #[trigger] all.contains(s) <==> fewer.contains(s) || s
            == slots[n - 1] by {
            if all.contains(s) {
                let k = choose|k: int| 0 <= k < n && all[k] == s;
                if k < n - 1 {
                    assert(fewer[k] == s);
                }
            }
            if fewer.contains(s) {
                let k = choose|k: int| 0 <= k < n - 1 && fewer[k] == s;
                assert(all[k] == s);
            }
            assert(all[n - 1] == slots[n - 1]);
        }
        if !(slots[n - 1].event is Fault) {
            assert forall|s: SlotView| #[trigger] kept.contains(s) <==> before.contains(s) || s
                == slots[n - 1] by {
                if kept.contains(s) {
                    let k = choose|k: int| 0 <= k < kept.len() && kept[k] == s;
                    if k < before.len() {
                        assert(before[k] == s);
                    }
                }
                if before.contains(s) {
                    let k = choose|k: int| 0 <= k < before.len() && before[k] == s;
                    assert(kept[k] == s);
                }
                assert(kept[before.len() as int] == slots[n - 1]);
            }
        }
        let q = QueueView { slots: all, next_seq };
        if q.ordered() {
            let r = QueueView { slots: fewer, next_seq };
            assert(r.ordered()) by {
                assert forall|i: int, j: int| 0 <= i < j < r.slots.len() implies comes_before(
                    #[trigger] r.slots[i],
                    #[trigger] r.slots[j],
                ) by {
                    assert(comes_before(all[i], all[j]));
                }
                assert forall|i: int| 0 <= i < r.slots.len() implies (#[trigger] r.slots[i]).seq
                    < next_seq by {
                    assert(all[i].seq < next_seq);
                }
            }
            let b = QueueView { slots: before, next_seq };
            assert(b.ordered());
            assert(all[n - 1].seq < next_seq);
            assert forall|i: int| 0 <= i < kept.len() implies (#[trigger] kept[i]).seq
                < next_seq by {
                if i < before.len() {
                    assert(b.slots[i].seq < next_seq);
                }
            }
            if !(slots[n - 1].event is Fault) {
                assert forall|i: int, j: int| 0 <= i < j < kept.len() implies comes_before(
                    #[trigger] kept[i],
                    #[trigger] kept[j],
                ) by {
                    if j == before.len() {
                        assert(before.contains(before[i]));
                        assert(fewer.contains(kept[i]));
                        let k = choose|k: int| 0 <= k < n - 1 && fewer[k] == kept[i];
                        assert(comes_before(all[k], all[n - 1]));
                    } else {
                        assert(comes_before(before[i], before[j]));
                    }
                }
            }
        }
    }
}

/// Dropping the faults that have not happened yet drops nothing else: every
/// other event stays, in the same order, and no fault is left.
pub proof fn law_dropping_faults_keeps_the_rest(q: QueueView)
    ensures
        forall|s: SlotView| #[trigger]
            q.without_faults().slots.contains(s) <==> q.slots.contains(s) && !(s.event is Fault),
        q.ordered() ==> q.without_faults().ordered(),
{
    lemma_without_faults(q.slots, q.slots.len() as int, q.next_seq);
    assert(q.slots.take(q.slots.len() as int) =~= q.slots);
}

/// The order is total and survives both operations: whatever is pushed, events
/// come out by tick and then in the order they were scheduled.
pub proof fn law_the_queue_stays_ordered(q: QueueView, tick: u64, event: EventView)
    requires
        q.ordered(),
        q.next_seq < u64::MAX,
    ensures
        q.push(tick, event).ordered(),
        q.slots.len() > 0 ==> q.rest().ordered(),
        q.push(tick, event).slots.len() == q.slots.len() + 1,
{
    let p = due(q.slots, tick) as int;
    lemma_due(q.slots, tick);
    let new = SlotView { tick, seq: q.next_seq, event };
    let after = q.push(tick, event);
    assert forall|i: int, j: int| 0 <= i < j < after.slots.len() implies comes_before(
        #[trigger] after.slots[i],
        #[trigger] after.slots[j],
    ) by {
        if j == p {
            assert(after.slots[i] == q.slots[i]);
            assert(q.slots[i].tick <= tick);
        } else if i == p {
            assert(after.slots[j] == q.slots[j - 1]);
            if j - 1 > p {
                assert(comes_before(q.slots[p], q.slots[j - 1]));
            }
        } else {
            let a = if i < p {
                i
            } else {
                i - 1
            };
            let b = if j < p {
                j
            } else {
                j - 1
            };
            assert(after.slots[i] == q.slots[a]);
            assert(after.slots[j] == q.slots[b]);
        }
    }
    assert forall|i: int| 0 <= i < after.slots.len() implies (#[trigger] after.slots[i]).seq
        < after.next_seq by {
        if i < p {
            assert(after.slots[i] == q.slots[i]);
        } else if i > p {
            assert(after.slots[i] == q.slots[i - 1]);
        }
    }
    if q.slots.len() > 0 {
        let rest = q.rest();
        assert forall|i: int, j: int| 0 <= i < j < rest.slots.len() implies comes_before(
            #[trigger] rest.slots[i],
            #[trigger] rest.slots[j],
        ) by {
            assert(rest.slots[i] == q.slots[i + 1]);
            assert(rest.slots[j] == q.slots[j + 1]);
        }
        assert forall|i: int| 0 <= i < rest.slots.len() implies (#[trigger] rest.slots[i]).seq
            < rest.next_seq by {
            assert(rest.slots[i] == q.slots[i + 1]);
        }
    }
}

/// The events still to be processed.
#[derive(Debug)]
pub struct EventQueue {
    /// Latest first, so that the next one is at the end.
    slots: Vec<Scheduled>,
    next_seq: u64,
}

/// Slots in processing order, given latest first.
spec fn soonest_first(slots: Seq<Scheduled>) -> Seq<SlotView> {
    Seq::new(slots.len(), |i: int| slots[slots.len() - 1 - i]@)
}

impl View for EventQueue {
    type V = QueueView;

    closed spec fn view(&self) -> QueueView {
        QueueView { slots: soonest_first(self.slots@), next_seq: self.next_seq }
    }
}

impl Default for EventQueue {
    fn default() -> (r: Self)
        ensures
            r@ == QueueView::empty(),
    {
        EventQueue::new()
    }
}

impl Clone for EventQueue {
    fn clone(&self) -> (r: Self)
        ensures
            r@ == self@,
    {
        let mut slots: Vec<Scheduled> = Vec::new();
        let mut i: usize = 0;
        while i < self.slots.len()
            invariant
                i <= self.slots@.len(),
                slots@.len() == i,
                forall|k: int| 0 <= k < i ==> (#[trigger] slots@[k])@ == self.slots@[k]@,
            decreases self.slots@.len() - i,
        {
            slots.push(self.slots[i].clone());
            i = i + 1;
        }
        let r = EventQueue { slots, next_seq: self.next_seq };
        assert(r@.slots =~= self@.slots);
        r
    }
}

impl EventQueue {
    pub fn new() -> (r: Self)
        ensures
            r@ == QueueView::empty(),
    {
        let r = EventQueue { slots: Vec::new(), next_seq: 0 };
        assert(r@.slots =~= Seq::empty());
        r
    }

    /// Schedule `event` at `tick`. Returns the sequence number assigned.
    pub fn push(&mut self, tick: Tick, event: Event) -> (r: u64)
        ensures
            final(self)@ == old(self)@.push(tick, event@),
            r == old(self)@.next_seq,
    {
        let seq: u64 = self.next_seq;
        self.next_seq = self.next_seq.saturating_add(1);
        let n: usize = self.slots.len();
        let mut at: usize = n;
        let ghost all = self@.slots;
        assert(all.skip(0) =~= all);
        while at > 0 && self.slots[at - 1].tick <= tick
            invariant
                at <= n == self.slots@.len(),
                all == soonest_first(self.slots@),
                due(all, tick) == (n - at) + due(all.skip(n - at), tick),
            decreases at,
        {
            proof {
                let here = all.skip(n - at);
                assert(here[0] == self.slots@[at - 1]@);
                assert(here.skip(1) =~= all.skip(n - at + 1));
            }
            at = at - 1;
        }
        proof {
            let here = all.skip(n - at);
            if at > 0 {
                assert(here[0] == self.slots@[at - 1]@);
            }
            assert(due(here, tick) == 0);
        }
        let ghost before = self.slots@;
        self.slots.insert(at, Scheduled { tick, seq, event });
        proof {
            let new = SlotView { tick, seq, event: event@ };
            let p = n - at;
            assert(p == due(all, tick));
            let want = all.insert(p, new);
            let got = soonest_first(self.slots@);
            assert(got.len() == want.len());
            assert forall|i: int| 0 <= i < want.len() implies got[i] == want[i] by {
                let k = n - i;
                if i < p {
                    assert(self.slots@[k] == before[k - 1]);
                } else if i > p {
                    assert(self.slots@[k] == before[k]);
                }
            }
            assert(got =~= want);
        }
        seq
    }

    /// The next event to process, and the time it happens.
    pub fn pop_next(&mut self) -> (r: Option<Scheduled>)
        ensures
            old(self)@.slots.len() == 0 ==> r is None && final(self)@ == old(self)@,
            old(self)@.slots.len() > 0 ==> {
                &&& r is Some
                &&& r->0@ == old(self)@.slots[0]
                &&& final(self)@ == old(self)@.rest()
            },
    {
        let ghost before = self.slots@;
        let r = self.slots.pop();
        proof {
            if before.len() > 0 {
                assert(soonest_first(self.slots@) =~= soonest_first(before).skip(1));
            } else {
                assert(soonest_first(self.slots@) =~= soonest_first(before));
            }
        }
        r
    }

    pub fn next_tick(&self) -> (r: Option<Tick>)
        ensures
            r == self@.next_tick(),
    {
        let n: usize = self.slots.len();
        if n == 0 {
            None
        } else {
            Some(self.slots[n - 1].tick)
        }
    }

    pub fn len(&self) -> (r: usize)
        ensures
            r == self@.slots.len(),
    {
        self.slots.len()
    }

    pub fn is_empty(&self) -> (r: bool)
        ensures
            r == (self@.slots.len() == 0),
    {
        self.slots.len() == 0
    }

    /// Forget the faults that have not happened yet.
    pub fn drop_faults(&mut self)
        ensures
            final(self)@ == old(self)@.without_faults(),
    {
        let n: usize = self.slots.len();
        let ghost all = self@.slots;
        let mut i: usize = n;
        assert(all =~= without_faults(all, 0) + all.skip(0));
        while i > 0
            invariant
                i <= n == all.len(),
                i <= self.slots@.len(),
                self.next_seq == old(self).next_seq,
                soonest_first(self.slots@) == without_faults(all, n - i) + all.skip(n - i),
                without_faults(all, n - i).len() == self.slots@.len() - i,
            decreases i,
        {
            let ghost k = n - i;
            let ghost before = self.slots@;
            let ghost kept = without_faults(all, k);
            assert(soonest_first(before)[kept.len() as int] == all[k]);
            assert(soonest_first(before)[kept.len() as int] == before[i - 1]@);
            let is_fault = match &self.slots[i - 1].event {
                Event::Fault { fault: _ } => true,
                _ => false,
            };
            if is_fault {
                let _ = self.slots.remove(i - 1);
                assert(without_faults(all, k + 1) == kept);
                assert forall|j: int| 0 <= j < self.slots@.len() implies soonest_first(
                    self.slots@,
                )[j] == (kept + all.skip(k + 1))[j] by {
                    if j < kept.len() {
                        assert(soonest_first(self.slots@)[j] == soonest_first(before)[j]);
                    } else {
                        assert(soonest_first(self.slots@)[j] == soonest_first(before)[j + 1]);
                    }
                }
                assert(soonest_first(self.slots@) =~= kept + all.skip(k + 1));
            } else {
                assert(without_faults(all, k + 1) == kept.push(all[k]));
                assert(kept.push(all[k]) + all.skip(k + 1) =~= kept + all.skip(k));
            }
            i = i - 1;
        }
        assert(all.skip(n as int) =~= Seq::empty());
        assert(self@.slots =~= without_faults(all, n as int));
    }

    /// Pending events in processing order. For the timeline view.
    pub fn iter(&self) -> (r: Vec<&Scheduled>)
        ensures
            r@.len() == self@.slots.len(),
            forall|i: int| 0 <= i < r@.len() ==> (#[trigger] r@[i])@ == self@.slots[i],
    {
        let mut r: Vec<&Scheduled> = Vec::new();
        let n: usize = self.slots.len();
        let mut i: usize = 0;
        while i < n
            invariant
                i <= n == self.slots@.len(),
                r@.len() == i,
                forall|k: int| 0 <= k < i ==> (#[trigger] r@[k])@ == self@.slots[k],
            decreases n - i,
        {
            r.push(&self.slots[n - 1 - i]);
            i = i + 1;
        }
        r
    }
}

} // verus!
