//! The event queue.
use raft_sim::event::{Event, EventQueue};
use raft_sim::NodeId;

fn timer(node: NodeId) -> Event {
    Event::Timer { node }
}

#[test]
fn pops_in_tick_then_sequence_order() {
    let mut q = EventQueue::new();
    q.push(10, timer(2));
    q.push(5, timer(0));
    q.push(10, timer(1));
    let order: Vec<Event> = std::iter::from_fn(|| q.pop_next().map(|s| s.event)).collect();
    assert_eq!(order, vec![timer(0), timer(2), timer(1)]);
}

#[test]
fn same_tick_same_node_keeps_both_events() {
    let mut q = EventQueue::new();
    q.push(1, timer(0));
    q.push(1, timer(0));
    assert_eq!(
        q.len(),
        2,
        "sequence numbers must keep identical events distinct"
    );
}
