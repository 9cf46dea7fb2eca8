//! Partitions and the schedules that drive them.
//!
//! Reachability is modelled as a set of *directed* links that are down, not as
//! a set of groups. That buys the asymmetric case: A cannot reach B, but B can
//! still reach A.
use crate::rand::Rng;
use crate::text::{push_decimal, push_id_array};
use crate::{NodeId, Tick};
use std::collections::BTreeSet;
use vstd::prelude::*;

verus! {

broadcast use {vstd::laws_cmp::group_laws_cmp, vstd::std_specs::btree::group_btree_axioms};

/// Something the simulator does to the cluster at a point in time.
#[derive(Debug, PartialEq, Eq)]
pub enum Fault {
    /// Split the cluster in two. Neither side can reach the other.
    Partition { a: Vec<NodeId>, b: Vec<NodeId> },
    /// One-way cut: `from` can no longer reach `to`, but `to` still reaches
    /// `from`.
    AsymmetricCut { from: NodeId, to: NodeId },
    /// Cut a single node off in both directions.
    Isolate { node: NodeId },
    /// Restore full connectivity.
    Heal,
    /// Kill a node. Everything volatile is lost; only what reached the disk
    /// survives. Messages sent to it while down are discarded.
    Crash { node: NodeId },
    /// Bring a crashed node back, rebuilt from its durable state alone.
    Restart { node: NodeId },
    /// Freeze a node for `ticks`, then let it resume with stale state. Messages
    /// that arrive while it is frozen are held and delivered on resume.
    Pause { node: NodeId, ticks: Tick },
}

pub enum FaultView {
    Partition { a: Seq<u32>, b: Seq<u32> },
    AsymmetricCut { from: u32, to: u32 },
    Isolate { node: u32 },
    Heal,
    Crash { node: u32 },
    Restart { node: u32 },
    Pause { node: u32, ticks: u64 },
}

impl View for Fault {
    type V = FaultView;

    open spec fn view(&self) -> FaultView {
        match *self {
            Fault::Partition { a, b } => FaultView::Partition { a: a@, b: b@ },
            Fault::AsymmetricCut { from, to } => FaultView::AsymmetricCut { from, to },
            Fault::Isolate { node } => FaultView::Isolate { node },
            Fault::Heal => FaultView::Heal,
            Fault::Crash { node } => FaultView::Crash { node },
            Fault::Restart { node } => FaultView::Restart { node },
            Fault::Pause { node, ticks } => FaultView::Pause { node, ticks },
        }
    }
}

/// A copy of a list of ids.
pub(crate) fn copy_ids(ids: &[NodeId]) -> (r: Vec<NodeId>)
    ensures
        r@ == ids@,
{
    let mut r: Vec<NodeId> = Vec::new();
    r.extend_from_slice(ids);
    assert(r@ =~= ids@);
    r
}

impl Clone for Fault {
    fn clone(&self) -> (r: Self)
        ensures
            r@ == self@,
    {
        match self {
            Fault::Partition { a, b } => Fault::Partition {
                a: copy_ids(a.as_slice()),
                b: copy_ids(b.as_slice()),
            },
            Fault::AsymmetricCut { from, to } => Fault::AsymmetricCut { from: *from, to: *to },
            Fault::Isolate { node } => Fault::Isolate { node: *node },
            Fault::Heal => Fault::Heal,
            Fault::Crash { node } => Fault::Crash { node: *node },
            Fault::Restart { node } => Fault::Restart { node: *node },
            Fault::Pause { node, ticks } => Fault::Pause { node: *node, ticks: *ticks },
        }
    }
}

impl FaultView {
    pub open spec fn label(self) -> Seq<char> {
        match self {
            FaultView::Partition { a, b } => "partition"@,
            FaultView::AsymmetricCut { from, to } => "asymmetric cut"@,
            FaultView::Isolate { node } => "isolate"@,
            FaultView::Heal => "heal"@,
            FaultView::Crash { node } => "crash"@,
            FaultView::Restart { node } => "restart"@,
            FaultView::Pause { node, ticks } => "pause"@,
        }
    }

    pub open spec fn is_network_fault(self) -> bool {
        self is Partition || self is AsymmetricCut || self is Isolate || self is Heal
    }

    /// In words; a one-way cut as `arrow` puts it.
    pub open spec fn in_words(self, arrow: Seq<char>, after: Seq<char>) -> Seq<char> {
        let none = Seq::<char>::empty();
        match self {
            FaultView::Partition { a, b } => none + "partition "@ + crate::text::id_array(a)
                + " | "@ + crate::text::id_array(b),
            FaultView::AsymmetricCut { from, to } => none + "cut "@ + crate::text::decimal(
                from as nat,
            ) + arrow + crate::text::decimal(to as nat) + after,
            FaultView::Isolate { node } => none + "isolate "@ + crate::text::decimal(node as nat),
            FaultView::Heal => none + "heal"@,
            FaultView::Crash { node } => none + "crash "@ + crate::text::decimal(node as nat),
            FaultView::Restart { node } => none + "restart "@ + crate::text::decimal(node as nat),
            FaultView::Pause { node, ticks } => none + "pause "@ + crate::text::decimal(node as nat)
                + " for "@ + crate::text::decimal(ticks as nat),
        }
    }

    /// For the timeline.
    pub open spec fn description(self) -> Seq<char> {
        self.in_words(" to "@, Seq::empty())
    }
}

impl Fault {
    pub fn label(&self) -> (r: &'static str)
        ensures
            r@ == self@.label(),
    {
        match self {
            Fault::Partition { a: _, b: _ } => "partition",
            Fault::AsymmetricCut { from: _, to: _ } => "asymmetric cut",
            Fault::Isolate { node: _ } => "isolate",
            Fault::Heal => "heal",
            Fault::Crash { node: _ } => "crash",
            Fault::Restart { node: _ } => "restart",
            Fault::Pause { node: _, ticks: _ } => "pause",
        }
    }

    /// Does this fault disturb the network's link state? Crash, restart and
    /// pause are node-level and leave links alone.
    pub fn is_network_fault(&self) -> (r: bool)
        ensures
            r == self@.is_network_fault(),
    {
        match self {
            Fault::Partition { a: _, b: _ } => true,
            Fault::AsymmetricCut { from: _, to: _ } => true,
            Fault::Isolate { node: _ } => true,
            Fault::Heal => true,
            _ => false,
        }
    }

    /// In words; a one-way cut as `arrow` and `after` put it.
    pub(crate) fn in_words(&self, arrow: &str, after: &str) -> (r: String)
        ensures
            r@ == self@.in_words(arrow@, after@),
    {
        let mut r = String::new();
        match self {
            Fault::Partition { a, b } => {
                r.append("partition ");
                push_id_array(&mut r, a.as_slice());
                r.append(" | ");
                push_id_array(&mut r, b.as_slice());
            },
            Fault::AsymmetricCut { from, to } => {
                r.append("cut ");
                push_decimal(&mut r, *from as u64);
                r.append(arrow);
                push_decimal(&mut r, *to as u64);
                r.append(after);
            },
            Fault::Isolate { node } => {
                r.append("isolate ");
                push_decimal(&mut r, *node as u64);
            },
            Fault::Heal => {
                r.append("heal");
            },
            Fault::Crash { node } => {
                r.append("crash ");
                push_decimal(&mut r, *node as u64);
            },
            Fault::Restart { node } => {
                r.append("restart ");
                push_decimal(&mut r, *node as u64);
            },
            Fault::Pause { node, ticks } => {
                r.append("pause ");
                push_decimal(&mut r, *node as u64);
                r.append(" for ");
                push_decimal(&mut r, *ticks);
            },
        }
        r
    }

    /// A short description of a fault, for the timeline.
    pub fn description(&self) -> (r: String)
        ensures
            r@ == self@.description(),
    {
        proof {
            reveal_strlit("");
            assert(""@ =~= Seq::<char>::empty());
        }
        self.in_words(" to ", "")
    }
}

// ---------------------------------------------------------------------------
// Links
// ---------------------------------------------------------------------------

/// Can `from` deliver to `to`, with these links down?
pub open spec fn can_reach(blocked: Set<(u32, u32)>, from: u32, to: u32) -> bool {
    from == to || !blocked.contains((from, to))
}

/// Both directions between two groups.
pub open spec fn between(a: Seq<u32>, b: Seq<u32>) -> Set<(u32, u32)> {
    Set::new(
        |link: (u32, u32)|
            (a.contains(link.0) && b.contains(link.1)) || (b.contains(link.0) && a.contains(link.1)),
    )
}

/// Both directions between `node` and every other one of `all`.
pub open spec fn around(node: u32, all: Seq<u32>) -> Set<(u32, u32)> {
    Set::new(
        |link: (u32, u32)|
            link.0 != link.1 && ((link.0 == node && all.contains(link.1)) || (link.1 == node
                && all.contains(link.0))),
    )
}

/// The links that are down after a fault.
pub open spec fn links_after(
    blocked: Set<(u32, u32)>,
    fault: FaultView,
    all: Seq<u32>,
) -> Set<(u32, u32)> {
    match fault {
        FaultView::Partition { a, b } => blocked.union(between(a, b)),
        FaultView::AsymmetricCut { from, to } => if from != to {
            blocked.insert((from, to))
        } else {
            blocked
        },
        FaultView::Isolate { node } => blocked.union(around(node, all)),
        FaultView::Heal => Set::empty(),
        _ => blocked,
    }
}

/// A one-way cut leaves the other direction alone; a split blocks both; healing
/// restores everything; and a node can always reach itself.
pub proof fn law_link_faults(
    blocked: Set<(u32, u32)>,
    fault: FaultView,
    all: Seq<u32>,
    x: u32,
    y: u32,
)
    ensures
        can_reach(links_after(blocked, fault, all), x, x),
        fault is Heal ==> can_reach(links_after(blocked, fault, all), x, y),
        !fault.is_network_fault() ==> links_after(blocked, fault, all) == blocked,
        fault == (FaultView::AsymmetricCut { from: x, to: y }) && x != y ==> !can_reach(
            links_after(blocked, fault, all),
            x,
            y,
        ) && can_reach(links_after(blocked, fault, all), y, x) == can_reach(blocked, y, x),
        fault matches FaultView::Partition { a, b } ==> x != y && a.contains(x) && b.contains(y)
            ==> !can_reach(links_after(blocked, fault, all), x, y) && !can_reach(
            links_after(blocked, fault, all),
            y,
            x,
        ),
        fault == (FaultView::Isolate { node: x }) && x != y && all.contains(y) ==> !can_reach(
            links_after(blocked, fault, all),
            x,
            y,
        ) && !can_reach(links_after(blocked, fault, all), y, x),
{
}

/// Which directed links are down.
#[derive(Debug, PartialEq, Eq)]
pub struct Partitions {
    blocked: BTreeSet<(NodeId, NodeId)>,
}

impl View for Partitions {
    type V = Set<(u32, u32)>;

    closed spec fn view(&self) -> Set<(u32, u32)> {
        self.blocked@
    }
}

impl Clone for Partitions {
    fn clone(&self) -> (r: Self)
        ensures
            r@ == self@,
    {
        Partitions { blocked: self.blocked.clone() }
    }
}

impl Default for Partitions {
    fn default() -> (r: Self)
        ensures
            r@ == Set::<(u32, u32)>::empty(),
    {
        Partitions { blocked: BTreeSet::new() }
    }
}

impl Partitions {
    pub fn new() -> (r: Self)
        ensures
            r@ == Set::<(u32, u32)>::empty(),
    {
        Partitions { blocked: BTreeSet::new() }
    }

    /// Can `from` deliver to `to`? A node can always reach itself.
    pub fn reachable(&self, from: NodeId, to: NodeId) -> (r: bool)
        ensures
            r == can_reach(self@, from, to),
    {
        from == to || !self.blocked.contains(&(from, to))
    }

    pub fn is_healed(&self) -> (r: bool)
        ensures
            r == (self@ == Set::<(u32, u32)>::empty()),
    {
        self.blocked.is_empty()
    }

    pub fn blocked_links(&self) -> (r: &BTreeSet<(NodeId, NodeId)>)
        ensures
            r@ == self@,
    {
        &self.blocked
    }

    pub fn heal(&mut self)
        ensures
            final(self)@ == Set::<(u32, u32)>::empty(),
    {
        self.blocked.clear();
    }

    /// Block traffic in both directions between the two groups.
    pub fn split(&mut self, a: &[NodeId], b: &[NodeId])
        ensures
            final(self)@ == old(self)@.union(between(a@, b@)),
    {
        let ghost start = self@;
        let mut i: usize = 0;
        while i < a.len()
            invariant
                i <= a@.len(),
                forall|link: (u32, u32)| #[trigger]
                    self@.contains(link) <==> start.contains(link) || linked(a@, b@, i as int, link),
            decreases a@.len() - i,
        {
            let ghost row = self@;
            let mut j: usize = 0;
            while j < b.len()
                invariant
                    i < a@.len(),
                    j <= b@.len(),
                    forall|link: (u32, u32)| #[trigger]
                        self@.contains(link) <==> row.contains(link) || linked_to(
                            a@[i as int],
                            b@,
                            j as int,
                            link,
                        ),
                decreases b@.len() - j,
            {
                let ghost before = self@;
                self.blocked.insert((a[i], b[j]));
                self.blocked.insert((b[j], a[i]));
                proof {
                    assert forall|link: (u32, u32)| #[trigger]
                        self@.contains(link) <==> row.contains(link) || linked_to(
                            a@[i as int],
                            b@,
                            j + 1,
                            link,
                        ) by {
                        lemma_linked_to_step(a@[i as int], b@, j as int, link);
                        assert(self@.contains(link) <==> before.contains(link) || link == (
                            a@[i as int],
                            b@[j as int],
                        ) || link == (b@[j as int], a@[i as int]));
                    }
                }
                j = j + 1;
            }
            proof {
                assert forall|link: (u32, u32)| #[trigger]
                    self@.contains(link) <==> start.contains(link) || linked(
                        a@,
                        b@,
                        i + 1,
                        link,
                    ) by {
                    lemma_linked_step(a@, b@, i as int, link);
                }
            }
            i = i + 1;
        }
        proof {
            assert forall|link: (u32, u32)| linked(a@, b@, a@.len() as int, link) <==> between(
                a@,
                b@,
            ).contains(link) by {
                lemma_linked_is_between(a@, b@, link);
            }
            assert(self@ =~= start.union(between(a@, b@)));
        }
    }

    /// Block one direction only.
    pub fn cut(&mut self, from: NodeId, to: NodeId)
        ensures
            final(self)@ == (if from != to {
                old(self)@.insert((from, to))
            } else {
                old(self)@
            }),
    {
        if from != to {
            self.blocked.insert((from, to));
        }
    }

    pub fn isolate(&mut self, node: NodeId, all: &[NodeId])
        ensures
            final(self)@ == old(self)@.union(around(node, all@)),
    {
        let ghost start = self@;
        let mut i: usize = 0;
        while i < all.len()
            invariant
                i <= all@.len(),
                forall|link: (u32, u32)| #[trigger]
                    self@.contains(link) <==> start.contains(link) || (exists|k: int|
                        0 <= k < i && #[trigger] all@[k] != node && (link == (node, all@[k]) || link
                            == (all@[k], node))),
            decreases all@.len() - i,
        {
            let other: NodeId = all[i];
            let ghost before = self@;
            if other != node {
                self.blocked.insert((node, other));
                self.blocked.insert((other, node));
            }
            proof {
                assert forall|link: (u32, u32)| #[trigger]
                    self@.contains(link) <==> start.contains(link) || (exists|k: int|
                        0 <= k < i + 1 && #[trigger] all@[k] != node && (link == (node, all@[k])
                            || link == (all@[k], node))) by {
                    if self@.contains(link) && !before.contains(link) {
                        assert(all@[i as int] != node);
                    }
                }
            }
            i = i + 1;
        }
        proof {
            assert forall|link: (u32, u32)| (exists|k: int|
                0 <= k < all@.len() && #[trigger] all@[k] != node && (link == (node, all@[k])
                    || link == (all@[k], node))) <==> around(node, all@).contains(link) by {
                if around(node, all@).contains(link) {
                    if link.0 == node && all@.contains(link.1) {
                        let k = choose|k: int| 0 <= k < all@.len() && all@[k] == link.1;
                        assert(all@[k] != node);
                    } else {
                        let k = choose|k: int| 0 <= k < all@.len() && all@[k] == link.0;
                        assert(all@[k] != node);
                    }
                }
            }
            assert(self@ =~= start.union(around(node, all@)));
        }
    }

    pub fn apply(&mut self, fault: &Fault, all: &[NodeId])
        ensures
            final(self)@ == links_after(old(self)@, fault@, all@),
    {
        match fault {
            Fault::Partition { a, b } => self.split(a.as_slice(), b.as_slice()),
            Fault::AsymmetricCut { from, to } => self.cut(*from, *to),
            Fault::Isolate { node } => self.isolate(*node, all),
            Fault::Heal => self.heal(),
            // Node-level faults; the links are untouched.
            Fault::Crash { node: _ } => {},
            Fault::Restart { node: _ } => {},
            Fault::Pause { node: _, ticks: _ } => {},
        }
    }
}

spec fn linked_to(x: u32, b: Seq<u32>, n: int, link: (u32, u32)) -> bool {
    exists|j: int| 0 <= j < n && (link == (x, #[trigger] b[j]) || link == (b[j], x))
}

spec fn linked(a: Seq<u32>, b: Seq<u32>, n: int, link: (u32, u32)) -> bool {
    exists|i: int| 0 <= i < n && linked_to(#[trigger] a[i], b, b.len() as int, link)
}

proof fn lemma_linked_to_step(x: u32, b: Seq<u32>, n: int, link: (u32, u32))
    requires
        0 <= n < b.len(),
    ensures
        linked_to(x, b, n + 1, link) <==> linked_to(x, b, n, link) || link == (x, b[n]) || link == (
            b[n],
            x,
        ),
{
    if linked_to(x, b, n + 1, link) {
        let j = choose|j: int| 0 <= j < n + 1 && (link == (x, #[trigger] b[j]) || link == (b[j], x));
    }
    if link == (x, b[n]) || link == (b[n], x) {
        assert(0 <= n < n + 1 && (link == (x, b[n]) || link == (b[n], x)));
    }
    if linked_to(x, b, n, link) {
        let j = choose|j: int| 0 <= j < n && (link == (x, #[trigger] b[j]) || link == (b[j], x));
        assert(0 <= j < n + 1);
    }
}

proof fn lemma_linked_step(a: Seq<u32>, b: Seq<u32>, n: int, link: (u32, u32))
    requires
        0 <= n < a.len(),
    ensures
        linked(a, b, n + 1, link) <==> linked(a, b, n, link) || linked_to(
            a[n],
            b,
            b.len() as int,
            link,
        ),
{
    if linked(a, b, n, link) {
        let i = choose|i: int| 0 <= i < n && linked_to(#[trigger] a[i], b, b.len() as int, link);
        assert(0 <= i < n + 1 && linked_to(a[i], b, b.len() as int, link));
    }
    if linked_to(a[n], b, b.len() as int, link) {
        assert(0 <= n < n + 1 && linked_to(a[n], b, b.len() as int, link));
    }
}

proof fn lemma_linked_is_between(a: Seq<u32>, b: Seq<u32>, link: (u32, u32))
    ensures
        linked(a, b, a.len() as int, link) <==> between(a, b).contains(link),
{
    if between(a, b).contains(link) {
        let (x, y) = if a.contains(link.0) && b.contains(link.1) {
            (link.0, link.1)
        } else {
            (link.1, link.0)
        };
        let i = choose|i: int| 0 <= i < a.len() && a[i] == x;
        let j = choose|j: int| 0 <= j < b.len() && b[j] == y;
        assert(link == (a[i], b[j]) || link == (b[j], a[i]));
        assert(linked_to(a[i], b, b.len() as int, link));
    }
}

// ---------------------------------------------------------------------------
// Schedules
// ---------------------------------------------------------------------------

/// A span drawn from `[min, max)`, or `min` where that is empty.
pub open spec fn sampled(min: u64, max: u64, state: u64) -> u64 {
    if max > min {
        crate::rand::in_range(state, min, max)
    } else {
        min
    }
}

/// The generator's state after a span was drawn.
pub open spec fn after_sample(min: u64, max: u64, state: u64) -> u64 {
    if max > min {
        crate::rand::advanced(state)
    } else {
        state
    }
}

pub(crate) fn sample(min: Tick, max: Tick, rng: &mut Rng) -> (r: Tick)
    ensures
        r == sampled(min, max, old(rng)@),
        final(rng)@ == after_sample(min, max, old(rng)@),
{
    if max > min {
        rng.gen_range(min, max)
    } else {
        min
    }
}

/// Disk behaviour.
///
/// What is modelled is the torn step: some prefix of a step's writes reaches
/// the disk, then the process dies before any message goes out. Silent write
/// loss is deliberately not modelled: Raft assumes that an acknowledged write
/// is durable.
#[derive(Clone, Copy, Debug, PartialEq, Eq, Structural)]
pub struct DiskConfig {
    /// Chance per mille that a step which writes to disk is torn.
    pub torn_step_permille: u32,
    /// How long before a torn node is restarted, sampled uniformly.
    pub restart_min: Tick,
    pub restart_max: Tick,
}

impl Default for DiskConfig {
    fn default() -> (r: Self)
        ensures
            r == DiskConfig::reliable(),
    {
        DiskConfig::reliable()
    }
}

impl DiskConfig {
    #[verifier::allow_in_spec]
    pub fn reliable() -> (r: Self)
        returns
            (DiskConfig { torn_step_permille: 0, restart_min: 300, restart_max: 1_500 }),
    {
        DiskConfig { torn_step_permille: 0, restart_min: 300, restart_max: 1_500 }
    }

    #[verifier::allow_in_spec]
    pub fn flaky() -> (r: Self)
        returns
            (DiskConfig { torn_step_permille: 5, restart_min: 300, restart_max: 1_500 }),
    {
        DiskConfig { torn_step_permille: 5, restart_min: 300, restart_max: 1_500 }
    }

    pub fn restart_delay(&self, rng: &mut Rng) -> (r: Tick)
        ensures
            r == sampled(self.restart_min, self.restart_max, old(rng)@),
            final(rng)@ == after_sample(self.restart_min, self.restart_max, old(rng)@),
    {
        sample(self.restart_min, self.restart_max, rng)
    }
}

/// How often the simulator disturbs the cluster, and how.
#[derive(Clone, Copy, Debug, PartialEq, Eq, Structural)]
pub struct FaultConfig {
    /// Off by default. A run with no faults is still a useful control.
    pub enabled: bool,
    /// Ticks of connectivity between disturbances, sampled uniformly.
    pub healthy_min: Tick,
    pub healthy_max: Tick,
    /// How long a disturbance lasts before healing, sampled uniformly.
    pub outage_min: Tick,
    pub outage_max: Tick,
    /// Relative weights for what kind of disturbance to inject.
    pub weight_partition: u32,
    pub weight_asymmetric: u32,
    pub weight_isolate: u32,
    /// Kill a node and bring it back after the outage.
    pub weight_crash: u32,
    /// Freeze a node for the outage span.
    pub weight_pause: u32,
}

impl Default for FaultConfig {
    fn default() -> (r: Self)
        ensures
            r == FaultConfig::none(),
    {
        FaultConfig::none()
    }
}

/// `nodes` dealt to two sides by the toss of a coin each, after the first `n`.
pub open spec fn dealt(nodes: Seq<u32>, n: int, state: u64) -> (Seq<u32>, Seq<u32>, u64)
    decreases n,
{
    if n <= 0 {
        (Seq::empty(), Seq::empty(), state)
    } else {
        let (a, b, s) = dealt(nodes, n - 1, state);
        if crate::rand::comes_up(s, 1, 2) {
            (a.push(nodes[n - 1]), b, crate::rand::advanced(s))
        } else {
            (a, b.push(nodes[n - 1]), crate::rand::advanced(s))
        }
    }
}

/// Where to cut a list in two if the coin keeps failing.
pub open spec fn middle(len: nat) -> int {
    if len / 2 < 1 {
        1
    } else {
        (len / 2) as int
    }
}

/// A split of `nodes`: dealt again while a side is empty, at most `tries`
/// times, and then simply cut in the middle.
pub open spec fn split_of(nodes: Seq<u32>, state: u64, tries: nat) -> (Seq<u32>, Seq<u32>, u64)
    decreases tries,
{
    if tries == 0 {
        let mid = middle(nodes.len());
        (nodes.take(mid), nodes.skip(mid), state)
    } else {
        let (a, b, s) = dealt(nodes, nodes.len() as int, state);
        if a.len() > 0 && b.len() > 0 {
            (a, b, s)
        } else {
            split_of(nodes, s, (tries - 1) as nat)
        }
    }
}

/// How often a split is dealt before it is cut.
pub const SPLIT_TRIES: u64 = 8;

/// Two different positions among `n`.
pub open spec fn pair_of(n: nat, state: u64) -> (int, int) {
    let i = crate::rand::in_range(state, 0, n as u64);
    let j = crate::rand::in_range(crate::rand::advanced(state), 0, (n - 1) as u64);
    (
        i as int,
        if j >= i {
            j + 1
        } else {
            j as int
        },
    )
}

/// What a schedule draws next.
pub struct Drawn {
    pub fault: Option<FaultView>,
    pub state: u64,
}

impl FaultConfig {
    #[verifier::allow_in_spec]
    pub fn none() -> (r: Self)
        returns
            (FaultConfig {
                enabled: false,
                healthy_min: 0,
                healthy_max: 1,
                outage_min: 0,
                outage_max: 1,
                weight_partition: 0,
                weight_asymmetric: 0,
                weight_isolate: 0,
                weight_crash: 0,
                weight_pause: 0,
            }),
    {
        FaultConfig {
            enabled: false,
            healthy_min: 0,
            healthy_max: 1,
            outage_min: 0,
            outage_max: 1,
            weight_partition: 0,
            weight_asymmetric: 0,
            weight_isolate: 0,
            weight_crash: 0,
            weight_pause: 0,
        }
    }

    /// Occasional trouble with long healthy stretches, so the cluster has time
    /// to settle and commit between disturbances.
    #[verifier::allow_in_spec]
    pub fn occasional() -> (r: Self)
        returns
            (FaultConfig {
                enabled: true,
                healthy_min: 1_500,
                healthy_max: 4_000,
                outage_min: 400,
                outage_max: 1_500,
                weight_partition: 3,
                weight_asymmetric: 1,
                weight_isolate: 1,
                weight_crash: 2,
                weight_pause: 1,
            }),
    {
        FaultConfig {
            enabled: true,
            healthy_min: 1_500,
            healthy_max: 4_000,
            outage_min: 400,
            outage_max: 1_500,
            weight_partition: 3,
            weight_asymmetric: 1,
            weight_isolate: 1,
            weight_crash: 2,
            weight_pause: 1,
        }
    }

    /// Constant churn: outages roughly as long as the healthy stretches.
    #[verifier::allow_in_spec]
    pub fn aggressive() -> (r: Self)
        returns
            (FaultConfig {
                enabled: true,
                healthy_min: 400,
                healthy_max: 1_200,
                outage_min: 400,
                outage_max: 1_600,
                weight_partition: 3,
                weight_asymmetric: 2,
                weight_isolate: 2,
                weight_crash: 3,
                weight_pause: 2,
            }),
    {
        FaultConfig {
            enabled: true,
            healthy_min: 400,
            healthy_max: 1_200,
            outage_min: 400,
            outage_max: 1_600,
            weight_partition: 3,
            weight_asymmetric: 2,
            weight_isolate: 2,
            weight_crash: 3,
            weight_pause: 2,
        }
    }

    /// Only one-way cuts. The case most likely to expose a wrong assumption.
    #[verifier::allow_in_spec]
    pub fn asymmetric_only() -> (r: Self)
        returns
            (FaultConfig {
                enabled: true,
                healthy_min: 600,
                healthy_max: 1_500,
                outage_min: 600,
                outage_max: 2_000,
                weight_partition: 0,
                weight_asymmetric: 1,
                weight_isolate: 0,
                weight_crash: 0,
                weight_pause: 0,
            }),
    {
        FaultConfig {
            enabled: true,
            healthy_min: 600,
            healthy_max: 1_500,
            outage_min: 600,
            outage_max: 2_000,
            weight_partition: 0,
            weight_asymmetric: 1,
            weight_isolate: 0,
            weight_crash: 0,
            weight_pause: 0,
        }
    }

    /// Nothing but node death and revival. No network faults at all, so any
    /// divergence it produces is attributable to recovery alone.
    #[verifier::allow_in_spec]
    pub fn crash_only() -> (r: Self)
        returns
            (FaultConfig {
                enabled: true,
                healthy_min: 500,
                healthy_max: 2_000,
                outage_min: 300,
                outage_max: 1_500,
                weight_partition: 0,
                weight_asymmetric: 0,
                weight_isolate: 0,
                weight_crash: 4,
                weight_pause: 1,
            }),
    {
        FaultConfig {
            enabled: true,
            healthy_min: 500,
            healthy_max: 2_000,
            outage_min: 300,
            outage_max: 1_500,
            weight_partition: 0,
            weight_asymmetric: 0,
            weight_isolate: 0,
            weight_crash: 4,
            weight_pause: 1,
        }
    }

    pub open spec fn total(self) -> u64 {
        (self.weight_partition + self.weight_asymmetric + self.weight_isolate + self.weight_crash
            + self.weight_pause) as u64
    }

    fn total_weight(&self) -> (r: u64)
        ensures
            r == self.total(),
            r == self.weight_partition + self.weight_asymmetric + self.weight_isolate
                + self.weight_crash + self.weight_pause,
    {
        self.weight_partition as u64 + self.weight_asymmetric as u64 + self.weight_isolate as u64
            + self.weight_crash as u64 + self.weight_pause as u64
    }

    /// How long to stay connected before the next disturbance.
    pub fn healthy_span(&self, rng: &mut Rng) -> (r: Tick)
        ensures
            r == sampled(self.healthy_min, self.healthy_max, old(rng)@),
            final(rng)@ == after_sample(self.healthy_min, self.healthy_max, old(rng)@),
    {
        sample(self.healthy_min, self.healthy_max, rng)
    }

    /// How long a disturbance lasts.
    pub fn outage_span(&self, rng: &mut Rng) -> (r: Tick)
        ensures
            r == sampled(self.outage_min, self.outage_max, old(rng)@),
            final(rng)@ == after_sample(self.outage_min, self.outage_max, old(rng)@),
    {
        sample(self.outage_min, self.outage_max, rng)
    }

    /// The next disturbance: a kind by its weight, then who it strikes.
    #[verifier::opaque]
    pub open spec fn drawn(self, nodes: Seq<u32>, state: u64) -> Drawn {
        if !self.enabled || self.total() == 0 || nodes.len() < 2 {
            Drawn { fault: None, state }
        } else {
            let roll = crate::rand::in_range(state, 0, self.total()) as int;
            let s1 = crate::rand::advanced(state);
            let victim = nodes[crate::rand::in_range(s1, 0, nodes.len() as u64) as int];
            let s2 = crate::rand::advanced(s1);
            if roll < self.weight_partition {
                let (a, b, s) = split_of(nodes, s1, SPLIT_TRIES as nat);
                Drawn { fault: Some(FaultView::Partition { a, b }), state: s }
            } else if roll < self.weight_partition + self.weight_asymmetric {
                let (i, j) = pair_of(nodes.len(), s1);
                Drawn {
                    fault: Some(FaultView::AsymmetricCut { from: nodes[i], to: nodes[j] }),
                    state: crate::rand::advanced(s2),
                }
            } else if roll < self.weight_partition + self.weight_asymmetric + self.weight_isolate {
                Drawn { fault: Some(FaultView::Isolate { node: victim }), state: s2 }
            } else if roll < self.weight_partition + self.weight_asymmetric + self.weight_isolate
                + self.weight_crash {
                Drawn { fault: Some(FaultView::Crash { node: victim }), state: s2 }
            } else {
                Drawn {
                    fault: Some(
                        FaultView::Pause {
                            node: victim,
                            ticks: sampled(self.outage_min, self.outage_max, s2),
                        },
                    ),
                    state: after_sample(self.outage_min, self.outage_max, s2),
                }
            }
        }
    }

    /// Pick the next disturbance.
    ///
    /// `None` when this config is disabled, when every weight is zero, or when
    /// there are too few nodes to disturb.
    pub fn next_fault(&self, nodes: &[NodeId], rng: &mut Rng) -> (r: Option<Fault>)
        ensures
            r is Some == self.drawn(nodes@, old(rng)@).fault is Some,
            r matches Some(f) ==> self.drawn(nodes@, old(rng)@).fault == Some(f@),
            final(rng)@ == self.drawn(nodes@, old(rng)@).state,
    {
        proof {
            reveal(FaultConfig::drawn);
        }
        let total: u64 = self.total_weight();
        if !self.enabled || total == 0 || nodes.len() < 2 {
            return None;
        }
        let roll: u64 = rng.gen_range(0, total);
        let partition: u64 = self.weight_partition as u64;
        let asymmetric: u64 = partition + self.weight_asymmetric as u64;
        let isolate: u64 = asymmetric + self.weight_isolate as u64;
        let crash: u64 = isolate + self.weight_crash as u64;
        if roll < partition {
            let (a, b) = random_split(nodes, rng);
            return Some(Fault::Partition { a, b });
        }
        if roll < asymmetric {
            let (from, to) = random_pair(nodes, rng);
            return Some(Fault::AsymmetricCut { from, to });
        }
        let pick: u64 = rng.gen_range(0, nodes.len() as u64);
        let node: NodeId = nodes[pick as usize];
        if roll < isolate {
            return Some(Fault::Isolate { node });
        }
        if roll < crash {
            return Some(Fault::Crash { node });
        }
        let ticks: u64 = self.outage_span(rng);
        Some(Fault::Pause { node, ticks })
    }
}

/// A dealt hand holds every node exactly once.
proof fn lemma_dealt(nodes: Seq<u32>, n: int, state: u64)
    requires
        0 <= n <= nodes.len(),
    ensures
        dealt(nodes, n, state).0.len() + dealt(nodes, n, state).1.len() == n,
        forall|x: u32|
            dealt(nodes, n, state).0.contains(x) || dealt(nodes, n, state).1.contains(x)
                <==> #[trigger] nodes.take(n).contains(x),
    decreases n,
{
    if n == 0 {
        assert(nodes.take(0) =~= Seq::empty());
    } else {
        lemma_dealt(nodes, n - 1, state);
        let (a, b, s) = dealt(nodes, n - 1, state);
        let (a1, b1, s1) = dealt(nodes, n, state);
        let last = nodes[n - 1];
        assert(nodes.take(n) =~= nodes.take(n - 1).push(last));
        assert forall|x: u32| a1.contains(x) || b1.contains(x) <==> #[trigger] nodes.take(
            n,
        ).contains(x) by {
            lemma_push_contains(a, last, x);
            lemma_push_contains(b, last, x);
            lemma_push_contains(nodes.take(n - 1), last, x);
        }
    }
}

proof fn lemma_push_contains(s: Seq<u32>, y: u32, x: u32)
    ensures
        s.push(y).contains(x) <==> s.contains(x) || x == y,
{
    let t = s.push(y);
    if s.contains(x) {
        let i = choose|i: int| 0 <= i < s.len() && s[i] == x;
        assert(t[i] == x);
    }
    if x == y {
        assert(t[s.len() as int] == x);
    }
    if t.contains(x) {
        let i = choose|i: int| 0 <= i < t.len() && t[i] == x;
        if i < s.len() {
            assert(s[i] == x);
        }
    }
}

/// A generated split puts every node on exactly one side, and leaves neither
/// side empty.
pub proof fn law_splits_leave_no_side_empty(nodes: Seq<u32>, state: u64, tries: nat)
    requires
        nodes.len() >= 2,
    ensures
        split_of(nodes, state, tries).0.len() > 0,
        split_of(nodes, state, tries).1.len() > 0,
        split_of(nodes, state, tries).0.len() + split_of(nodes, state, tries).1.len()
            == nodes.len(),
        forall|x: u32| #[trigger]
            nodes.contains(x) ==> split_of(nodes, state, tries).0.contains(x) || split_of(
                nodes,
                state,
                tries,
            ).1.contains(x),
    decreases tries,
{
    if tries == 0 {
        let mid = middle(nodes.len());
        assert forall|x: u32| #[trigger] nodes.contains(x) implies nodes.take(mid).contains(x)
            || nodes.skip(mid).contains(x) by {
            let i = choose|i: int| 0 <= i < nodes.len() && nodes[i] == x;
            if i < mid {
                assert(nodes.take(mid)[i] == x);
            } else {
                assert(nodes.skip(mid)[i - mid] == x);
            }
        }
    } else {
        lemma_dealt(nodes, nodes.len() as int, state);
        assert(nodes.take(nodes.len() as int) =~= nodes);
        let (a, b, s) = dealt(nodes, nodes.len() as int, state);
        if !(a.len() > 0 && b.len() > 0) {
            law_splits_leave_no_side_empty(nodes, s, (tries - 1) as nat);
        }
    }
}

/// A generated pair is two different positions of the list.
pub proof fn law_pairs_are_distinct(n: nat, state: u64)
    requires
        2 <= n <= u64::MAX,
    ensures
        0 <= pair_of(n, state).0 < n,
        0 <= pair_of(n, state).1 < n,
        pair_of(n, state).0 != pair_of(n, state).1,
{
    crate::rand::lemma_range_bounds(state, 0, n as u64);
    crate::rand::lemma_range_bounds(crate::rand::advanced(state), 0, (n - 1) as u64);
}

/// A disabled schedule, or one without weights, draws nothing: neither a fault
/// nor a random number.
pub proof fn law_disabled_schedules_draw_nothing(cfg: FaultConfig, nodes: Seq<u32>, state: u64)
    requires
        !cfg.enabled || cfg.total() == 0 || nodes.len() < 2,
    ensures
        cfg.drawn(nodes, state).fault is None,
        cfg.drawn(nodes, state).state == state,
{
    reveal(FaultConfig::drawn);
}

/// Assign each node to one side or the other, keeping both sides non-empty.
pub fn random_split(nodes: &[NodeId], rng: &mut Rng) -> (r: (Vec<NodeId>, Vec<NodeId>))
    requires
        nodes@.len() >= 1,
    ensures
        (r.0@, r.1@, final(rng)@) == split_of(nodes@, old(rng)@, SPLIT_TRIES as nat),
{
    let mut tries: u64 = SPLIT_TRIES;
    let ghost start = rng@;
    // Bounded: the retry only fails when every node lands on the same side.
    while tries > 0
        invariant
            tries <= SPLIT_TRIES,
            start == old(rng)@,
            split_of(nodes@, rng@, tries as nat) == split_of(nodes@, start, SPLIT_TRIES as nat),
        decreases tries,
    {
        let ghost state = rng@;
        let mut a: Vec<NodeId> = Vec::new();
        let mut b: Vec<NodeId> = Vec::new();
        let mut i: usize = 0;
        while i < nodes.len()
            invariant
                i <= nodes@.len(),
                (a@, b@, rng@) == dealt(nodes@, i as int, state),
            decreases nodes@.len() - i,
        {
            if rng.chance(1, 2) {
                a.push(nodes[i]);
            } else {
                b.push(nodes[i]);
            }
            i = i + 1;
        }
        if a.len() > 0 && b.len() > 0 {
            return (a, b);
        }
        tries = tries - 1;
    }
    let half: usize = nodes.len() / 2;
    let mid: usize = if half < 1 {
        1
    } else {
        half
    };
    let (left, right) = nodes.split_at(mid);
    assert(left@ =~= nodes@.take(mid as int));
    assert(right@ =~= nodes@.skip(mid as int));
    (copy_ids(left), copy_ids(right))
}

/// Two distinct nodes, in order.
pub fn random_pair(nodes: &[NodeId], rng: &mut Rng) -> (r: (NodeId, NodeId))
    requires
        nodes@.len() >= 2,
    ensures
        ({
            let (i, j) = pair_of(nodes@.len(), old(rng)@);
            r == (nodes@[i], nodes@[j])
        }),
        final(rng)@ == crate::rand::advanced(crate::rand::advanced(old(rng)@)),
{
    let n: u64 = nodes.len() as u64;
    let i: u64 = rng.gen_range(0, n);
    let j: u64 = rng.gen_range(0, n - 1);
    let other: u64 = if j >= i {
        j + 1
    } else {
        j
    };
    (nodes[i as usize], nodes[other as usize])
}

} // verus!
