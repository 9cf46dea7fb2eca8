//! Cluster membership, including joint consensus.
//!
//! A configuration is either a plain voter set, or a *joint* configuration
//! holding both the old and the new set at once. While the joint form is in
//! force, every decision needs a majority of both sets independently, which is
//! what makes it impossible for the two sets to elect different leaders during
//! the changeover.
use crate::order::ids_in_order;
use crate::text::push_id_set;
use crate::NodeId;
use std::collections::BTreeSet;
use vstd::prelude::*;

verus! {

broadcast use {vstd::laws_cmp::group_laws_cmp, vstd::std_specs::btree::group_btree_axioms};

/// A configuration as a pair of mathematical sets.
#[verifier::ext_equal]
pub struct ConfigView {
    /// The current voters. During a joint configuration this is the outgoing
    /// set.
    pub old: Set<u32>,
    /// The incoming set, present only while a change is in flight.
    pub new: Option<Set<u32>>,
}

/// More than half of `set` is in `has`.
pub open spec fn majority(set: Set<u32>, has: Set<u32>) -> bool {
    set.intersect(has).len() * 2 > set.len()
}

impl ConfigView {
    /// The plain configuration over `voters`.
    pub open spec fn simple(voters: Set<u32>) -> ConfigView {
        ConfigView { old: voters, new: None }
    }

    /// Each half is a finite set with at least one voter.
    pub open spec fn wf(self) -> bool {
        &&& self.old.finite()
        &&& self.old.len() > 0
        &&& self.new matches Some(n) ==> n.finite() && n.len() > 0
    }

    pub open spec fn is_joint(self) -> bool {
        self.new is Some
    }

    /// Everyone in either set.
    pub open spec fn voters(self) -> Set<u32> {
        match self.new {
            None => self.old,
            Some(n) => self.old.union(n),
        }
    }

    pub open spec fn contains(self, id: u32) -> bool {
        self.voters().contains(id)
    }

    /// The nodes in `has` decide for this configuration: a majority of each
    /// half, separately.
    pub open spec fn is_quorum(self, has: Set<u32>) -> bool {
        &&& majority(self.old, has)
        &&& self.new matches Some(n) ==> majority(n, has)
    }

    /// The configuration this one is changing to.
    pub open spec fn to_new(self) -> Option<ConfigView> {
        match self.new {
            None => None,
            Some(n) => Some(ConfigView::simple(n)),
        }
    }

    pub open spec fn describe(self) -> Seq<char> {
        match self.new {
            None => crate::text::id_set(self.old),
            Some(n) => crate::text::id_set(self.old) + " -> "@ + crate::text::id_set(n),
        }
    }
}

/// Two majorities of the same set have a member in common.
pub proof fn lemma_majorities_intersect(set: Set<u32>, a: Set<u32>, b: Set<u32>)
    requires
        set.finite(),
        majority(set, a),
        majority(set, b),
    ensures
        exists|id: u32| set.contains(id) && a.contains(id) && #[trigger] b.contains(id),
{
    let left = set.intersect(a);
    let right = set.intersect(b);
    vstd::set_lib::lemma_set_intersect_union_lens(left, right);
    vstd::set_lib::lemma_len_subset(left.union(right), set);
    if left.intersect(right).len() == 0 {
        assert(false);
    }
    let id = left.intersect(right).choose();
    assert(left.intersect(right).contains(id));
    assert(b.contains(id));
}

/// Any two quorums of one configuration share a voter, whether or not the
/// configuration is joint; and the shared voter sits in each half. This is why
/// two leaders cannot win the same term.
pub proof fn law_quorums_intersect(c: ConfigView, a: Set<u32>, b: Set<u32>)
    requires
        c.wf(),
        c.is_quorum(a),
        c.is_quorum(b),
    ensures
        exists|id: u32| c.old.contains(id) && a.contains(id) && #[trigger] b.contains(id),
        c.new matches Some(n) ==> exists|id: u32|
            n.contains(id) && a.contains(id) && #[trigger] b.contains(id),
{
    lemma_majorities_intersect(c.old, a, b);
    if c.new is Some {
        lemma_majorities_intersect(c.new->0, a, b);
    }
}

/// Across a membership change: a quorum of the joint configuration shares a
/// voter with every quorum of the configuration it leaves and of the one it
/// changes to, so neither side can decide alone during the changeover.
pub proof fn law_joint_quorum_overlaps_both_sides(
    c: ConfigView,
    joint: Set<u32>,
    before: Set<u32>,
    after: Set<u32>,
)
    requires
        c.wf(),
        c.is_joint(),
        c.is_quorum(joint),
        ConfigView::simple(c.old).is_quorum(before),
        ConfigView::simple(c.new->0).is_quorum(after),
    ensures
        exists|id: u32| c.old.contains(id) && joint.contains(id) && #[trigger] before.contains(id),
        exists|id: u32|
            c.new->0.contains(id) && joint.contains(id) && #[trigger] after.contains(id),
{
    lemma_majorities_intersect(c.old, joint, before);
    lemma_majorities_intersect(c.new->0, joint, after);
}

/// Nodes outside the configuration never help to form a quorum.
pub proof fn law_outsiders_do_not_count(c: ConfigView, has: Set<u32>, id: u32)
    requires
        !c.contains(id),
    ensures
        c.is_quorum(has.insert(id)) == c.is_quorum(has),
{
    assert(c.old.intersect(has.insert(id)) =~= c.old.intersect(has));
    if c.new is Some {
        assert(c.new->0.intersect(has.insert(id)) =~= c.new->0.intersect(has));
    }
}

/// The set (or sets) of nodes that may vote and whose acknowledgements count
/// toward commitment.
#[derive(Debug, PartialEq, Eq)]
pub struct ClusterConfig {
    old: BTreeSet<NodeId>,
    new: Option<BTreeSet<NodeId>>,
}

impl View for ClusterConfig {
    type V = ConfigView;

    closed spec fn view(&self) -> ConfigView {
        ConfigView {
            old: self.old@,
            new: match self.new {
                None => None,
                Some(n) => Some(n@),
            },
        }
    }
}

impl Clone for ClusterConfig {
    fn clone(&self) -> (r: Self)
        ensures
            r@ == self@,
    {
        ClusterConfig {
            old: self.old.clone(),
            new: match &self.new {
                None => None,
                Some(n) => Some(n.clone()),
            },
        }
    }
}

/// The ids in `ids`, each once.
pub fn id_set_of(ids: &[NodeId]) -> (r: BTreeSet<NodeId>)
    ensures
        r@ == ids@.to_set(),
{
    let mut r: BTreeSet<NodeId> = BTreeSet::new();
    let mut i: usize = 0;
    assert(ids@.take(0).to_set() =~= Set::<u32>::empty());
    while i < ids.len()
        invariant
            i <= ids.len(),
            r@ == ids@.take(i as int).to_set(),
        decreases ids.len() - i,
    {
        r.insert(ids[i]);
        proof {
            let before = ids@.take(i as int);
            let after = ids@.take(i + 1);
            assert(after =~= before.push(ids[i as int]));
            assert forall|x: u32| after.to_set().contains(x) implies before.to_set().insert(
                ids[i as int],
            ).contains(x) by {
                let k = choose|k: int| 0 <= k < after.len() && after[k] == x;
                if k < i {
                    assert(before[k] == x);
                }
            }
            assert forall|x: u32|
                before.to_set().insert(ids[i as int]).contains(x) implies after.to_set().contains(
                x,
            ) by {
                if x == ids[i as int] {
                    assert(after[i as int] == x);
                } else {
                    let k = choose|k: int| 0 <= k < before.len() && before[k] == x;
                    assert(after[k] == x);
                }
            }
            assert(after.to_set() =~= before.to_set().insert(ids[i as int]));
        }
        i = i + 1;
    }
    assert(ids@.take(i as int) =~= ids@);
    r
}

/// The members of `set` for which `has` answers true are more than half of it.
fn is_majority_by<F: Fn(NodeId) -> bool>(set: &BTreeSet<NodeId>, has: &F) -> (r: (
    bool,
    Ghost<Set<u32>>,
))
    requires
        forall|id: u32| set@.contains(id) ==> call_requires(*has, (id,)),
    ensures
        r.0 == majority(set@, r.1@),
        r.1@.subset_of(set@),
        forall|id: u32| set@.contains(id) ==> #[trigger] call_ensures(
            *has,
            (id,),
            r.1@.contains(id),
        ),
{
    let ids = ids_in_order(set);
    let mut count: usize = 0;
    let mut i: usize = 0;
    let ghost mut yes: Set<u32> = Set::empty();
    while i < ids.len()
        invariant
            i <= ids.len(),
            crate::order::ascending(ids@),
            ids@.to_set() == set@,
            forall|id: u32| set@.contains(id) ==> call_requires(*has, (id,)),
            yes.finite(),
            count == yes.len(),
            count <= i,
            forall|id: u32| yes.contains(id) ==> ids@.take(i as int).contains(id),
            forall|k: int|
                0 <= k < i ==> #[trigger] call_ensures(*has, (ids@[k],), yes.contains(ids@[k])),
        decreases ids.len() - i,
    {
        let id: NodeId = ids[i];
        assert(ids@.to_set().contains(id));
        let answer = has(id);
        proof {
            assert(!yes.contains(id)) by {
                if yes.contains(id) {
                    let k = choose|k: int|
                        0 <= k < ids@.take(i as int).len() && ids@.take(i as int)[k] == id;
                    assert(ids@[k] == id);
                }
            }
            let before = yes;
            if answer {
                yes = yes.insert(id);
            }
            assert forall|x: u32| yes.contains(x) implies ids@.take(i + 1).contains(x) by {
                if x == id {
                    assert(ids@.take(i + 1)[i as int] == x);
                } else {
                    let k = choose|k: int|
                        0 <= k < ids@.take(i as int).len() && ids@.take(i as int)[k] == x;
                    assert(ids@.take(i + 1)[k] == x);
                }
            }
            assert forall|k: int| 0 <= k < i + 1 implies #[trigger] call_ensures(
                *has,
                (ids@[k],),
                yes.contains(ids@[k]),
            ) by {
                if k < i {
                    assert(ids@[k] != id);
                    assert(yes.contains(ids@[k]) == before.contains(ids@[k]));
                    assert(call_ensures(*has, (ids@[k],), before.contains(ids@[k])));
                }
            }
        }
        if answer {
            count = count + 1;
        }
        i = i + 1;
    }
    proof {
        assert(ids@.take(i as int) =~= ids@);
        assert(yes.subset_of(set@)) by {
            assert forall|x: u32| yes.contains(x) implies set@.contains(x) by {
                assert(ids@.contains(x));
                assert(ids@.to_set().contains(x));
            }
        }
        assert(set@.intersect(yes) =~= yes);
        assert forall|id: u32| set@.contains(id) implies #[trigger] call_ensures(
            *has,
            (id,),
            yes.contains(id),
        ) by {
            assert(ids@.to_set().contains(id));
            let k = choose|k: int| 0 <= k < ids@.len() && ids@[k] == id;
            assert(call_ensures(*has, (ids@[k],), yes.contains(ids@[k])));
        }
    }
    (count > ids.len() / 2, Ghost(yes))
}

impl ClusterConfig {
    pub fn new(voters: &[NodeId]) -> (r: Self)
        requires
            voters@.len() > 0,
        ensures
            r@ == ConfigView::simple(voters@.to_set()),
            r@.wf(),
    {
        proof {
            assert(voters@.to_set().contains(voters@[0]));
            voters@.lemma_cardinality_of_set();
        }
        ClusterConfig { old: id_set_of(voters), new: None }
    }

    /// The transitional configuration, in which both sets decide together.
    pub fn joint(old: &[NodeId], new: &[NodeId]) -> (r: Self)
        requires
            old@.len() > 0,
            new@.len() > 0,
        ensures
            r@ == (ConfigView { old: old@.to_set(), new: Some(new@.to_set()) }),
            r@.wf(),
    {
        proof {
            assert(old@.to_set().contains(old@[0]));
            assert(new@.to_set().contains(new@[0]));
        }
        ClusterConfig { old: id_set_of(old), new: Some(id_set_of(new)) }
    }

    /// The transitional configuration from the outgoing set of this one to
    /// `voters`.
    pub(crate) fn joint_to(&self, voters: BTreeSet<NodeId>) -> (r: Self)
        ensures
            r@ == (ConfigView { old: self@.old, new: Some(voters@) }),
    {
        ClusterConfig { old: self.old.clone(), new: Some(voters) }
    }

    pub fn is_joint(&self) -> (r: bool)
        ensures
            r == self@.is_joint(),
    {
        self.new.is_some()
    }

    /// The outgoing set. Equal to the whole configuration when not joint.
    pub fn old_voters(&self) -> (r: &BTreeSet<NodeId>)
        ensures
            r@ == self@.old,
    {
        &self.old
    }

    /// The incoming set, if a change is in flight.
    pub fn new_voters(&self) -> (r: Option<&BTreeSet<NodeId>>)
        ensures
            r is Some == self@.new is Some,
            r matches Some(n) ==> self@.new == Some(n@),
    {
        self.new.as_ref()
    }

    /// The configuration this one is transitioning to, as a plain config.
    pub fn to_new(&self) -> (r: Option<ClusterConfig>)
        ensures
            r is Some == self@.to_new() is Some,
            r matches Some(c) ==> self@.to_new() == Some(c@),
    {
        match &self.new {
            None => None,
            Some(n) => Some(ClusterConfig { old: n.clone(), new: None }),
        }
    }

    /// Everyone in either set.
    ///
    /// A node joining votes and is replicated to from the moment the joint
    /// entry is appended, and a node leaving keeps voting until the new
    /// configuration commits.
    pub fn voters(&self) -> (r: BTreeSet<NodeId>)
        ensures
            r@ == self@.voters(),
    {
        match &self.new {
            None => self.old.clone(),
            Some(new) => {
                let mut all = self.old.clone();
                let extra = ids_in_order(new);
                let mut i: usize = 0;
                while i < extra.len()
                    invariant
                        i <= extra.len(),
                        extra@.to_set() == new@,
                        all@.subset_of(self.old@.union(new@)),
                        self.old@.subset_of(all@),
                        forall|k: int| 0 <= k < i ==> #[trigger] all@.contains(extra@[k]),
                    decreases extra.len() - i,
                {
                    assert(extra@.to_set().contains(extra@[i as int]));
                    all.insert(extra[i]);
                    i = i + 1;
                }
                proof {
                    assert forall|x: u32| self.old@.union(new@).contains(x) implies all@.contains(
                        x,
                    ) by {
                        if new@.contains(x) {
                            assert(extra@.to_set().contains(x));
                            let k = choose|k: int| 0 <= k < extra@.len() && extra@[k] == x;
                            assert(all@.contains(extra@[k]));
                        }
                    }
                    assert(all@ =~= self.old@.union(new@));
                }
                all
            },
        }
    }

    pub fn contains(&self, id: NodeId) -> (r: bool)
        ensures
            r == self@.contains(id),
    {
        if self.old.contains(&id) {
            return true;
        }
        match &self.new {
            None => false,
            Some(n) => n.contains(&id),
        }
    }

    pub fn len(&self) -> (r: usize)
        ensures
            r == self@.voters().len(),
    {
        let all = self.voters();
        all.len()
    }

    /// A configuration always has a voter.
    pub fn is_empty(&self) -> (r: bool)
        ensures
            !r,
            self@.wf() ==> r == (self@.voters().len() == 0),
    {
        proof {
            if self@.wf() {
                if self@.new is Some {
                    vstd::set_lib::lemma_len_subset(self@.old, self@.voters());
                }
            }
        }
        false
    }

    /// Does the set of nodes satisfying `has` form a quorum?
    ///
    /// A joint configuration needs a majority of the outgoing *and* of the
    /// incoming set, checked independently. Requiring only a majority of the
    /// union, or of either one, would let the two halves choose different
    /// leaders in the same term while both believed they had won. Nodes outside
    /// the configuration are never asked about.
    pub fn is_quorum_by<F: Fn(NodeId) -> bool>(&self, has: F) -> (r: bool)
        requires
            forall|id: u32| #[trigger] self@.contains(id) ==> call_requires(has, (id,)),
            forall|id: u32| #[trigger] self@.contains(id) ==> !(call_ensures(has, (id,), true)
                && call_ensures(has, (id,), false)),
        ensures
            exists|yes: Set<u32>|
                {
                    &&& r == #[trigger] self@.is_quorum(yes)
                    &&& forall|id: u32| self@.contains(id) ==> #[trigger] call_ensures(
                        has,
                        (id,),
                        yes.contains(id),
                    )
                },
    {
        assert forall|id: u32| self.old@.contains(id) implies call_requires(has, (id,)) by {
            assert(self@.contains(id));
        }
        let (old_half, Ghost(a)) = is_majority_by(&self.old, &has);
        let ghost mut yes = a;
        let r = match &self.new {
            None => old_half,
            Some(n) => {
                assert forall|id: u32| n@.contains(id) implies call_requires(has, (id,)) by {
                    assert(self@.contains(id));
                }
                let (new_half, Ghost(b)) = is_majority_by(n, &has);
                proof {
                    yes = a.union(b);
                    assert forall|id: u32| self@.contains(id) implies #[trigger] call_ensures(
                        has,
                        (id,),
                        yes.contains(id),
                    ) by {
                        if self.old@.contains(id) {
                            assert(call_ensures(has, (id,), a.contains(id)));
                        }
                        if n@.contains(id) {
                            assert(call_ensures(has, (id,), b.contains(id)));
                        }
                    }
                    assert(self.old@.intersect(yes) =~= self.old@.intersect(a)) by {
                        assert forall|id: u32|
                            self.old@.contains(id) && yes.contains(id) implies a.contains(id) by {
                            assert(self@.contains(id));
                            assert(call_ensures(has, (id,), a.contains(id)));
                            if b.contains(id) {
                                assert(call_ensures(has, (id,), b.contains(id)));
                            }
                        }
                    }
                    assert(n@.intersect(yes) =~= n@.intersect(b)) by {
                        assert forall|id: u32| n@.contains(id) && yes.contains(id) implies b.contains(
                            id,
                        ) by {
                            assert(self@.contains(id));
                            assert(call_ensures(has, (id,), b.contains(id)));
                            if a.contains(id) {
                                assert(call_ensures(has, (id,), a.contains(id)));
                            }
                        }
                    }
                }
                old_half && new_half
            },
        };
        assert(r == self@.is_quorum(yes));
        r
    }

    /// Does `granted` contain a quorum?
    pub fn is_quorum(&self, granted: &BTreeSet<NodeId>) -> (r: bool)
        ensures
            r == self@.is_quorum(granted@),
    {
        let has = |id: NodeId| -> (b: bool)
            ensures
                b == granted@.contains(id),
            { granted.contains(&id) };
        let r = self.is_quorum_by(has);
        proof {
            let yes = choose|yes: Set<u32>|
                {
                    &&& r == #[trigger] self@.is_quorum(yes)
                    &&& forall|id: u32| self@.contains(id) ==> #[trigger] call_ensures(
                        has,
                        (id,),
                        yes.contains(id),
                    )
                };
            assert(self@.old.intersect(yes) =~= self@.old.intersect(granted@)) by {
                assert forall|id: u32| self@.old.contains(id) implies yes.contains(id)
                    == granted@.contains(id) by {
                    assert(self@.contains(id));
                    assert(call_ensures(has, (id,), yes.contains(id)));
                }
            }
            if self@.new is Some {
                let n = self@.new->0;
                assert(n.intersect(yes) =~= n.intersect(granted@)) by {
                    assert forall|id: u32| n.contains(id) implies yes.contains(id)
                        == granted@.contains(id) by {
                        assert(self@.contains(id));
                        assert(call_ensures(has, (id,), yes.contains(id)));
                    }
                }
            }
        }
        r
    }

    /// A compact description for traces and reports.
    pub fn describe(&self) -> (r: String)
        ensures
            r@ == self@.describe(),
    {
        let mut r = String::new();
        push_id_set(&mut r, &self.old);
        match &self.new {
            None => {},
            Some(new) => {
                r.append(" -> ");
                push_id_set(&mut r, new);
            },
        }
        assert(r@ =~= self@.describe());
        r
    }
}

} // verus!
