//! The graph of contact pairs between colliders.

use vstd::prelude::*;
use std::collections::HashSet;

use crate::entity::{ContactId, Entity};
use crate::stable_vec::StableVec;

verus! {

/// A number that stands for an unordered pair of indices.
#[derive(Clone, Copy, Debug, PartialEq, Eq, Hash, Structural)]
pub struct PairKey(pub u64);

/// The number that stands for a pair of indices: the smaller one above the larger one.
pub open spec fn pair_key(id1: u32, id2: u32) -> PairKey {
    if id1 < id2 {
        PairKey((id1 * 0x1_0000_0000 + id2) as u64)
    } else {
        PairKey((id2 * 0x1_0000_0000 + id1) as u64)
    }
}

impl PairKey {
    /// The key of a pair of indices, in either order.
    pub fn new(id1: u32, id2: u32) -> (key: Self)
        ensures
            key == pair_key(id1, id2),
    {
        if id1 < id2 {
            PairKey(id1 as u64 * 0x1_0000_0000 + id2 as u64)
        } else {
            PairKey(id2 as u64 * 0x1_0000_0000 + id1 as u64)
        }
    }
}

/// Two pairs have the same key exactly if they are the same pair, in whichever order.
pub proof fn pair_key_is_unordered(a1: u32, a2: u32, b1: u32, b2: u32)
    ensures
        pair_key(a1, a2) == pair_key(b1, b2) <==> (a1 == b1 && a2 == b2) || (a1 == b2 && a2 == b1),
{
}

/// A contact pair between two colliders, with what the islands and the narrow phase need to know.
#[derive(Clone, Copy, Debug, PartialEq, Eq)]
pub struct ContactEdge {
    pub id: ContactId,
    pub collider1: Entity,
    pub collider2: Entity,
    /// The body of the first collider, if it has one.
    pub body1: Option<Entity>,
    /// The body of the second collider, if it has one.
    pub body2: Option<Entity>,
    /// Whether the colliders are touching.
    pub is_touching: bool,
    /// Whether the contact constrains the motion of the bodies.
    pub generates_constraints: bool,
    /// Whether the start and the end of the contact are reported.
    pub contact_events: bool,
    /// Whether the pair is asleep.
    pub is_sleeping: bool,
}

impl ContactEdge {
    /// Whether the given collider is one of the two.
    pub open spec fn is_of(&self, collider: Entity) -> bool {
        self.collider1 == collider || self.collider2 == collider
    }

    /// The body on the other side of the given collider.
    pub open spec fn body_across(&self, collider: Entity) -> Option<Entity> {
        if self.collider1 == collider {
            self.body2
        } else {
            self.body1
        }
    }

    /// The collider on the other side of the given one.
    pub open spec fn collider_across(&self, collider: Entity) -> Entity {
        if self.collider1 == collider {
            self.collider2
        } else {
            self.collider1
        }
    }

    /// The key of the pair of colliders.
    pub open spec fn key(&self) -> PairKey {
        pair_key(self.collider1.index, self.collider2.index)
    }

    /// The body on the other side of the given collider.
    pub fn other_body(&self, collider: Entity) -> (body: Option<Entity>)
        ensures
            body == self.body_across(collider),
    {
        if self.collider1 == collider {
            self.body2
        } else {
            self.body1
        }
    }

    /// The collider on the other side of the given one.
    pub fn other_collider(&self, collider: Entity) -> (other: Entity)
        ensures
            other == self.collider_across(collider),
    {
        if self.collider1 == collider {
            self.collider2
        } else {
            self.collider1
        }
    }
}

/// The contact pairs, by identifier.
#[derive(Debug)]
pub struct ContactGraph {
    edges: StableVec<ContactEdge>,
    pairs: HashSet<u64>,
}

/// Whether a contact pair with the given identifier is one of the given edges.
pub open spec fn lists_id(edges: Seq<ContactEdge>, id: ContactId) -> bool {
    exists|i: int| 0 <= i < edges.len() && (#[trigger] edges[i]).id == id
}

/// Whether the sequence holds the contact pairs of a collider, by ascending identifier.
pub open spec fn are_edges_with(
    edges: Seq<ContactEdge>,
    graph: Map<ContactId, ContactEdge>,
    collider: Entity,
) -> bool {
    &&& forall|i: int|
        0 <= i < edges.len() ==> graph.contains_key((#[trigger] edges[i]).id)
            && graph[edges[i].id] == edges[i] && edges[i].is_of(collider)
    &&& forall|id: ContactId| #[trigger]
        graph.contains_key(id) && graph[id].is_of(collider) ==> lists_id(edges, id)
    &&& forall|i: int, j: int|
        0 <= i < j < edges.len() ==> (#[trigger] edges[i]).id.0 < (#[trigger] edges[j]).id.0
}

/// The contact pairs of a collider, by ascending identifier.
pub open spec fn edges_with(
    graph: Map<ContactId, ContactEdge>,
    collider: Entity,
) -> Seq<ContactEdge> {
    choose|edges: Seq<ContactEdge>| are_edges_with(edges, graph, collider)
}

/// There is only one way to list the contact pairs of a collider by ascending identifier.
pub proof fn lemma_edges_with(
    edges: Seq<ContactEdge>,
    graph: Map<ContactId, ContactEdge>,
    collider: Entity,
)
    requires
        are_edges_with(edges, graph, collider),
    ensures
        edges == edges_with(graph, collider),
{
    let other = edges_with(graph, collider);
    assert(are_edges_with(other, graph, collider));
    assert forall|i: int| 0 <= i < edges.len() implies other.contains(#[trigger] edges[i]) by {
        assert(lists_id(other, edges[i].id));
        let j = choose|j: int| 0 <= j < other.len() && (#[trigger] other[j]).id == edges[i].id;
        assert(other[j] == edges[i]);
    }
    assert forall|i: int| 0 <= i < other.len() implies edges.contains(#[trigger] other[i]) by {
        assert(lists_id(edges, other[i].id));
        let j = choose|j: int| 0 <= j < edges.len() && (#[trigger] edges[j]).id == other[i].id;
        assert(edges[j] == other[i]);
    }
    lemma_ascending_unique(edges, other);
}

proof fn lemma_ascending_unique(a: Seq<ContactEdge>, b: Seq<ContactEdge>)
    requires
        forall|i: int, j: int|
            0 <= i < j < a.len() ==> (#[trigger] a[i]).id.0 < (#[trigger] a[j]).id.0,
        forall|i: int, j: int|
            0 <= i < j < b.len() ==> (#[trigger] b[i]).id.0 < (#[trigger] b[j]).id.0,
        forall|i: int| 0 <= i < a.len() ==> b.contains(#[trigger] a[i]),
        forall|i: int| 0 <= i < b.len() ==> a.contains(#[trigger] b[i]),
    ensures
        a == b,
    decreases a.len(),
{
    if a.len() == 0 {
        if b.len() > 0 {
            assert(a.contains(b[0]));
        }
        assert(a =~= b);
    } else {
        assert(b.contains(a.last()));
        let n = choose|n: int| 0 <= n < b.len() && b[n] == a.last();
        assert(a.contains(b.last()));
        let m = choose|m: int| 0 <= m < a.len() && a[m] == b.last();
        assert(n == b.len() - 1 && m == a.len() - 1) by {
            if n < b.len() - 1 {
                assert(b[n].id.0 < b[b.len() - 1].id.0);
                if m < a.len() - 1 {
                    assert(a[m].id.0 < a[a.len() - 1].id.0);
                }
            } else if m < a.len() - 1 {
                assert(a[m].id.0 < a[a.len() - 1].id.0);
            }
        }
        let a1 = a.drop_last();
        let b1 = b.drop_last();
        assert forall|i: int| 0 <= i < a1.len() implies b1.contains(#[trigger] a1[i]) by {
            assert(b.contains(a[i]));
            let j = choose|j: int| 0 <= j < b.len() && b[j] == a[i];
            assert(a[i].id.0 < a[a.len() - 1].id.0);
            assert(b1[j] == a1[i]);
        }
        assert forall|i: int| 0 <= i < b1.len() implies a1.contains(#[trigger] b1[i]) by {
            assert(a.contains(b[i]));
            let j = choose|j: int| 0 <= j < a.len() && a[j] == b[i];
            assert(b[i].id.0 < b[b.len() - 1].id.0);
            assert(a1[j] == b1[i]);
        }
        lemma_ascending_unique(a1, b1);
        assert(a =~= a1.push(a.last()));
        assert(b =~= b1.push(b.last()));
    }
}

impl ContactGraph {
    /// The contact pairs, by identifier.
    pub closed spec fn view(&self) -> Map<ContactId, ContactEdge> {
        Map::new(
            |id: ContactId| self.edges@.contains_key(id.0 as usize),
            |id: ContactId| self.edges@[id.0 as usize],
        )
    }

    /// The keys of the pairs that are known to the graph.
    pub closed spec fn keys(&self) -> Set<PairKey> {
        Set::new(|key: PairKey| self.pairs@.contains(key.0))
    }

    /// The number of identifiers ever used.
    pub closed spec fn slots(&self) -> nat {
        self.edges.slots()
    }

    /// The identifier that the next contact pair gets.
    pub closed spec fn next_id(&self) -> ContactId {
        ContactId(self.edges.next_index() as u32)
    }

    pub closed spec fn wf(&self) -> bool {
        &&& self.edges.wf()
        &&& self.edges.slots() <= u32::MAX
        &&& forall|i: usize| #[trigger]
            self.edges@.contains_key(i) ==> self.edges@[i].id.0 == i
    }

    /// Every contact pair is stored under its identifier.
    pub proof fn lemma_ids(&self)
        requires
            self.wf(),
        ensures
            forall|id: ContactId| #[trigger] self@.contains_key(id) ==> self@[id].id == id,
            !self@.contains_key(self.next_id()),
    {
        self.edges.lemma_bounds();
    }

    /// The contact pairs of a collider can be listed by ascending identifier.
    pub proof fn edges_are_listed(&self, collider: Entity)
        requires
            self.wf(),
        ensures
            are_edges_with(edges_with(self@, collider), self@, collider),
    {
        self.edges.lemma_bounds();
        let edges = self.listing(collider, self.slots());
        assert(are_edges_with(edges, self@, collider)) by {
            assert forall|id: ContactId| #[trigger]
                self@.contains_key(id) && self@[id].is_of(collider) implies lists_id(edges, id) by {
                assert(self.edges@.contains_key(id.0 as usize));
            }
        }
    }

    /// The contact pairs of a collider with an identifier below `n`.
    proof fn listing(&self, collider: Entity, n: nat) -> (edges: Seq<ContactEdge>)
        requires
            self.wf(),
            n <= self.slots(),
        ensures
            forall|i: int|
                0 <= i < edges.len() ==> self@.contains_key((#[trigger] edges[i]).id)
                    && self@[edges[i].id] == edges[i] && edges[i].is_of(collider)
                    && edges[i].id.0 < n,
            forall|id: ContactId| #[trigger]
                self@.contains_key(id) && self@[id].is_of(collider) && id.0 < n ==> lists_id(
                    edges,
                    id,
                ),
            forall|i: int, j: int|
                0 <= i < j < edges.len() ==> (#[trigger] edges[i]).id.0 < (#[trigger] edges[j]).id.0,
        decreases n,
    {
        if n == 0 {
            Seq::empty()
        } else {
            let rest = self.listing(collider, (n - 1) as nat);
            let last = ContactId((n - 1) as u32);
            let edges = if self@.contains_key(last) && self@[last].is_of(collider) {
                rest.push(self@[last])
            } else {
                rest
            };
            assert forall|id: ContactId| #[trigger]
                self@.contains_key(id) && self@[id].is_of(collider) && id.0 < n implies lists_id(
                edges,
                id,
            ) by {
                if id == last {
                    assert(edges[rest.len() as int].id == id);
                } else {
                    assert(lists_id(rest, id));
                    let i = choose|i: int| 0 <= i < rest.len() && (#[trigger] rest[i]).id == id;
                    assert(edges[i].id == id);
                }
            }
            edges
        }
    }

    /// The number of identifiers ever used.
    pub fn slot_count(&self) -> (slots: usize)
        ensures
            slots == self.slots(),
    {
        self.edges.slot_count()
    }

    /// A graph without contact pairs.
    pub fn new() -> (graph: Self)
        ensures
            graph.wf(),
            graph@ == Map::<ContactId, ContactEdge>::empty(),
            graph.keys() == Set::<PairKey>::empty(),
            graph.slots() == 0,
    {
        broadcast use vstd::std_specs::hash::group_hash_axioms;

        let graph = ContactGraph { edges: StableVec::new(), pairs: HashSet::new() };
        assert(graph@ =~= Map::<ContactId, ContactEdge>::empty());
        assert(graph.keys() =~= Set::<PairKey>::empty());
        graph
    }

    /// Adds a contact pair, and returns the identifier that it got.
    pub fn add_edge(&mut self, edge: ContactEdge) -> (id: ContactId)
        requires
            old(self).wf(),
            old(self).slots() < u32::MAX,
        ensures
            final(self).wf(),
            id == old(self).next_id(),
            !old(self)@.contains_key(id),
            final(self)@ == old(self)@.insert(id, (ContactEdge { id, ..edge })),
            final(self).keys() == old(self).keys().insert(edge.key()),
            old(self).slots() <= final(self).slots() <= old(self).slots() + 1,
    {
        broadcast use vstd::std_specs::hash::group_hash_axioms;

        proof {
            self.edges.lemma_bounds();
        }
        let id = ContactId(self.edges.next_push_index() as u32);
        let key = PairKey::new(edge.collider1.index, edge.collider2.index);
        self.edges.push(ContactEdge { id, ..edge });
        self.pairs.insert(key.0);
        assert(self@ =~= old(self)@.insert(id, (ContactEdge { id, ..edge })));
        assert(self.keys() =~= old(self).keys().insert(edge.key()));
        id
    }

    /// The contact pair with the given identifier, if there is one.
    pub fn get_edge_by_id(&self, id: ContactId) -> (edge: Option<&ContactEdge>)
        ensures
            edge is Some <==> self@.contains_key(id),
            edge matches Some(e) ==> *e == self@[id],
    {
        self.edges.get(id.0 as usize)
    }

    /// Whether a pair of colliders is known to the graph.
    pub fn contains_key(&self, key: PairKey) -> (known: bool)
        ensures
            known == self.keys().contains(key),
    {
        broadcast use vstd::std_specs::hash::group_hash_axioms;

        self.pairs.contains(&key.0)
    }

    /// Replaces a contact pair.
    pub fn set_edge(&mut self, id: ContactId, edge: ContactEdge)
        requires
            old(self).wf(),
            old(self)@.contains_key(id),
            edge.id == id,
        ensures
            final(self).wf(),
            final(self)@ == old(self)@.insert(id, edge),
            final(self).keys() == old(self).keys(),
            final(self).slots() == old(self).slots(),
            final(self).next_id() == old(self).next_id(),
    {
        self.edges.set(id.0 as usize, edge);
        assert(self@ =~= old(self)@.insert(id, edge));
        assert(self.keys() =~= old(self).keys());
    }

    /// The contact pairs of a collider.
    pub fn contact_edges_with(&self, collider: Entity) -> (edges: Vec<ContactEdge>)
        requires
            self.wf(),
        ensures
            are_edges_with(edges@, self@, collider),
            edges@ == edges_with(self@, collider),
    {
        let mut edges: Vec<ContactEdge> = Vec::new();
        let slots: usize = self.edges.slot_count();
        let mut i: usize = 0;
        while i < slots
            invariant
                self.wf(),
                slots == self.slots(),
                i <= slots,
                forall|k: int|
                    0 <= k < edges@.len() ==> self@.contains_key((#[trigger] edges@[k]).id)
                        && self@[edges@[k].id] == edges@[k] && edges@[k].is_of(collider)
                        && edges@[k].id.0 < i,
                forall|id: ContactId| #[trigger]
                    self@.contains_key(id) && self@[id].is_of(collider) && id.0 < i ==> lists_id(
                        edges@,
                        id,
                    ),
                forall|k: int, l: int|
                    0 <= k < l < edges@.len() ==> (#[trigger] edges@[k]).id.0 < (
                    #[trigger] edges@[l]).id.0,
            decreases slots - i,
        {
            let ghost before = edges@;
            if let Some(edge) = self.edges.get(i) {
                if edge.collider1 == collider || edge.collider2 == collider {
                    edges.push(*edge);
                    assert(edges@[before.len() as int].id.0 == i);
                }
            }
            i = i + 1;
            proof {
                assert forall|id: ContactId| #[trigger]
                    self@.contains_key(id) && self@[id].is_of(collider) && id.0 < i implies lists_id(
                    edges@,
                    id,
                ) by {
                    if id.0 < i - 1 {
                        let k = choose|k: int| 0 <= k < before.len() && before[k].id == id;
                        assert(edges@[k].id == id);
                    } else {
                        assert(edges@[before.len() as int].id == id);
                    }
                }
            }
        }
        proof {
            self.edges.lemma_bounds();
            assert forall|id: ContactId| #[trigger]
                self@.contains_key(id) && self@[id].is_of(collider) implies lists_id(edges@, id) by {
                assert(self.edges@.contains_key(id.0 as usize));
            }
            lemma_edges_with(edges@, self@, collider);
        }
        edges
    }

    /// Removes the contact pair with the given identifier, and forgets the given key.
    /// Returns the pair, if there was one.
    pub fn remove_edge_by_id(&mut self, key: PairKey, id: ContactId) -> (edge: Option<ContactEdge>)
        requires
            old(self).wf(),
        ensures
            final(self).wf(),
            edge is Some <==> old(self)@.contains_key(id),
            edge matches Some(e) ==> e == old(self)@[id],
            final(self)@ == old(self)@.remove(id),
            final(self).keys() == if edge is Some {
                old(self).keys().remove(key)
            } else {
                old(self).keys()
            },
            final(self).slots() == old(self).slots(),
            final(self).next_id() == if edge is Some {
                id
            } else {
                old(self).next_id()
            },
    {
        broadcast use vstd::std_specs::hash::group_hash_axioms;

        if self.edges.get(id.0 as usize).is_none() {
            assert(self@ =~= old(self)@.remove(id));
            return None;
        }
        let edge = self.edges.remove(id.0 as usize);
        self.pairs.remove(&key.0);
        assert(self@ =~= old(self)@.remove(id));
        assert(self.keys() =~= old(self).keys().remove(key));
        Some(edge)
    }
}

} // verus!
