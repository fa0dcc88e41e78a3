//! The graph of joints between bodies.

use vstd::prelude::*;
use std::collections::HashMap;

use crate::entity::{entity_bits, entity_bits_injective, Entity, JointId};
use crate::stable_vec::StableVec;

verus! {

/// A joint between two bodies.
#[derive(Clone, Copy, Debug, PartialEq, Eq)]
pub struct JointGraphEdge {
    pub id: JointId,
    /// The entity that holds the joint.
    pub entity: Entity,
    pub body1: Entity,
    pub body2: Entity,
    /// Whether the bodies may not collide with each other.
    pub collision_disabled: bool,
}

impl JointGraphEdge {
    /// Whether the given body is one of the two.
    pub open spec fn is_of(&self, body: Entity) -> bool {
        self.body1 == body || self.body2 == body
    }

    /// A joint that has no identifier yet.
    pub fn new(
        entity: Entity,
        body1: Entity,
        body2: Entity,
        collision_disabled: bool,
    ) -> (edge: Self)
        ensures
            edge == (JointGraphEdge {
                id: JointId(0xffff_ffff),
                entity,
                body1,
                body2,
                collision_disabled,
            }),
    {
        JointGraphEdge { id: JointId(0xffff_ffff), entity, body1, body2, collision_disabled }
    }
}

/// The joints, by identifier, and the joint that each entity holds.
#[derive(Clone, Debug)]
pub struct JointGraph {
    edges: StableVec<JointGraphEdge>,
    joint_of: HashMap<u64, u32>,
}

/// Whether a joint with the given identifier is one of the given edges.
pub open spec fn lists_joint(edges: Seq<JointGraphEdge>, id: JointId) -> bool {
    exists|i: int| 0 <= i < edges.len() && (#[trigger] edges[i]).id == id
}

/// Whether the sequence holds the joints of a body, by ascending identifier.
pub open spec fn are_joints_of(
    edges: Seq<JointGraphEdge>,
    graph: Map<JointId, JointGraphEdge>,
    body: Entity,
) -> bool {
    &&& forall|i: int|
        0 <= i < edges.len() ==> graph.contains_key((#[trigger] edges[i]).id)
            && graph[edges[i].id] == edges[i] && edges[i].is_of(body)
    &&& forall|id: JointId| #[trigger]
        graph.contains_key(id) && graph[id].is_of(body) ==> lists_joint(edges, id)
    &&& forall|i: int, j: int|
        0 <= i < j < edges.len() ==> (#[trigger] edges[i]).id.0 < (#[trigger] edges[j]).id.0
}

impl JointGraph {
    /// The joints, by identifier.
    pub closed spec fn view(&self) -> Map<JointId, JointGraphEdge> {
        Map::new(
            |id: JointId| self.edges@.contains_key(id.0 as usize),
            |id: JointId| self.edges@[id.0 as usize],
        )
    }

    /// The joint that each entity holds.
    pub closed spec fn held(&self) -> Map<Entity, JointId> {
        Map::new(
            |entity: Entity| self.joint_of@.contains_key(entity_bits(entity)),
            |entity: Entity| JointId(self.joint_of@[entity_bits(entity)]),
        )
    }

    /// The number of identifiers ever used.
    pub closed spec fn slots(&self) -> nat {
        self.edges.slots()
    }

    /// The identifier that the next joint gets.
    pub closed spec fn next_id(&self) -> JointId {
        JointId(self.edges.next_index() as u32)
    }

    pub closed spec fn wf(&self) -> bool {
        &&& self.edges.wf()
        &&& self.edges.slots() <= u32::MAX
        &&& forall|i: usize| #[trigger]
            self.edges@.contains_key(i) ==> self.edges@[i].id.0 == i
        &&& forall|entity: Entity| #[trigger]
            self.held().contains_key(entity) ==> self@.contains_key(self.held()[entity])
                && self@[self.held()[entity]].entity == entity
    }

    /// Every joint is stored under its identifier, and what an entity holds is a joint of it.
    pub proof fn lemma_ids(&self)
        requires
            self.wf(),
        ensures
            forall|id: JointId| #[trigger] self@.contains_key(id) ==> self@[id].id == id,
            forall|entity: Entity| #[trigger]
                self.held().contains_key(entity) ==> self@.contains_key(self.held()[entity])
                    && self@[self.held()[entity]].entity == entity,
            !self@.contains_key(self.next_id()),
    {
        self.edges.lemma_bounds();
    }

    /// The number of identifiers ever used.
    pub fn slot_count(&self) -> (slots: usize)
        ensures
            slots == self.slots(),
    {
        self.edges.slot_count()
    }

    /// A graph without joints.
    pub fn new() -> (graph: Self)
        ensures
            graph.wf(),
            graph@ == Map::<JointId, JointGraphEdge>::empty(),
            graph.held() == Map::<Entity, JointId>::empty(),
            graph.slots() == 0,
    {
        broadcast use vstd::std_specs::hash::group_hash_axioms;

        let graph = JointGraph { edges: StableVec::new(), joint_of: HashMap::new() };
        assert(graph@ =~= Map::<JointId, JointGraphEdge>::empty());
        assert(graph.held() =~= Map::<Entity, JointId>::empty());
        graph
    }

    /// The joint with the given identifier, if there is one.
    pub fn get_by_id(&self, id: JointId) -> (edge: Option<&JointGraphEdge>)
        ensures
            edge is Some <==> self@.contains_key(id),
            edge matches Some(e) ==> *e == self@[id],
    {
        self.edges.get(id.0 as usize)
    }

    /// The joint that the given entity holds, if there is one.
    pub fn get(&self, entity: Entity) -> (edge: Option<&JointGraphEdge>)
        requires
            self.wf(),
        ensures
            edge is Some <==> self.held().contains_key(entity),
            edge matches Some(e) ==> *e == self@[self.held()[entity]],
    {
        broadcast use vstd::std_specs::hash::group_hash_axioms;

        match self.joint_of.get(&entity.to_bits()) {
            Some(id) => {
                proof {
                    assert(self.held().contains_key(entity));
                    assert(self@.contains_key(self.held()[entity]));
                }
                self.edges.get(*id as usize)
            },
            None => None,
        }
    }

    /// The bodies of the joint that the given entity holds, if there is one.
    pub fn bodies_of(&self, entity: Entity) -> (bodies: Option<(Entity, Entity)>)
        requires
            self.wf(),
        ensures
            bodies is Some <==> self.held().contains_key(entity),
            bodies matches Some(pair) ==> pair.0 == self@[self.held()[entity]].body1 && pair.1
                == self@[self.held()[entity]].body2,
    {
        match self.get(entity) {
            Some(edge) => Some((edge.body1, edge.body2)),
            None => None,
        }
    }

    /// The joints of a body.
    pub fn joints_of(&self, body: Entity) -> (edges: Vec<JointGraphEdge>)
        requires
            self.wf(),
        ensures
            are_joints_of(edges@, self@, body),
    {
        let mut edges: Vec<JointGraphEdge> = Vec::new();
        let slots: usize = self.edges.slot_count();
        let mut i: usize = 0;
        while i < slots
            invariant
                self.wf(),
                slots == self.slots(),
                i <= slots,
                forall|k: int|
                    0 <= k < edges@.len() ==> self@.contains_key((#[trigger] edges@[k]).id)
                        && self@[edges@[k].id] == edges@[k] && edges@[k].is_of(body)
                        && edges@[k].id.0 < i,
                forall|id: JointId| #[trigger]
                    self@.contains_key(id) && self@[id].is_of(body) && id.0 < i ==> lists_joint(
                        edges@,
                        id,
                    ),
                forall|k: int, l: int|
                    0 <= k < l < edges@.len() ==> (#[trigger] edges@[k]).id.0 < (
                    #[trigger] edges@[l]).id.0,
            decreases slots - i,
        {
            let ghost before = edges@;
            if let Some(edge) = self.edges.get(i) {
                if edge.body1 == body || edge.body2 == body {
                    edges.push(*edge);
                    assert(edges@[before.len() as int].id.0 == i);
                }
            }
            i = i + 1;
            proof {
                assert forall|id: JointId| #[trigger]
                    self@.contains_key(id) && self@[id].is_of(body) && id.0 < i implies lists_joint(
                    edges@,
                    id,
                ) by {
                    if id.0 < i - 1 {
                        let k = choose|k: int| 0 <= k < before.len() && before[k].id == id;
                        assert(edges@[k].id == id);
                    } else {
                        assert(edges@[before.len() as int].id == id);
                    }
                }
            }
        }
        proof {
            self.edges.lemma_bounds();
            assert forall|id: JointId| #[trigger]
                self@.contains_key(id) && self@[id].is_of(body) implies lists_joint(edges@, id) by {
                assert(self.edges@.contains_key(id.0 as usize));
            }
        }
        edges
    }

    /// Adds a joint, and returns the identifier that it got. From now on its entity holds it.
    pub fn add_joint(&mut self, edge: JointGraphEdge) -> (id: JointId)
        requires
            old(self).wf(),
            old(self).slots() < u32::MAX,
        ensures
            final(self).wf(),
            id == old(self).next_id(),
            !old(self)@.contains_key(id),
            final(self)@ == old(self)@.insert(id, (JointGraphEdge { id, ..edge })),
            final(self).held() == old(self).held().insert(edge.entity, id),
            final(self).slots() == if id.0 < old(self).slots() {
                old(self).slots()
            } else {
                old(self).slots() + 1
            },
    {
        broadcast use vstd::std_specs::hash::group_hash_axioms;

        proof {
            self.edges.lemma_bounds();
        }
        let id = JointId(self.edges.next_push_index() as u32);
        self.edges.push(JointGraphEdge { id, ..edge });
        self.joint_of.insert(edge.entity.to_bits(), id.0);
        proof {
            assert forall|other: Entity| other != edge.entity implies #[trigger] entity_bits(other)
                != entity_bits(edge.entity) by {
                if entity_bits(other) == entity_bits(edge.entity) {
                    entity_bits_injective(other, edge.entity);
                }
            }
            assert(self@ =~= old(self)@.insert(id, (JointGraphEdge { id, ..edge })));
            assert(self.held() =~= old(self).held().insert(edge.entity, id));
        }
        id
    }

    /// Removes the joint that the given entity holds, and returns it, if there was one.
    pub fn remove_joint(&mut self, entity: Entity) -> (edge: Option<JointGraphEdge>)
        requires
            old(self).wf(),
        ensures
            final(self).wf(),
            edge is Some <==> old(self).held().contains_key(entity),
            edge is None ==> *final(self) == *old(self),
            edge matches Some(e) ==> {
                &&& e == old(self)@[old(self).held()[entity]]
                &&& final(self)@ == old(self)@.remove(e.id)
                &&& final(self).held() == old(self).held().remove(entity)
                &&& final(self).slots() == old(self).slots()
                &&& final(self).next_id() == e.id
                &&& e.id.0 < old(self).slots()
            },
    {
        broadcast use vstd::std_specs::hash::group_hash_axioms;

        let id: u32 = match self.joint_of.get(&entity.to_bits()) {
            Some(id) => *id,
            None => {
                return None;
            },
        };
        proof {
            assert(self.held().contains_key(entity));
            assert(self@.contains_key(self.held()[entity]));
        }
        proof {
            self.edges.lemma_bounds();
        }
        self.joint_of.remove(&entity.to_bits());
        let edge = self.edges.remove(id as usize);
        proof {
            assert forall|other: Entity| other != entity implies #[trigger] entity_bits(other)
                != entity_bits(entity) by {
                if entity_bits(other) == entity_bits(entity) {
                    entity_bits_injective(other, entity);
                }
            }
            assert(self@ =~= old(self)@.remove(edge.id));
            assert(self.held() =~= old(self).held().remove(entity));
        }
        Some(edge)
    }
}

} // verus!
