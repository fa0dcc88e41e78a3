//! A simulation island: the bodies, contacts, and joints that sleep and wake up together.

use vstd::prelude::*;

use crate::entity::{ContactId, Entity, JointId};
use crate::islands::list::{is_id, is_list, node_ok, ListEnds};
use crate::islands::node::{BodyIslands, IslandId, IslandNode, NodeId, NodeStore, NodeTable};

verus! {

/// A simulation island that contains bodies, contacts, and joints. Used for sleeping and waking.
///
/// Bodies, contacts, and joints are linked to islands with linked lists, for quick addition,
/// removal, and merging. An island stores the head and the tail of each list. An `IslandNode`
/// links each item to the next and the previous item.
///
/// Times are held as the bit patterns of non-negative single precision numbers: their order as
/// integers is the order of the times.
#[derive(Clone, Copy, Debug, PartialEq, Eq)]
pub struct PhysicsIsland {
    pub id: IslandId,
    pub head_body: Option<Entity>,
    pub tail_body: Option<Entity>,
    pub body_count: u32,
    pub head_contact: Option<ContactId>,
    pub tail_contact: Option<ContactId>,
    pub contact_count: u32,
    pub head_joint: Option<JointId>,
    pub tail_joint: Option<JointId>,
    pub joint_count: u32,
    pub sleep_timer: u32,
    pub is_sleeping: bool,
    pub constraints_removed: u32,
}

/// An awake island without bodies, contacts, or joints.
pub open spec fn new_island(id: IslandId) -> PhysicsIsland {
    PhysicsIsland {
        id,
        head_body: None,
        tail_body: None,
        body_count: 0,
        head_contact: None,
        tail_contact: None,
        contact_count: 0,
        head_joint: None,
        tail_joint: None,
        joint_count: 0,
        sleep_timer: 0,
        is_sleeping: false,
        constraints_removed: 0,
    }
}

impl PhysicsIsland {
    /// The ends of the list of bodies.
    pub open spec fn body_list(&self) -> ListEnds<Entity> {
        ListEnds { head: self.head_body, tail: self.tail_body, count: self.body_count }
    }

    /// The ends of the list of contacts.
    pub open spec fn contact_list(&self) -> ListEnds<ContactId> {
        ListEnds { head: self.head_contact, tail: self.tail_contact, count: self.contact_count }
    }

    /// The ends of the list of joints.
    pub open spec fn joint_list(&self) -> ListEnds<JointId> {
        ListEnds { head: self.head_joint, tail: self.tail_joint, count: self.joint_count }
    }

    /// The island with another list of bodies.
    pub open spec fn with_body_list(self, ends: ListEnds<Entity>) -> Self {
        PhysicsIsland {
            head_body: ends.head,
            tail_body: ends.tail,
            body_count: ends.count,
            ..self
        }
    }

    /// The island with another list of contacts.
    pub open spec fn with_contact_list(self, ends: ListEnds<ContactId>) -> Self {
        PhysicsIsland {
            head_contact: ends.head,
            tail_contact: ends.tail,
            contact_count: ends.count,
            ..self
        }
    }

    /// The island with another list of joints.
    pub open spec fn with_joint_list(self, ends: ListEnds<JointId>) -> Self {
        PhysicsIsland {
            head_joint: ends.head,
            tail_joint: ends.tail,
            joint_count: ends.count,
            ..self
        }
    }

    /// A new island with the given identifier.
    pub fn new(id: IslandId) -> (island: Self)
        ensures
            island == new_island(id),
    {
        PhysicsIsland {
            id,
            head_body: None,
            tail_body: None,
            body_count: 0,
            head_contact: None,
            tail_contact: None,
            contact_count: 0,
            head_joint: None,
            tail_joint: None,
            joint_count: 0,
            sleep_timer: 0,
            is_sleeping: false,
            constraints_removed: 0,
        }
    }

    /// The identifier of the island.
    pub fn id(&self) -> (id: IslandId)
        ensures
            id == self.id,
    {
        self.id
    }

    /// The number of bodies in the island.
    pub fn body_count(&self) -> (count: u32)
        ensures
            count == self.body_count,
    {
        self.body_count
    }

    /// The number of contacts in the island.
    pub fn contact_count(&self) -> (count: u32)
        ensures
            count == self.contact_count,
    {
        self.contact_count
    }

    /// The number of joints in the island.
    pub fn joint_count(&self) -> (count: u32)
        ensures
            count == self.joint_count,
    {
        self.joint_count
    }

    /// Whether the island is sleeping.
    pub fn is_sleeping(&self) -> (sleeping: bool)
        ensures
            sleeping == self.is_sleeping,
    {
        self.is_sleeping
    }

    /// The number of constraints that have been removed from the island.
    pub fn constraints_removed(&self) -> (count: u32)
        ensures
            count == self.constraints_removed,
    {
        self.constraints_removed
    }

    /// The ends of the list of bodies.
    pub fn body_ends(&self) -> (ends: ListEnds<Entity>)
        ensures
            ends == self.body_list(),
    {
        ListEnds { head: self.head_body, tail: self.tail_body, count: self.body_count }
    }

    /// The ends of the list of contacts.
    pub fn contact_ends(&self) -> (ends: ListEnds<ContactId>)
        ensures
            ends == self.contact_list(),
    {
        ListEnds { head: self.head_contact, tail: self.tail_contact, count: self.contact_count }
    }

    /// The ends of the list of joints.
    pub fn joint_ends(&self) -> (ends: ListEnds<JointId>)
        ensures
            ends == self.joint_list(),
    {
        ListEnds { head: self.head_joint, tail: self.tail_joint, count: self.joint_count }
    }

    /// Sets the ends of the list of bodies.
    pub fn set_body_ends(&mut self, ends: ListEnds<Entity>)
        ensures
            *final(self) == old(self).with_body_list(ends),
    {
        self.head_body = ends.head;
        self.tail_body = ends.tail;
        self.body_count = ends.count;
    }

    /// Sets the ends of the list of contacts.
    pub fn set_contact_ends(&mut self, ends: ListEnds<ContactId>)
        ensures
            *final(self) == old(self).with_contact_list(ends),
    {
        self.head_contact = ends.head;
        self.tail_contact = ends.tail;
        self.contact_count = ends.count;
    }

    /// Sets the ends of the list of joints.
    pub fn set_joint_ends(&mut self, ends: ListEnds<JointId>)
        ensures
            *final(self) == old(self).with_joint_list(ends),
    {
        self.head_joint = ends.head;
        self.tail_joint = ends.tail;
        self.joint_count = ends.count;
    }

    /// Whether the lists of the island can be walked from head to tail, and have the right lengths.
    pub fn validate(
        &self,
        body_islands: &BodyIslands,
        contact_nodes: &NodeTable<ContactId>,
        joint_nodes: &NodeTable<JointId>,
    ) -> (valid: bool)
        ensures
            valid == (walkable(body_islands.nodes(), self.id, self.body_list()) && walkable(
                contact_nodes.nodes(),
                self.id,
                self.contact_list(),
            ) && walkable(joint_nodes.nodes(), self.id, self.joint_list())),
    {
        self.validate_bodies(body_islands) && self.validate_contacts(contact_nodes)
            && self.validate_joints(joint_nodes)
    }

    /// Whether the list of bodies can be walked from head to tail, and has the right length.
    pub fn validate_bodies(&self, body_islands: &BodyIslands) -> (valid: bool)
        ensures
            valid == walkable(body_islands.nodes(), self.id, self.body_list()),
    {
        validate_list(body_islands, self.id, self.body_ends())
    }

    /// Whether the list of contacts can be walked from head to tail, and has the right length.
    pub fn validate_contacts(&self, contact_nodes: &NodeTable<ContactId>) -> (valid: bool)
        ensures
            valid == walkable(contact_nodes.nodes(), self.id, self.contact_list()),
    {
        validate_list(contact_nodes, self.id, self.contact_ends())
    }

    /// Whether the list of joints can be walked from head to tail, and has the right length.
    pub fn validate_joints(&self, joint_nodes: &NodeTable<JointId>) -> (valid: bool)
        ensures
            valid == walkable(joint_nodes.nodes(), self.id, self.joint_list()),
    {
        validate_list(joint_nodes, self.id, self.joint_ends())
    }
}

/// Whether member `i` of a walk through the list of an island has a node of the island that leads
/// to the next member.
pub open spec fn step_ok<Id>(
    nodes: Map<Id, IslandNode<Id>>,
    island: IslandId,
    s: Seq<Id>,
    i: int,
) -> bool {
    &&& nodes.contains_key(s[i])
    &&& nodes[s[i]].island_id == island
    &&& i + 1 < s.len() ==> nodes[s[i]].next == Some(s[i + 1])
}

/// Whether `s` is a walk through the list of an island, from its head to its tail.
pub open spec fn is_walk<Id>(
    nodes: Map<Id, IslandNode<Id>>,
    island: IslandId,
    s: Seq<Id>,
    ends: ListEnds<Id>,
) -> bool {
    &&& s.len() == ends.count
    &&& if s.len() == 0 {
        ends.head is None && ends.tail is None
    } else {
        &&& ends.head == Some(s[0])
        &&& ends.tail == Some(s.last())
        &&& nodes[s.last()].next is None
    }
    &&& forall|i: int| 0 <= i < s.len() ==> #[trigger] step_ok(nodes, island, s, i)
}

/// Whether the list of an island can be walked from its head to its tail, in as many steps as the
/// island counts, past nodes of the island only.
pub open spec fn walkable<Id>(
    nodes: Map<Id, IslandNode<Id>>,
    island: IslandId,
    ends: ListEnds<Id>,
) -> bool {
    exists|s: Seq<Id>| is_walk(nodes, island, s, ends)
}

/// Whether the list of an island can be walked from its head to its tail.
fn validate_list<Id: NodeId, S: NodeStore<Id>>(
    store: &S,
    island: IslandId,
    ends: ListEnds<Id>,
) -> (valid: bool)
    ensures
        valid == walkable(store.nodes(), island, ends),
{
    let ghost nodes = store.nodes();
    if ends.head.is_none() {
        let valid = ends.tail.is_none() && ends.count == 0;
        proof {
            if valid {
                assert(is_walk(nodes, island, Seq::empty(), ends));
            }
        }
        return valid;
    }
    let mut count: u32 = 0;
    let mut next = ends.head;
    let ghost mut seen: Seq<Id> = Seq::empty();
    while next.is_some()
        invariant
            nodes == store.nodes(),
            ends.head is Some,
            seen.len() == count,
            count <= ends.count,
            count == 0 ==> next == ends.head,
            count > 0 ==> ends.head == Some(seen[0]) && next == nodes[seen.last()].next,
            count > 0 && count == ends.count ==> ends.tail == Some(seen.last()),
            forall|i: int| 0 <= i < count ==> #[trigger] step_ok(nodes, island, seen, i),
            forall|t: Seq<Id>, i: int|
                is_walk(nodes, island, t, ends) && 0 <= i < count ==> #[trigger] t[i] == seen[i],
        decreases ends.count - count,
    {
        let id = next.unwrap();
        proof {
            // Every walk goes on with `id`.
            assert forall|t: Seq<Id>| is_walk(nodes, island, t, ends) implies t.len() > count
                && t[count as int] == id by {
                if count > 0 {
                    assert(t[count - 1] == seen[count - 1]);
                    assert(step_ok(nodes, island, t, count - 1));
                }
            }
        }
        if count == ends.count {
            return false;
        }
        let node = match store.node(id) {
            Some(node) => node,
            None => {
                proof {
                    assert forall|t: Seq<Id>| is_walk(nodes, island, t, ends) implies false by {
                        assert(step_ok(nodes, island, t, count as int));
                    }
                }
                return false;
            },
        };
        if node.island_id.0 != island.0 {
            proof {
                assert forall|t: Seq<Id>| is_walk(nodes, island, t, ends) implies false by {
                    assert(step_ok(nodes, island, t, count as int));
                }
            }
            return false;
        }
        let ghost before = seen;
        proof {
            seen = seen.push(id);
            assert forall|i: int| 0 <= i < seen.len() implies #[trigger] step_ok(
                nodes,
                island,
                seen,
                i,
            ) by {
                if i < before.len() {
                    assert(step_ok(nodes, island, before, i));
                }
            }
        }
        count = count + 1;
        if count == ends.count && !is_id(ends.tail, id) {
            proof {
                assert forall|t: Seq<Id>| is_walk(nodes, island, t, ends) implies false by {
                    assert(t[count - 1] == id);
                }
            }
            return false;
        }
        next = node.next;
    }
    proof {
        if count == ends.count {
            assert(is_walk(nodes, island, seen, ends));
        } else {
            assert forall|t: Seq<Id>| is_walk(nodes, island, t, ends) implies false by {
                assert(t[count - 1] == seen[count - 1]);
                assert(step_ok(nodes, island, t, count - 1));
            }
        }
    }
    count == ends.count
}

/// A list that is linked up is valid.
pub proof fn list_is_walkable<Id>(
    nodes: Map<Id, IslandNode<Id>>,
    island: IslandId,
    s: Seq<Id>,
    ends: ListEnds<Id>,
)
    requires
        is_list(nodes, island, s, ends),
    ensures
        walkable(nodes, island, ends),
{
    reveal(is_list);
    assert forall|i: int| 0 <= i < s.len() implies #[trigger] step_ok(nodes, island, s, i) by {
        assert(node_ok(nodes, island, s, i));
    }
    if s.len() > 0 {
        assert(node_ok(nodes, island, s, s.len() - 1));
    }
    assert(is_walk(nodes, island, s, ends));
}

} // verus!
