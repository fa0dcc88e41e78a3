//! The nodes that link bodies, contacts, and joints to their islands, and the tables of nodes.

use vstd::prelude::*;
use vstd::string::StringExecFns;
use std::collections::HashMap;

use crate::entity::{entity_bits, entity_bits_injective, ContactId, Entity, JointId};

verus! {

/// A stable identifier of an island.
#[derive(Clone, Copy, Debug, PartialEq, Eq, PartialOrd, Ord, Structural)]
pub struct IslandId(pub u32);

/// The number of the island that stands for "not chosen yet".
pub const PLACEHOLDER_ISLAND: u32 = 0xffff_ffff;

impl IslandId {
    /// A placeholder for an island that has not been chosen yet.
    pub fn placeholder() -> (island_id: Self)
        ensures
            island_id == IslandId(PLACEHOLDER_ISLAND),
    {
        IslandId(PLACEHOLDER_ISLAND)
    }

    /// The identifier as text, such as `IslandId(7)`.
    pub fn label(&self) -> (label: String)
        ensures
            label@ == "IslandId("@ + decimal(self.0 as nat) + ")"@,
    {
        "IslandId(".to_owned().concat(decimal_text(self.0).as_str()).concat(")")
    }
}

/// The character that stands for a digit.
pub open spec fn digit(d: nat) -> char {
    (48 + d) as char
}

/// A number in decimal digits.
pub open spec fn decimal(n: nat) -> Seq<char>
    decreases n,
{
    if n < 10 {
        seq![digit(n)]
    } else {
        decimal(n / 10).push(digit(n % 10))
    }
}

fn digit_text(d: u32) -> (text: &'static str)
    requires
        d < 10,
    ensures
        text@ == seq![digit(d as nat)],
{
    proof {
        reveal_strlit("0");
        reveal_strlit("1");
        reveal_strlit("2");
        reveal_strlit("3");
        reveal_strlit("4");
        reveal_strlit("5");
        reveal_strlit("6");
        reveal_strlit("7");
        reveal_strlit("8");
        reveal_strlit("9");
    }
    match d {
        0 => "0",
        1 => "1",
        2 => "2",
        3 => "3",
        4 => "4",
        5 => "5",
        6 => "6",
        7 => "7",
        8 => "8",
        _ => "9",
    }
}

fn decimal_text(n: u32) -> (text: String)
    ensures
        text@ == decimal(n as nat),
    decreases n,
{
    if n < 10 {
        digit_text(n).to_owned()
    } else {
        decimal_text(n / 10).concat(digit_text(n % 10))
    }
}

/// A node of a linked list of an island.
#[derive(Clone, Copy, Debug, PartialEq, Eq)]
pub struct IslandNode<Id> {
    /// The island that the node belongs to.
    pub island_id: IslandId,
    /// The previous node of the list.
    pub prev: Option<Id>,
    /// The next node of the list.
    pub next: Option<Id>,
    /// Marks the node as visited by the depth-first search that splits an island.
    pub is_visited: bool,
}

impl<Id> IslandNode<Id> {
    /// A node of the given island that is linked to no other node.
    pub fn new(island_id: IslandId) -> (node: Self)
        ensures
            node == new_node::<Id>(island_id),
    {
        IslandNode { island_id, prev: None, next: None, is_visited: false }
    }

    /// A node of the placeholder island.
    pub fn placeholder() -> (node: Self)
        ensures
            node == new_node::<Id>(IslandId(PLACEHOLDER_ISLAND)),
    {
        IslandNode::new(IslandId::placeholder())
    }

    /// The island that the node belongs to.
    pub fn island_id(&self) -> (island_id: IslandId)
        ensures
            island_id == self.island_id,
    {
        self.island_id
    }
}

impl<Id> Default for IslandNode<Id> {
    /// A node of the placeholder island.
    fn default() -> (node: Self)
        ensures
            node == new_node::<Id>(IslandId(PLACEHOLDER_ISLAND)),
    {
        IslandNode::placeholder()
    }
}

/// A node of the given island that is linked to no other node.
pub open spec fn new_node<Id>(island_id: IslandId) -> IslandNode<Id> {
    IslandNode { island_id, prev: None, next: None, is_visited: false }
}

/// What can be a member of an island: something with an identifier that can be told apart.
pub trait NodeId: Copy {
    /// Whether two identifiers are the same.
    fn same(&self, other: &Self) -> (same: bool)
        ensures
            same == (*self == *other),
    ;
}

impl NodeId for Entity {
    fn same(&self, other: &Self) -> (same: bool) {
        self.index == other.index && self.generation == other.generation
    }
}

impl NodeId for ContactId {
    fn same(&self, other: &Self) -> (same: bool) {
        self.0 == other.0
    }
}

impl NodeId for JointId {
    fn same(&self, other: &Self) -> (same: bool) {
        self.0 == other.0
    }
}

/// A table of nodes by identifier.
pub trait NodeStore<Id: NodeId> {
    /// The nodes in the table.
    spec fn nodes(&self) -> Map<Id, IslandNode<Id>>;

    /// The node with the given identifier, if there is one.
    fn node(&self, id: Id) -> (node: Option<IslandNode<Id>>)
        ensures
            node is Some <==> self.nodes().contains_key(id),
            node matches Some(n) ==> n == self.nodes()[id],
    ;

    /// Sets the node with the given identifier.
    fn put(&mut self, id: Id, node: IslandNode<Id>)
        ensures
            final(self).nodes() == old(self).nodes().insert(id, node),
    ;

    /// Removes the node with the given identifier.
    fn take(&mut self, id: Id)
        ensures
            final(self).nodes() == old(self).nodes().remove(id),
    ;
}

/// Identifiers that count up from zero, so that a vector can be indexed by them.
pub trait DenseId: NodeId {
    spec fn dense(&self) -> u32;

    /// The index of the identifier.
    fn index(&self) -> (index: u32)
        ensures
            index == self.dense(),
    ;

    /// Two identifiers with the same index are the same.
    proof fn dense_injective(a: Self, b: Self)
        requires
            a.dense() == b.dense(),
        ensures
            a == b,
    ;
}

impl DenseId for ContactId {
    open spec fn dense(&self) -> u32 {
        self.0
    }

    fn index(&self) -> (index: u32) {
        self.0
    }

    proof fn dense_injective(a: Self, b: Self) {
    }
}

impl DenseId for JointId {
    open spec fn dense(&self) -> u32 {
        self.0
    }

    fn index(&self) -> (index: u32) {
        self.0
    }

    proof fn dense_injective(a: Self, b: Self) {
    }
}

/// A table of nodes, indexed by identifier. What is not part of any island has an empty entry.
#[verifier::reject_recursive_types(Id)]
#[derive(Clone, Debug)]
pub struct NodeTable<Id> {
    pub slots: Vec<Option<IslandNode<Id>>>,
}

impl<Id: DenseId> NodeTable<Id> {
    /// A table without nodes.
    pub fn new() -> (table: Self)
        ensures
            table.nodes() == Map::<Id, IslandNode<Id>>::empty(),
    {
        let table = NodeTable { slots: Vec::new() };
        assert(table.nodes() =~= Map::<Id, IslandNode<Id>>::empty());
        table
    }
}

impl<Id: DenseId> NodeStore<Id> for NodeTable<Id> {
    open spec fn nodes(&self) -> Map<Id, IslandNode<Id>> {
        Map::new(
            |id: Id| (id.dense() as int) < self.slots@.len() && self.slots@[id.dense() as int] is Some,
            |id: Id| self.slots@[id.dense() as int]->0,
        )
    }

    fn node(&self, id: Id) -> (node: Option<IslandNode<Id>>) {
        let index: usize = id.index() as usize;
        if index < self.slots.len() {
            self.slots[index]
        } else {
            None
        }
    }

    fn put(&mut self, id: Id, node: IslandNode<Id>) {
        let index: usize = id.index() as usize;
        while self.slots.len() <= index
            invariant
                index == id.dense(),
                self.nodes() == old(self).nodes(),
            decreases index + 1 - self.slots.len(),
        {
            let ghost before = *self;
            self.slots.push(None);
            assert(self.nodes() =~= before.nodes());
        }
        let ghost before = *self;
        self.slots.set(index, Some(node));
        proof {
            assert forall|other: Id| other != id implies #[trigger] other.dense() != id.dense() by {
                if other.dense() == id.dense() {
                    Id::dense_injective(other, id);
                }
            }
            assert(self.nodes() =~= before.nodes().insert(id, node));
        }
    }

    fn take(&mut self, id: Id) {
        let index: usize = id.index() as usize;
        if index < self.slots.len() {
            self.slots.set(index, None);
        }
        proof {
            assert forall|other: Id| other != id implies #[trigger] other.dense() != id.dense() by {
                if other.dense() == id.dense() {
                    Id::dense_injective(other, id);
                }
            }
            assert(self.nodes() =~= old(self).nodes().remove(id));
        }
    }
}

/// The node that links a rigid body to its island.
#[derive(Clone, Copy, Debug, PartialEq, Eq)]
pub struct BodyIslandNode(pub IslandNode<Entity>);

impl BodyIslandNode {
    /// A node of the given island that is linked to no other body.
    pub fn new(island_id: IslandId) -> (node: Self)
        ensures
            node.0 == new_node::<Entity>(island_id),
    {
        BodyIslandNode(IslandNode::new(island_id))
    }
}

impl Default for BodyIslandNode {
    /// A node of the placeholder island.
    fn default() -> (node: Self)
        ensures
            node.0 == new_node::<Entity>(IslandId(PLACEHOLDER_ISLAND)),
    {
        BodyIslandNode::new(IslandId::placeholder())
    }
}

/// The nodes of the rigid bodies that are part of an island.
#[derive(Clone, Debug)]
pub struct BodyIslands {
    table: HashMap<u64, BodyIslandNode>,
}

impl BodyIslands {
    /// A table without bodies.
    pub fn new() -> (bodies: Self)
        ensures
            bodies.nodes() == Map::<Entity, IslandNode<Entity>>::empty(),
    {
        let bodies = BodyIslands { table: HashMap::new() };
        assert(bodies.nodes() =~= Map::<Entity, IslandNode<Entity>>::empty());
        bodies
    }

    /// The node of the given body, if the body is part of an island.
    pub fn get(&self, body: Entity) -> (node: Option<BodyIslandNode>)
        ensures
            node is Some <==> self.nodes().contains_key(body),
            node matches Some(n) ==> n.0 == self.nodes()[body],
    {
        broadcast use vstd::std_specs::hash::group_hash_axioms;

        match self.table.get(&body.to_bits()) {
            Some(node) => Some(*node),
            None => None,
        }
    }
}

impl NodeStore<Entity> for BodyIslands {
    closed spec fn nodes(&self) -> Map<Entity, IslandNode<Entity>> {
        Map::new(
            |body: Entity| self.table@.contains_key(entity_bits(body)),
            |body: Entity| self.table@[entity_bits(body)].0,
        )
    }

    fn node(&self, id: Entity) -> (node: Option<IslandNode<Entity>>) {
        match self.get(id) {
            Some(node) => Some(node.0),
            None => None,
        }
    }

    fn put(&mut self, id: Entity, node: IslandNode<Entity>) {
        broadcast use vstd::std_specs::hash::group_hash_axioms;

        self.table.insert(id.to_bits(), BodyIslandNode(node));
        proof {
            assert forall|other: Entity| other != id implies #[trigger] entity_bits(other) != entity_bits(id) by {
                if entity_bits(other) == entity_bits(id) {
                    entity_bits_injective(other, id);
                }
            }
            assert(self.nodes() =~= old(self).nodes().insert(id, node));
        }
    }

    fn take(&mut self, id: Entity) {
        broadcast use vstd::std_specs::hash::group_hash_axioms;

        self.table.remove(&id.to_bits());
        proof {
            assert forall|other: Entity| other != id implies #[trigger] entity_bits(other) != entity_bits(id) by {
                if entity_bits(other) == entity_bits(id) {
                    entity_bits_injective(other, id);
                }
            }
            assert(self.nodes() =~= old(self).nodes().remove(id));
        }
    }
}

} // verus!
