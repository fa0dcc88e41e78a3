//! The depth-first search that finds the bodies, contacts, and joints that hang together.

use vstd::prelude::*;

use crate::body_colliders::BodyColliders;
use crate::contact_graph::{are_edges_with, lists_id, ContactEdge, ContactGraph};
use crate::entity::{ContactId, Entity, JointId};
use crate::islands::island::{new_island, PhysicsIsland};
use crate::islands::list::{
    empty_ends, holds_lists, lemma_add_empty, lemma_ends, lemma_label, lemma_list, lemma_member,
    lemma_push_back, lemma_same_links, push_back, push_back_ends, push_back_nodes, same_links,
    ListEnds,
};
use crate::islands::node::{BodyIslands, IslandId, IslandNode, NodeId, NodeStore, NodeTable};
use crate::joint_graph::{are_joints_of, lists_joint, JointGraph, JointGraphEdge};

verus! {

// The graph.

/// The bodies of each contact that has two.
pub open spec fn contact_pairs(graph: Map<ContactId, ContactEdge>) -> Map<
    ContactId,
    (Entity, Entity),
> {
    Map::new(
        |c: ContactId| graph.contains_key(c) && graph[c].body1 is Some && graph[c].body2 is Some,
        |c: ContactId| (graph[c].body1->0, graph[c].body2->0),
    )
}

/// The bodies of each joint.
pub open spec fn joint_pairs(graph: Map<JointId, JointGraphEdge>) -> Map<
    JointId,
    (Entity, Entity),
> {
    Map::new(
        |j: JointId| graph.contains_key(j),
        |j: JointId| (graph[j].body1, graph[j].body2),
    )
}

/// Whether a body is one of a pair.
pub open spec fn is_of(pair: (Entity, Entity), body: Entity) -> bool {
    pair.0 == body || pair.1 == body
}

/// The other body of a pair.
pub open spec fn across(pair: (Entity, Entity), body: Entity) -> Entity {
    if pair.0 == body {
        pair.1
    } else {
        pair.0
    }
}

/// Whether the constraint is between bodies, of which at least one is part of an island,
/// and those that are part of an island are part of the given one.
pub open spec fn pair_fits(
    bodies: Map<Entity, IslandNode<Entity>>,
    pair: (Entity, Entity),
    island: IslandId,
) -> bool {
    &&& bodies.contains_key(pair.0) || bodies.contains_key(pair.1)
    &&& bodies.contains_key(pair.0) ==> bodies[pair.0].island_id == island
    &&& bodies.contains_key(pair.1) ==> bodies[pair.1].island_id == island
}

/// Whether every constraint that is linked to an island has its bodies in that island.
pub open spec fn pairs_fit<Id>(
    nodes: Map<Id, IslandNode<Id>>,
    pairs: Map<Id, (Entity, Entity)>,
    bodies: Map<Entity, IslandNode<Entity>>,
) -> bool {
    forall|c: Id| #[trigger]
        nodes.contains_key(c) ==> pairs.contains_key(c) && pair_fits(
            bodies,
            pairs[c],
            nodes[c].island_id,
        )
}

/// The bodies that are part of an island.
pub open spec fn members_of(bodies: Map<Entity, IslandNode<Entity>>, island: IslandId) -> Set<
    Entity,
> {
    Set::new(|b: Entity| bodies.contains_key(b) && bodies[b].island_id == island)
}

/// Whether a constraint has one of the given bodies.
pub open spec fn has_member<Id>(
    pairs: Map<Id, (Entity, Entity)>,
    members: Set<Entity>,
    c: Id,
) -> bool {
    pairs.contains_key(c) && (members.contains(pairs[c].0) || members.contains(pairs[c].1))
}

/// Whether every constraint that is linked to the given island, or has a body in it, has its
/// bodies in the island that it is linked to, which is then the given one. Nothing is asked of
/// the constraints of other islands.
pub open spec fn pairs_fit_at<Id>(
    nodes: Map<Id, IslandNode<Id>>,
    pairs: Map<Id, (Entity, Entity)>,
    bodies: Map<Entity, IslandNode<Entity>>,
    island: IslandId,
) -> bool {
    forall|c: Id| #[trigger]
        nodes.contains_key(c) && (nodes[c].island_id == island || has_member(
            pairs,
            members_of(bodies, island),
            c,
        )) ==> pairs.contains_key(c) && pair_fits(bodies, pairs[c], nodes[c].island_id)
}

/// Whether a collider is one of those of a body.
pub open spec fn is_collider_of(
    colliders: Map<Entity, Seq<Entity>>,
    body: Entity,
    collider: Entity,
) -> bool {
    colliders.contains_key(body) && colliders[body].contains(collider)
}

/// Whether a body is a body of a contact exactly if the collider of the contact is one of its own,
/// and is not both bodies of the contact.
pub open spec fn fits_body(
    edge: ContactEdge,
    colliders: Map<Entity, Seq<Entity>>,
    body: Entity,
) -> bool {
    &&& edge.body1 == Some(body) <==> is_collider_of(colliders, body, edge.collider1)
    &&& edge.body2 == Some(body) <==> is_collider_of(colliders, body, edge.collider2)
    &&& !(edge.body1 == Some(body) && edge.body2 == Some(body))
}

/// Whether a contact is found through the colliders of those of its bodies that are among the
/// given ones, and through no other colliders of the given bodies.
pub open spec fn edge_fits(
    edge: ContactEdge,
    colliders: Map<Entity, Seq<Entity>>,
    members: Set<Entity>,
) -> bool {
    forall|b: Entity| #[trigger] members.contains(b) ==> fits_body(edge, colliders, b)
}

/// Whether the given bodies list each of their colliders once, and every linked contact is found
/// through the colliders of those of its bodies that are among the given ones.
pub open spec fn colliders_fit(
    contacts: Set<ContactId>,
    graph: Map<ContactId, ContactEdge>,
    colliders: Map<Entity, Seq<Entity>>,
    members: Set<Entity>,
) -> bool {
    &&& forall|b: Entity| #[trigger]
        members.contains(b) && colliders.contains_key(b) ==> colliders[b].no_duplicates()
    &&& forall|c: ContactId| #[trigger]
        contacts.contains(c) && graph.contains_key(c) ==> edge_fits(graph[c], colliders, members)
}

/// The bodies, contacts, and joints of one island, and what the contacts and joints connect.
pub struct Cluster {
    pub bodies: Set<Entity>,
    pub contacts: Set<ContactId>,
    pub joints: Set<JointId>,
    pub contact_pairs: Map<ContactId, (Entity, Entity)>,
    pub joint_pairs: Map<JointId, (Entity, Entity)>,
}

impl Cluster {
    /// Whether a contact or a joint connects two bodies.
    pub open spec fn adjacent(self, a: Entity, b: Entity) -> bool {
        &&& self.bodies.contains(a)
        &&& self.bodies.contains(b)
        &&& {
            ||| exists|c: ContactId| #[trigger]
                self.contacts.contains(c) && is_of(self.contact_pairs[c], a) && across(
                    self.contact_pairs[c],
                    a,
                ) == b
            ||| exists|j: JointId| #[trigger]
                self.joints.contains(j) && is_of(self.joint_pairs[j], a) && across(
                    self.joint_pairs[j],
                    a,
                ) == b
        }
    }

    /// Whether a path leads from one body to the next, each step along a contact or a joint.
    pub open spec fn is_path(self, path: Seq<Entity>) -> bool {
        forall|i: int| 0 <= i < path.len() - 1 ==> #[trigger] self.step(path, i)
    }

    /// Whether step `i` of a path goes along a contact or a joint.
    pub open spec fn step(self, path: Seq<Entity>, i: int) -> bool {
        self.adjacent(path[i], path[i + 1])
    }

    /// Whether two bodies hang together through contacts and joints.
    pub open spec fn connected(self, a: Entity, b: Entity) -> bool {
        exists|path: Seq<Entity>|
            path.len() > 0 && path[0] == a && path.last() == b && #[trigger] self.is_path(path)
    }
}

proof fn lemma_connected_self(cluster: Cluster, a: Entity)
    ensures
        cluster.connected(a, a),
{
    let path = seq![a];
    assert(cluster.is_path(path));
    assert(path[0] == a && path.last() == a);
}

proof fn lemma_connected_step(cluster: Cluster, a: Entity, b: Entity, c: Entity)
    requires
        cluster.connected(a, b),
        cluster.adjacent(b, c),
    ensures
        cluster.connected(a, c),
{
    let path = choose|path: Seq<Entity>|
        path.len() > 0 && path[0] == a && path.last() == b && #[trigger] cluster.is_path(path);
    let longer = path.push(c);
    assert forall|i: int| 0 <= i < longer.len() - 1 implies #[trigger] cluster.step(
        longer,
        i,
    ) by {
        if i < path.len() - 1 {
            assert(cluster.step(path, i));
        }
    }
    assert(cluster.is_path(longer));
    assert(longer[0] == a && longer.last() == c);
}

proof fn lemma_adjacent_symmetric(cluster: Cluster, a: Entity, b: Entity)
    requires
        cluster.adjacent(a, b),
    ensures
        cluster.adjacent(b, a),
{
}

/// Hanging together goes both ways.
pub proof fn connected_is_symmetric(cluster: Cluster, a: Entity, b: Entity)
    requires
        cluster.connected(a, b),
    ensures
        cluster.connected(b, a),
{
    let path = choose|path: Seq<Entity>|
        path.len() > 0 && path[0] == a && path.last() == b && #[trigger] cluster.is_path(path);
    let back = Seq::new(path.len(), |i: int| path[path.len() - 1 - i]);
    assert forall|i: int| 0 <= i < back.len() - 1 implies #[trigger] cluster.step(back, i) by {
        assert(cluster.step(path, path.len() - 2 - i));
        lemma_adjacent_symmetric(cluster, path[path.len() - 2 - i], path[path.len() - 1 - i]);
    }
    assert(cluster.is_path(back));
    assert(back[0] == b && back.last() == a);
}

/// What hangs together with the same body hangs together.
pub proof fn connected_is_transitive(cluster: Cluster, a: Entity, b: Entity, c: Entity)
    requires
        cluster.connected(a, b),
        cluster.connected(b, c),
    ensures
        cluster.connected(a, c),
{
    let first = choose|path: Seq<Entity>|
        path.len() > 0 && path[0] == a && path.last() == b && #[trigger] cluster.is_path(path);
    let second = choose|path: Seq<Entity>|
        path.len() > 0 && path[0] == b && path.last() == c && #[trigger] cluster.is_path(path);
    let path = first + second.drop_first();
    assert forall|i: int| 0 <= i < path.len() - 1 implies #[trigger] cluster.step(path, i) by {
        if i < first.len() - 1 {
            assert(cluster.step(first, i));
        } else {
            let j = i - (first.len() - 1);
            assert(path[i] == second[j]);
            assert(path[i + 1] == second[j + 1]);
            assert(cluster.step(second, j));
        }
    }
    assert(cluster.is_path(path));
    assert(path[0] == a);
    assert(path.last() == c) by {
        if second.len() > 1 {
            assert(path.last() == second.last());
        } else {
            assert(path.last() == first.last());
        }
    }
}

/// Where constraints are linked to the islands of their bodies, bodies that hang together are part
/// of the same island.
pub proof fn connected_share_island(
    cluster: Cluster,
    bodies: Map<Entity, IslandNode<Entity>>,
    contacts: Map<ContactId, IslandNode<ContactId>>,
    joints: Map<JointId, IslandNode<JointId>>,
    a: Entity,
    b: Entity,
)
    requires
        cluster.bodies.subset_of(bodies.dom()),
        forall|c: ContactId| #[trigger]
            cluster.contacts.contains(c) ==> pair_fits(
                bodies,
                cluster.contact_pairs[c],
                contacts[c].island_id,
            ),
        forall|j: JointId| #[trigger]
            cluster.joints.contains(j) ==> pair_fits(
                bodies,
                cluster.joint_pairs[j],
                joints[j].island_id,
            ),
        cluster.connected(a, b),
    ensures
        bodies[a].island_id == bodies[b].island_id,
{
    let path = choose|path: Seq<Entity>|
        path.len() > 0 && path[0] == a && path.last() == b && #[trigger] cluster.is_path(path);
    lemma_path_shares_island(cluster, bodies, contacts, joints, path, path.len() - 1);
}

proof fn lemma_path_shares_island(
    cluster: Cluster,
    bodies: Map<Entity, IslandNode<Entity>>,
    contacts: Map<ContactId, IslandNode<ContactId>>,
    joints: Map<JointId, IslandNode<JointId>>,
    path: Seq<Entity>,
    i: int,
)
    requires
        cluster.bodies.subset_of(bodies.dom()),
        forall|c: ContactId| #[trigger]
            cluster.contacts.contains(c) ==> pair_fits(
                bodies,
                cluster.contact_pairs[c],
                contacts[c].island_id,
            ),
        forall|j: JointId| #[trigger]
            cluster.joints.contains(j) ==> pair_fits(
                bodies,
                cluster.joint_pairs[j],
                joints[j].island_id,
            ),
        cluster.is_path(path),
        0 <= i < path.len(),
    ensures
        bodies[path[0]].island_id == bodies[path[i]].island_id,
    decreases i,
{
    if i > 0 {
        lemma_path_shares_island(cluster, bodies, contacts, joints, path, i - 1);
        assert(cluster.step(path, i - 1));
        let (x, y) = (path[i - 1], path[i]);
        assert(bodies.dom().contains(x) && bodies.dom().contains(y));
        if exists|c: ContactId| #[trigger]
            cluster.contacts.contains(c) && is_of(cluster.contact_pairs[c], x) && across(
                cluster.contact_pairs[c],
                x,
            ) == y {
            let c = choose|c: ContactId| #[trigger]
                cluster.contacts.contains(c) && is_of(cluster.contact_pairs[c], x) && across(
                    cluster.contact_pairs[c],
                    x,
                ) == y;
            assert(pair_fits(bodies, cluster.contact_pairs[c], contacts[c].island_id));
        } else {
            let j = choose|j: JointId| #[trigger]
                cluster.joints.contains(j) && is_of(cluster.joint_pairs[j], x) && across(
                    cluster.joint_pairs[j],
                    x,
                ) == y;
            assert(pair_fits(bodies, cluster.joint_pairs[j], joints[j].island_id));
        }
    }
}

// The edges that lead on from a body.

/// Whether the constraint is linked, but not visited yet.
pub open spec fn is_open<Id>(nodes: Map<Id, IslandNode<Id>>, c: Id) -> bool {
    nodes.contains_key(c) && !nodes[c].is_visited
}

/// Whether a constraint is one of the given edges.
pub open spec fn lists_edge<Id>(edges: Seq<(Id, Entity)>, c: Id) -> bool {
    exists|i: int| 0 <= i < edges.len() && (#[trigger] edges[i]).0 == c
}

/// Whether the sequence holds the constraints of a body that were not visited yet, each once,
/// together with the body on the other side.
pub open spec fn are_open_edges<Id>(
    edges: Seq<(Id, Entity)>,
    nodes: Map<Id, IslandNode<Id>>,
    pairs: Map<Id, (Entity, Entity)>,
    body: Entity,
) -> bool {
    &&& forall|i: int|
        0 <= i < edges.len() ==> is_open(nodes, (#[trigger] edges[i]).0) && pairs.contains_key(
            edges[i].0,
        ) && is_of(pairs[edges[i].0], body) && edges[i].1 == across(pairs[edges[i].0], body)
    &&& forall|c: Id|
        #![trigger nodes.contains_key(c)]
        is_open(nodes, c) && pairs.contains_key(c) && is_of(pairs[c], body) ==> lists_edge(edges, c)
    &&& forall|i: int, j: int|
        0 <= i < j < edges.len() ==> (#[trigger] edges[i]).0 != (#[trigger] edges[j]).0
}

/// Whether one of the first `len` colliders is one of a contact.
spec fn is_of_first(edge: ContactEdge, colliders: Seq<Entity>, len: int) -> bool {
    exists|m: int| 0 <= m < len && #[trigger] edge.is_of(colliders[m])
}

/// The contacts of a body that were not visited yet, each with the body on the other side.
fn contact_edges_of(
    body: Entity,
    contact_nodes: &NodeTable<ContactId>,
    body_colliders: &BodyColliders,
    contact_graph: &ContactGraph,
    Ghost(members): Ghost<Set<Entity>>,
) -> (edges: Vec<(ContactId, Entity)>)
    requires
        contact_graph.wf(),
        members.contains(body),
        colliders_fit(contact_nodes.nodes().dom(), contact_graph@, body_colliders@, members),
    ensures
        are_open_edges(edges@, contact_nodes.nodes(), contact_pairs(contact_graph@), body),
{
    let ghost nodes = contact_nodes.nodes();
    let ghost graph = contact_graph@;
    let ghost pairs = contact_pairs(graph);
    proof {
        contact_graph.lemma_ids();
    }
    let mut edges: Vec<(ContactId, Entity)> = Vec::new();
    let colliders = match body_colliders.get(body) {
        Some(colliders) => colliders,
        None => {
            assert forall|c: ContactId|
                #![trigger nodes.contains_key(c)]
                is_open(nodes, c) && pairs.contains_key(c) implies !is_of(pairs[c], body) by {
                assert(edge_fits(graph[c], body_colliders@, members));
            }
            return edges;
        },
    };
    let ghost own = colliders@;
    let mut i: usize = 0;
    while i < colliders.len()
        invariant
            contact_graph.wf(),
            forall|c: ContactId| #[trigger] graph.contains_key(c) ==> graph[c].id == c,
            graph == contact_graph@,
            nodes == contact_nodes.nodes(),
            pairs == contact_pairs(graph),
            body_colliders@.contains_key(body),
            own == body_colliders@[body],
            own == colliders@,
            members.contains(body),
            colliders_fit(nodes.dom(), graph, body_colliders@, members),
            i <= colliders.len(),
            forall|n: int|
                0 <= n < edges@.len() ==> is_open(nodes, (#[trigger] edges@[n]).0)
                    && pairs.contains_key(edges@[n].0) && is_of(pairs[edges@[n].0], body)
                    && edges@[n].1 == across(pairs[edges@[n].0], body),
            // Found through one of the colliders before this one.
            forall|n: int|
                0 <= n < edges@.len() ==> is_of_first(
                    graph[(#[trigger] edges@[n]).0],
                    own,
                    i as int,
                ),
            forall|c: ContactId, m: int|
                is_open(nodes, c) && pairs.contains_key(c) && 0 <= m < i && #[trigger] graph[c].is_of(
                    own[m],
                ) ==> lists_edge(edges@, c),
            forall|n: int, m: int|
                0 <= n < m < edges@.len() ==> (#[trigger] edges@[n]).0 != (#[trigger] edges@[m]).0,
        decreases colliders.len() - i,
    {
        let collider = colliders[i];
        let found = contact_graph.contact_edges_with(collider);
        let mut k: usize = 0;
        let ghost before = edges@;
        while k < found.len()
            invariant
                forall|c: ContactId| #[trigger] graph.contains_key(c) ==> graph[c].id == c,
                graph == contact_graph@,
                nodes == contact_nodes.nodes(),
                pairs == contact_pairs(graph),
                body_colliders@.contains_key(body),
                own == body_colliders@[body],
                members.contains(body),
            colliders_fit(nodes.dom(), graph, body_colliders@, members),
                0 <= i < own.len(),
                own[i as int] == collider,
                are_edges_with(found@, graph, collider),
                k <= found.len(),
                forall|n: int|
                    0 <= n < edges@.len() ==> is_open(nodes, (#[trigger] edges@[n]).0)
                        && pairs.contains_key(edges@[n].0) && is_of(pairs[edges@[n].0], body)
                        && edges@[n].1 == across(pairs[edges@[n].0], body),
                before.len() <= edges@.len(),
                forall|n: int| 0 <= n < before.len() ==> #[trigger] before[n] == edges@[n],
                forall|n: int|
                    0 <= n < before.len() ==> is_of_first(
                        graph[(#[trigger] before[n]).0],
                        own,
                        i as int,
                    ),
                // Found through this collider.
                forall|n: int|
                    before.len() <= n < edges@.len() ==> exists|m: int|
                        0 <= m < k && (#[trigger] found@[m]).id == (#[trigger] edges@[n]).0,
                forall|m: int|
                    0 <= m < k && is_open(nodes, found@[m].id) && pairs.contains_key(found@[m].id)
                        ==> lists_edge(edges@, #[trigger] found@[m].id),
                forall|n: int, m: int|
                    0 <= n < m < edges@.len() ==> (#[trigger] edges@[n]).0 != (
                    #[trigger] edges@[m]).0,
            decreases found.len() - k,
        {
            let edge = found[k];
            let ghost inner = edges@;
            let open = match contact_nodes.node(edge.id) {
                Some(node) => !node.is_visited,
                None => false,
            };
            assert(graph[edge.id] == edge);
            if open {
                if let (Some(body1), Some(body2)) = (edge.body1, edge.body2) {
                    let other = if body1 == body {
                        body2
                    } else {
                        body1
                    };
                    proof {
                        assert(nodes.contains_key(edge.id));
                        assert(edge_fits(edge, body_colliders@, members));
                        assert(body_colliders@[body].contains(own[i as int]));
                        assert(is_of(pairs[edge.id], body));
                        assert forall|n: int| 0 <= n < edges@.len() implies (#[trigger] edges@[n]).0
                            != edge.id by {
                            if n < before.len() {
                                if edges@[n].0 == edge.id {
                                    assert(before[n] == edges@[n]);
                                    let m = choose|m: int|
                                        0 <= m < i && #[trigger] edge.is_of(own[m]);
                                    assert(body_colliders@[body].contains(own[m]));
                                    assert(own[m] != own[i as int]);
                                    assert(false);
                                }
                            } else {
                                let m = choose|m: int|
                                    0 <= m < k && (#[trigger] found@[m]).id == edges@[n].0;
                                assert(found@[m].id.0 < found@[k as int].id.0);
                            }
                        }
                    }
                    edges.push((edge.id, other));
                    assert(edges@[inner.len() as int].0 == edge.id);
                    assert(lists_edge(edges@, edge.id));
                }
            }
            proof {
                assert forall|m: int|
                    0 <= m < k + 1 && is_open(nodes, found@[m].id) && pairs.contains_key(
                        found@[m].id,
                    ) implies lists_edge(edges@, #[trigger] found@[m].id) by {
                    if m < k {
                        assert(lists_edge(inner, found@[m].id));
                        let n = choose|n: int|
                            0 <= n < inner.len() && (#[trigger] inner[n]).0 == found@[m].id;
                        assert(edges@[n].0 == found@[m].id);
                    }
                }
            }
            k = k + 1;
        }
        proof {
            assert forall|c: ContactId, m: int|
                is_open(nodes, c) && pairs.contains_key(c) && 0 <= m < i + 1 && #[trigger] graph[c].is_of(
                    own[m],
                ) implies lists_edge(edges@, c) by {
                if m < i {
                    assert(lists_edge(before, c));
                    let n = choose|n: int| 0 <= n < before.len() && (#[trigger] before[n]).0 == c;
                    assert(edges@[n].0 == c);
                } else {
                    assert(lists_id(found@, c));
                    let m2 = choose|m2: int|
                        0 <= m2 < found@.len() && (#[trigger] found@[m2]).id == c;
                    assert(lists_edge(edges@, found@[m2].id));
                }
            }
            assert forall|n: int| 0 <= n < edges@.len() implies is_of_first(
                graph[(#[trigger] edges@[n]).0],
                own,
                i + 1,
            ) by {
                if n < before.len() {
                    assert(before[n] == edges@[n]);
                    let edge = graph[edges@[n].0];
                    let m = choose|m: int| 0 <= m < i && #[trigger] edge.is_of(own[m]);
                    assert(edge.is_of(own[m]));
                } else {
                    let m = choose|m: int|
                        0 <= m < found@.len() && (#[trigger] found@[m]).id == edges@[n].0;
                    assert(found@[m].is_of(collider));
                    assert(graph[edges@[n].0].is_of(own[i as int]));
                }
            }
        }
        i = i + 1;
    }
    proof {
        assert forall|c: ContactId|
            #![trigger nodes.contains_key(c)]
            is_open(nodes, c) && pairs.contains_key(c) && is_of(pairs[c], body) implies lists_edge(
            edges@,
            c,
        ) by {
            assert(edge_fits(graph[c], body_colliders@, members));
            let x = if graph[c].body1 == Some(body) {
                graph[c].collider1
            } else {
                graph[c].collider2
            };
            assert(own.contains(x));
            let m = choose|m: int| 0 <= m < own.len() && own[m] == x;
            assert(graph[c].is_of(own[m]));
        }
    }
    edges
}

/// The joints of a body that were not visited yet, each with the body on the other side.
fn joint_edges_of(
    body: Entity,
    joint_nodes: &NodeTable<JointId>,
    joint_graph: &JointGraph,
) -> (edges: Vec<(JointId, Entity)>)
    requires
        joint_graph.wf(),
    ensures
        are_open_edges(edges@, joint_nodes.nodes(), joint_pairs(joint_graph@), body),
{
    let ghost nodes = joint_nodes.nodes();
    let ghost graph = joint_graph@;
    let ghost pairs = joint_pairs(graph);
    let mut edges: Vec<(JointId, Entity)> = Vec::new();
    let found = joint_graph.joints_of(body);
    let mut k: usize = 0;
    while k < found.len()
        invariant
            graph == joint_graph@,
            nodes == joint_nodes.nodes(),
            pairs == joint_pairs(graph),
            are_joints_of(found@, graph, body),
            k <= found.len(),
            forall|n: int|
                0 <= n < edges@.len() ==> is_open(nodes, (#[trigger] edges@[n]).0)
                    && pairs.contains_key(edges@[n].0) && is_of(pairs[edges@[n].0], body)
                    && edges@[n].1 == across(pairs[edges@[n].0], body),
            forall|n: int|
                0 <= n < edges@.len() ==> exists|m: int|
                    0 <= m < k && (#[trigger] found@[m]).id == (#[trigger] edges@[n]).0,
            forall|m: int|
                0 <= m < k && is_open(nodes, found@[m].id) ==> lists_edge(
                    edges@,
                    #[trigger] found@[m].id,
                ),
            forall|n: int, m: int|
                0 <= n < m < edges@.len() ==> (#[trigger] edges@[n]).0 != (#[trigger] edges@[m]).0,
        decreases found.len() - k,
    {
        let edge = found[k];
        let ghost inner = edges@;
        let open = match joint_nodes.node(edge.id) {
            Some(node) => !node.is_visited,
            None => false,
        };
        assert(graph[edge.id] == edge);
        if open {
            let other = if edge.body1 == body {
                edge.body2
            } else {
                edge.body1
            };
            proof {
                assert forall|n: int| 0 <= n < edges@.len() implies (#[trigger] edges@[n]).0
                    != edge.id by {
                    let m = choose|m: int| 0 <= m < k && (#[trigger] found@[m]).id == edges@[n].0;
                    assert(found@[m].id.0 < found@[k as int].id.0);
                }
            }
            edges.push((edge.id, other));
            assert(edges@[inner.len() as int].0 == edge.id);
            assert(lists_edge(edges@, edge.id));
        }
        proof {
            assert forall|m: int|
                0 <= m < k + 1 && is_open(nodes, found@[m].id) implies lists_edge(
                edges@,
                #[trigger] found@[m].id,
            ) by {
                if m < k {
                    assert(lists_edge(inner, found@[m].id));
                    let n = choose|n: int|
                        0 <= n < inner.len() && (#[trigger] inner[n]).0 == found@[m].id;
                    assert(edges@[n].0 == found@[m].id);
                }
            }
        }
        k = k + 1;
    }
    proof {
        assert forall|c: JointId|
            #![trigger nodes.contains_key(c)]
            is_open(nodes, c) && pairs.contains_key(c) && is_of(pairs[c], body) implies lists_edge(
            edges@,
            c,
        ) by {
            assert(lists_joint(found@, c));
            let m = choose|m: int| 0 <= m < found@.len() && (#[trigger] found@[m]).id == c;
            assert(lists_edge(edges@, found@[m].id));
        }
    }
    edges
}

// The search.

/// The lists of all islands, and what awaits being linked to one.
#[verifier::reject_recursive_types(Id)]
pub struct Lists<Id> {
    pub ends: Map<IslandId, ListEnds<Id>>,
    pub lists: Map<IslandId, Seq<Id>>,
    pub pending: Set<Id>,
}

impl<Id> Lists<Id> {
    /// Whether the nodes hold the lists.
    pub open spec fn held_by(self, nodes: Map<Id, IslandNode<Id>>) -> bool {
        &&& holds_lists(nodes, self.ends, self.lists, self.pending)
        &&& self.pending.finite()
    }

    /// The lists with something that was pending put behind the list of an island.
    pub open spec fn push(self, island: IslandId, id: Id) -> Self {
        Lists {
            ends: self.ends.insert(island, push_back_ends(self.ends[island], id)),
            lists: self.lists.insert(island, self.lists[island].push(id)),
            pending: self.pending.remove(id),
        }
    }

    /// The lists with one more island, which has no members.
    pub open spec fn with_island(self, island: IslandId) -> Self {
        Lists {
            ends: self.ends.insert(island, empty_ends()),
            lists: self.lists.insert(island, Seq::empty()),
            pending: self.pending,
        }
    }

    /// Whether there is room to link all that is pending to an island.
    pub open spec fn has_room(self, island: IslandId) -> bool {
        &&& self.lists.contains_key(island)
        &&& self.ends.contains_key(island)
        &&& self.lists[island].len() + self.pending.len() <= u32::MAX
    }

    /// Whether only an island grew, by things that were pending in `before`.
    pub open spec fn grew_from(self, before: Self, island: IslandId) -> bool {
        &&& self.lists.dom() == before.lists.dom()
        &&& self.ends.dom() == before.ends.dom()
        &&& forall|k: IslandId| #[trigger]
            before.lists.contains_key(k) && k != island ==> self.lists[k] == before.lists[k]
                && self.ends[k] == before.ends[k]
        &&& self.pending.subset_of(before.pending)
        &&& forall|c: Id| #[trigger]
            before.pending.contains(c) ==> self.pending.contains(c) || self.lists[island].contains(
                c,
            )
        &&& forall|i: int|
            0 <= i < self.lists[island].len() ==> before.lists[island].contains(
                #[trigger] self.lists[island][i],
            ) || before.pending.contains(self.lists[island][i])
        &&& before.lists[island].len() <= self.lists[island].len()
        &&& forall|i: int|
            0 <= i < before.lists[island].len() ==> #[trigger] self.lists[island][i]
                == before.lists[island][i]
    }
}

/// Whether one of the bodies of a constraint that is linked to an island, if it is part of an
/// island, is part of that one, or about to be.
pub open spec fn end_is_reached(
    bodies: Map<Entity, IslandNode<Entity>>,
    pending: Set<Entity>,
    stack: Seq<Entity>,
    current: IslandId,
    end: Entity,
    island: IslandId,
) -> bool {
    bodies.contains_key(end) ==> {
        ||| !pending.contains(end) && bodies[end].island_id == island
        ||| stack.contains(end) && island == current
    }
}

/// Whether one of the bodies of a constraint that is pending, if it is part of an island, is
/// pending too. The constraints in `open` may have the body that is being looked at.
pub open spec fn end_is_ahead<Id>(
    bodies: Map<Entity, IslandNode<Entity>>,
    pending: Set<Entity>,
    body: Option<Entity>,
    open: Set<Id>,
    end: Entity,
    c: Id,
) -> bool {
    bodies.contains_key(end) ==> {
        ||| pending.contains(end)
        ||| body == Some(end) && open.contains(c)
    }
}

/// Where a search stands: which islands it makes, the one it fills, the bodies it has yet to visit,
/// and the body that it looks at.
pub struct Front {
    pub fresh: Set<IslandId>,
    pub current: IslandId,
    pub stack: Seq<Entity>,
    pub body: Option<Entity>,
}

/// What a search keeps of the bodies.
#[verifier::opaque]
pub open spec fn bodies_inv(
    lists: Lists<Entity>,
    nodes: Map<Entity, IslandNode<Entity>>,
    front: Front,
) -> bool {
    &&& lists.held_by(nodes)
    &&& front.stack.no_duplicates()
    &&& forall|b: Entity| #[trigger] front.stack.contains(b) ==> lists.pending.contains(b)
    &&& forall|b: Entity| #[trigger]
        lists.pending.contains(b) ==> nodes[b].is_visited == front.stack.contains(b)
    &&& forall|b: Entity| #[trigger]
        nodes.contains_key(b) && !lists.pending.contains(b) && front.fresh.contains(
            nodes[b].island_id,
        ) ==> nodes[b].is_visited
}

/// What a search keeps of the contacts, and of the joints. Of all that are linked, `own` are those
/// of the island that is split, and `members` are the bodies of that island.
#[verifier::opaque]
pub open spec fn edges_inv<Id>(
    lists: Lists<Id>,
    nodes: Map<Id, IslandNode<Id>>,
    pairs: Map<Id, (Entity, Entity)>,
    own: Set<Id>,
    members: Set<Entity>,
    bodies: Map<Entity, IslandNode<Entity>>,
    pending: Set<Entity>,
    front: Front,
    open: Set<Id>,
) -> bool {
    &&& lists.held_by(nodes)
    &&& lists.pending.subset_of(own)
    &&& forall|c: Id| #[trigger]
        nodes.contains_key(c) && has_member(pairs, members, c) ==> own.contains(c)
    &&& forall|c: Id| #[trigger]
        own.contains(c) ==> {
            &&& nodes.contains_key(c)
            &&& pairs.contains_key(c)
            &&& bodies.contains_key(pairs[c].0) || bodies.contains_key(pairs[c].1)
        }
    &&& forall|c: Id| #[trigger]
        own.contains(c) && !lists.pending.contains(c) ==> {
            let k = nodes[c].island_id;
            &&& nodes[c].is_visited
            &&& end_is_reached(bodies, pending, front.stack, front.current, pairs[c].0, k)
            &&& end_is_reached(bodies, pending, front.stack, front.current, pairs[c].1, k)
        }
    &&& forall|c: Id| #[trigger]
        lists.pending.contains(c) ==> {
            &&& !nodes[c].is_visited
            &&& end_is_ahead(bodies, pending, front.body, open, pairs[c].0, c)
            &&& end_is_ahead(bodies, pending, front.body, open, pairs[c].1, c)
        }
}

/// The identifiers of the edges from the given position on.
pub open spec fn edges_from<Id>(edges: Seq<(Id, Entity)>, from: int) -> Set<Id> {
    Set::new(|c: Id| exists|i: int| from <= i < edges.len() && (#[trigger] edges[i]).0 == c)
}

/// Marks of visits, and more bodies to visit, change nothing for the constraints.
proof fn lemma_stack_grew<Id>(
    lists: Lists<Id>,
    nodes: Map<Id, IslandNode<Id>>,
    pairs: Map<Id, (Entity, Entity)>,
    own: Set<Id>,
    members: Set<Entity>,
    bodies: Map<Entity, IslandNode<Entity>>,
    bodies1: Map<Entity, IslandNode<Entity>>,
    pending: Set<Entity>,
    front: Front,
    stack1: Seq<Entity>,
    open: Set<Id>,
)
    requires
        edges_inv(lists, nodes, pairs, own, members, bodies, pending, front, open),
        same_links(bodies, bodies1),
        forall|b: Entity| #[trigger] front.stack.contains(b) ==> stack1.contains(b),
    ensures
        edges_inv(
            lists,
            nodes,
            pairs,
            own,
            members,
            bodies1,
            pending,
            (Front { stack: stack1, ..front }),
            open,
        ),
{
    reveal(edges_inv);
    assert(forall|b: Entity| bodies.contains_key(b) <==> bodies1.contains_key(b));
}

proof fn lemma_pending_has_node<Id>(lists: Lists<Id>, nodes: Map<Id, IslandNode<Id>>)
    requires
        lists.held_by(nodes),
    ensures
        forall|c: Id| #[trigger] lists.pending.contains(c) ==> nodes.contains_key(c),
{
    reveal(holds_lists);
}

proof fn lemma_same_links_refl<Id>(nodes: Map<Id, IslandNode<Id>>)
    ensures
        same_links(nodes, nodes),
{
}

proof fn lemma_grew_refl<Id>(lists: Lists<Id>, island: IslandId)
    ensures
        lists.grew_from(lists, island),
{
}

proof fn lemma_grew_push<Id>(lists: Lists<Id>, before: Lists<Id>, island: IslandId, c: Id)
    requires
        lists.grew_from(before, island),
        before.lists.contains_key(island),
        before.ends.contains_key(island),
        lists.pending.contains(c),
    ensures
        lists.push(island, c).grew_from(before, island),
{
    let after = lists.push(island, c);
    assert(after.lists.dom() =~= before.lists.dom());
    assert(after.ends.dom() =~= before.ends.dom());
    assert forall|x: Id| #[trigger] before.pending.contains(x) implies after.pending.contains(x)
        || after.lists[island].contains(x) by {
        if x == c {
            assert(after.lists[island][lists.lists[island].len() as int] == c);
        } else if !lists.pending.contains(x) {
            let i = choose|i: int|
                0 <= i < lists.lists[island].len() && lists.lists[island][i] == x;
            assert(after.lists[island][i] == x);
        }
    }
}

/// Has a body that is pending visited later.
proof fn lemma_push_on_stack(
    lists: Lists<Entity>,
    nodes: Map<Entity, IslandNode<Entity>>,
    nodes1: Map<Entity, IslandNode<Entity>>,
    front: Front,
    body: Entity,
)
    requires
        bodies_inv(lists, nodes, front),
        lists.pending.contains(body),
        nodes.contains_key(body),
        !nodes[body].is_visited,
        nodes1 == nodes.insert(body, (IslandNode { is_visited: true, ..nodes[body] })),
    ensures
        bodies_inv(lists, nodes1, (Front { stack: front.stack.push(body), ..front })),
        same_links(nodes, nodes1),
{
    reveal(bodies_inv);
    assert(nodes1.dom() =~= nodes.dom());
    lemma_same_links(nodes, nodes1, lists.ends, lists.lists, lists.pending);
    let stack = front.stack.push(body);
    assert forall|b: Entity| stack.contains(b) <==> front.stack.contains(b) || b == body by {
        if front.stack.contains(b) {
            let n = choose|n: int| 0 <= n < front.stack.len() && front.stack[n] == b;
            assert(stack[n] == b);
        }
        if b == body {
            assert(stack[front.stack.len() as int] == b);
        }
    }
    assert(!front.stack.contains(body));
    assert(stack.no_duplicates());
}

/// Links a pending constraint to the island that is being filled.
proof fn lemma_link<Id>(
    lists: Lists<Id>,
    nodes: Map<Id, IslandNode<Id>>,
    nodes1: Map<Id, IslandNode<Id>>,
    pairs: Map<Id, (Entity, Entity)>,
    own: Set<Id>,
    members: Set<Entity>,
    bodies: Map<Entity, IslandNode<Entity>>,
    pending: Set<Entity>,
    front: Front,
    open: Set<Id>,
    open1: Set<Id>,
    c: Id,
)
    requires
        edges_inv(lists, nodes, pairs, own, members, bodies, pending, front, open),
        lists.pending.contains(c),
        lists.has_room(front.current),
        nodes1 == push_back_nodes(nodes, front.current, lists.ends[front.current], c),
        front.fresh.contains(front.current),
        lists.ends[front.current].count < u32::MAX,
        forall|d: Id| d != c && #[trigger] open.contains(d) ==> open1.contains(d),
        end_is_reached(bodies, pending, front.stack, front.current, pairs[c].0, front.current),
        end_is_reached(bodies, pending, front.stack, front.current, pairs[c].1, front.current),
    ensures
        lists.push(front.current, c).has_room(front.current),
        edges_inv(
            lists.push(front.current, c),
            nodes1,
            pairs,
            own,
            members,
            bodies,
            pending,
            front,
            open1,
        ),
{
    reveal(edges_inv);
    lemma_push_back(nodes, lists.ends, lists.lists, lists.pending, front.current, c);
    lemma_pending_has_node(lists, nodes);
    let lists1 = lists.push(front.current, c);
    assert(nodes1.dom() =~= nodes.dom());
    assert forall|d: Id| #[trigger] nodes1.contains_key(d) && d != c implies nodes1[d].island_id
        == nodes[d].island_id && nodes1[d].is_visited == nodes[d].is_visited by {}
}

/// Links the constraints of a body that were not visited yet to an island, and has the bodies on
/// their other sides visited later, unless they were visited already.
fn link_edges<Id: NodeId, S: NodeStore<Id>>(
    store: &mut S,
    edges: &Vec<(Id, Entity)>,
    island_id: IslandId,
    ends: ListEnds<Id>,
    body_islands: &mut BodyIslands,
    stack: &mut Vec<Entity>,
    Ghost(lists): Ghost<Lists<Id>>,
    Ghost(pairs): Ghost<Map<Id, (Entity, Entity)>>,
    Ghost(own): Ghost<Set<Id>>,
    Ghost(members): Ghost<Set<Entity>>,
    Ghost(body_lists): Ghost<Lists<Entity>>,
    Ghost(front): Ghost<Front>,
) -> (linked: (ListEnds<Id>, Ghost<Lists<Id>>))
    requires
        front.stack == old(stack)@,
        front.current == island_id,
        front.fresh.contains(island_id),
        front.body is Some,
        members.contains(front.body->0),
        ends == lists.ends[island_id],
        lists.has_room(island_id),
        bodies_inv(body_lists, old(body_islands).nodes(), front),
        !body_lists.pending.contains(front.body->0),
        old(body_islands).nodes().contains_key(front.body->0),
        old(body_islands).nodes()[front.body->0].island_id == island_id,
        old(body_islands).nodes()[front.body->0].is_visited,
        edges_inv(
            lists,
            old(store).nodes(),
            pairs,
            own,
            members,
            old(body_islands).nodes(),
            body_lists.pending,
            front,
            Set::full(),
        ),
        are_open_edges(edges@, old(store).nodes(), pairs, front.body->0),
    ensures
        ({
            let front1 = Front { stack: final(stack)@, ..front };
            &&& linked.1@.ends[island_id] == linked.0
            &&& linked.1@.has_room(island_id)
            &&& linked.1@.grew_from(lists, island_id)
            &&& bodies_inv(body_lists, final(body_islands).nodes(), front1)
            &&& edges_inv(
                linked.1@,
                final(store).nodes(),
                pairs,
                own,
                members,
                final(body_islands).nodes(),
                body_lists.pending,
                front1,
                Set::empty(),
            )
        }),
        final(store).nodes().dom() == old(store).nodes().dom(),
        same_links(old(body_islands).nodes(), final(body_islands).nodes()),
        final(body_islands).nodes()[front.body->0].is_visited,
        forall|b: Entity| #[trigger] old(stack)@.contains(b) ==> final(stack)@.contains(b),
        // Every body that is to be visited now shares a constraint with this one.
        forall|b: Entity| #[trigger]
            final(stack)@.contains(b) ==> old(stack)@.contains(b) || exists|c: Id| #[trigger]
                lists.pending.contains(c) && is_of(pairs[c], front.body->0) && across(
                    pairs[c],
                    front.body->0,
                ) == b,
{
    let ghost body = front.body->0;
    let ghost nodes0 = store.nodes();
    let ghost bodies0 = body_islands.nodes();
    let mut ends = ends;
    let ghost mut now = lists;
    let mut i: usize = 0;
    proof {
        reveal(edges_inv);
        // What is pending and has this body is one of the edges.
        assert(edges_inv(
            lists,
            nodes0,
            pairs,
            own,
            members,
            bodies0,
            body_lists.pending,
            front,
            edges_from(edges@, 0),
        )) by {
            lemma_pending_has_node(lists, nodes0);
            assert forall|c: Id| #[trigger] lists.pending.contains(c) implies {
                &&& end_is_ahead(
                    bodies0,
                    body_lists.pending,
                    front.body,
                    edges_from(edges@, 0),
                    pairs[c].0,
                    c,
                )
                &&& end_is_ahead(
                    bodies0,
                    body_lists.pending,
                    front.body,
                    edges_from(edges@, 0),
                    pairs[c].1,
                    c,
                )
            } by {
                assert(nodes0.contains_key(c) && own.contains(c));
                if is_of(pairs[c], body) {
                    assert(lists_edge(edges@, c));
                    assert(edges_from(edges@, 0).contains(c));
                }
            }
        }
        // The edges are pending.
        assert forall|n: int| 0 <= n < edges@.len() implies lists.pending.contains(
            (#[trigger] edges@[n]).0,
        ) by {
            let c = edges@[n].0;
            assert(nodes0.contains_key(c));
            assert(has_member(pairs, members, c));
            assert(own.contains(c));
        }
        lemma_same_links_refl(bodies0);
        lemma_grew_refl(lists, island_id);
    }
    while i < edges.len()
        invariant
            i <= edges.len(),
            front.current == island_id,
            front.fresh.contains(island_id),
            front.body == Some(body),
            now.ends[island_id] == ends,
            now.has_room(island_id),
            now.grew_from(lists, island_id),
            lists.lists.contains_key(island_id),
            lists.ends.contains_key(island_id),
            bodies_inv(
                body_lists,
                body_islands.nodes(),
                (Front { stack: stack@, ..front }),
            ),
            edges_inv(
                now,
                store.nodes(),
                pairs,
                own,
                members,
                body_islands.nodes(),
                body_lists.pending,
                (Front { stack: stack@, ..front }),
                edges_from(edges@, i as int),
            ),
            store.nodes().dom() == nodes0.dom(),
            same_links(bodies0, body_islands.nodes()),
            bodies0.contains_key(body),
            bodies0[body].island_id == island_id,
            !body_lists.pending.contains(body),
            body_islands.nodes()[body].is_visited,
            forall|n: int|
                0 <= n < edges@.len() ==> nodes0.contains_key((#[trigger] edges@[n]).0)
                    && lists.pending.contains(edges@[n].0) && is_of(pairs[edges@[n].0], body)
                    && edges@[n].1 == across(pairs[edges@[n].0], body),
            forall|n: int|
                i <= n < edges@.len() ==> now.pending.contains((#[trigger] edges@[n]).0),
            forall|n: int, m: int|
                0 <= n < m < edges@.len() ==> (#[trigger] edges@[n]).0 != (#[trigger] edges@[m]).0,
            forall|b: Entity| #[trigger] front.stack.contains(b) ==> stack@.contains(b),
            forall|b: Entity| #[trigger]
                stack@.contains(b) ==> front.stack.contains(b) || exists|c: Id| #[trigger]
                    lists.pending.contains(c) && is_of(pairs[c], body) && across(pairs[c], body)
                        == b,
        decreases edges.len() - i,
    {
        let (c, other) = edges[i];
        let ghost stack0 = stack@;
        let ghost bodies1 = body_islands.nodes();
        // Maybe have the other body visited.
        if let Some(node) = body_islands.node(other) {
            proof {
                reveal(edges_inv);
                reveal(bodies_inv);
                assert(now.pending.contains(c));
                assert(body_lists.pending.contains(other) || other == body);
            }
            if !node.is_visited {
                stack.push(other);
                body_islands.put(other, IslandNode { is_visited: true, ..node });
                proof {
                    lemma_push_on_stack(
                        body_lists,
                        bodies1,
                        body_islands.nodes(),
                        Front { stack: stack0, ..front },
                        other,
                    );
                    assert(forall|b: Entity| #[trigger]
                        stack0.contains(b) ==> stack@.contains(b)) by {
                        assert forall|b: Entity| #[trigger] stack0.contains(b) implies stack@.contains(
                            b,
                        ) by {
                            let n = choose|n: int| 0 <= n < stack0.len() && stack0[n] == b;
                            assert(stack@[n] == b);
                        }
                    }
                    lemma_stack_grew(
                        now,
                        store.nodes(),
                        pairs,
                        own,
                        members,
                        bodies1,
                        body_islands.nodes(),
                        body_lists.pending,
                        Front { stack: stack0, ..front },
                        stack@,
                        edges_from(edges@, i as int),
                    );
                    assert forall|b: Entity| #[trigger] stack@.contains(b) implies stack0.contains(
                        b,
                    ) || b == other by {
                        let n = choose|n: int| 0 <= n < stack@.len() && stack@[n] == b;
                        if n < stack0.len() {
                            assert(stack0[n] == b);
                        }
                    }
                    assert(lists.pending.contains(c));
                    assert(is_of(pairs[c], body) && across(pairs[c], body) == other);
                }
            }
        }
        let ghost bodies2 = body_islands.nodes();
        let ghost front2 = Front { stack: stack@, ..front };
        // Link the constraint to the island.
        let ghost nodes1 = store.nodes();
        let ghost before = now;
        proof {
            reveal(edges_inv);
            reveal(bodies_inv);
            assert(now.pending.contains(c));
            lemma_list(nodes1, now.ends, now.lists, now.pending, island_id);
            lemma_ends(nodes1, island_id, now.lists[island_id], now.ends[island_id]);
            assert(now.pending.len() > 0);
            lemma_push_back(nodes1, now.ends, now.lists, now.pending, island_id, c);
            // The other body is linked, or on the stack.
            assert(end_is_reached(
                bodies2,
                body_lists.pending,
                stack@,
                island_id,
                other,
                island_id,
            ));
        }
        ends = push_back(store, island_id, ends, c);
        proof {
            now = now.push(island_id, c);
            lemma_link(
                before,
                nodes1,
                store.nodes(),
                pairs,
                own,
                members,
                bodies2,
                body_lists.pending,
                front2,
                edges_from(edges@, i as int),
                edges_from(edges@, i + 1),
                c,
            );
            lemma_grew_push(before, lists, island_id, c);
            assert(store.nodes().dom() =~= nodes0.dom());
        }
        i = i + 1;
    }
    proof {
        assert(edges_from(edges@, i as int) =~= Set::empty());
    }
    (ends, Ghost(now))
}

/// The lists of bodies, contacts, and joints of all islands during a search, and the islands that
/// the search made.
pub struct Search {
    pub bodies: Lists<Entity>,
    pub contacts: Lists<ContactId>,
    pub joints: Lists<JointId>,
    pub fresh: Set<IslandId>,
}

impl Search {
    /// What a search keeps.
    pub open spec fn inv(
        self,
        bodies: Map<Entity, IslandNode<Entity>>,
        contacts: Map<ContactId, IslandNode<ContactId>>,
        joints: Map<JointId, IslandNode<JointId>>,
        cluster: Cluster,
        front: Front,
        contact_open: Set<ContactId>,
        joint_open: Set<JointId>,
    ) -> bool {
        &&& bodies_inv(self.bodies, bodies, front)
        &&& edges_inv(
            self.contacts,
            contacts,
            cluster.contact_pairs,
            cluster.contacts,
            cluster.bodies,
            bodies,
            self.bodies.pending,
            front,
            contact_open,
        )
        &&& edges_inv(
            self.joints,
            joints,
            cluster.joint_pairs,
            cluster.joints,
            cluster.bodies,
            bodies,
            self.bodies.pending,
            front,
            joint_open,
        )
        &&& self.bodies.pending.subset_of(cluster.bodies)
        &&& self.contacts.pending.subset_of(cluster.contacts)
        &&& self.joints.pending.subset_of(cluster.joints)
    }

    /// What a search keeps while it looks at no body.
    pub open spec fn resting(
        self,
        bodies: Map<Entity, IslandNode<Entity>>,
        contacts: Map<ContactId, IslandNode<ContactId>>,
        joints: Map<JointId, IslandNode<JointId>>,
        cluster: Cluster,
        current: IslandId,
        stack: Seq<Entity>,
    ) -> bool {
        self.inv(
            bodies,
            contacts,
            joints,
            cluster,
            Front { fresh: self.fresh, current, stack, body: None },
            Set::empty(),
            Set::empty(),
        )
    }

    /// The search with one more island.
    pub open spec fn with_island(self, island: IslandId) -> Self {
        Search {
            bodies: self.bodies.with_island(island),
            contacts: self.contacts.with_island(island),
            joints: self.joints.with_island(island),
            fresh: self.fresh.insert(island),
        }
    }

    /// Whether only an island grew, by things that were pending.
    pub open spec fn grew_from(self, before: Self, island: IslandId) -> bool {
        &&& self.bodies.grew_from(before.bodies, island)
        &&& self.contacts.grew_from(before.contacts, island)
        &&& self.joints.grew_from(before.joints, island)
        &&& self.fresh == before.fresh
    }

    /// Whether there is room to link all that is pending to an island.
    pub open spec fn has_room(self, island: IslandId) -> bool {
        &&& self.bodies.has_room(island)
        &&& self.contacts.has_room(island)
        &&& self.joints.has_room(island)
    }

    /// Whether not more is pending than can be counted.
    pub open spec fn is_countable(self) -> bool {
        &&& self.bodies.pending.len() <= u32::MAX
        &&& self.contacts.pending.len() <= u32::MAX
        &&& self.joints.pending.len() <= u32::MAX
    }
}

/// Before the search, the members of the island that is split are pending.
pub proof fn lemma_edges_begin<Id>(
    lists: Lists<Id>,
    nodes: Map<Id, IslandNode<Id>>,
    pairs: Map<Id, (Entity, Entity)>,
    own: Set<Id>,
    members: Set<Entity>,
    bodies: Map<Entity, IslandNode<Entity>>,
    island: IslandId,
    current: IslandId,
)
    requires
        lists.held_by(nodes),
        pairs_fit_at(nodes, pairs, bodies, island),
        lists.pending == own,
        forall|c: Id| #[trigger]
            own.contains(c) <==> nodes.contains_key(c) && nodes[c].island_id == island,
        forall|c: Id| #[trigger] own.contains(c) ==> !nodes[c].is_visited,
        forall|b: Entity| #[trigger]
            members.contains(b) <==> bodies.contains_key(b) && bodies[b].island_id == island,
    ensures
        edges_inv(
            lists,
            nodes,
            pairs,
            own,
            members,
            bodies,
            members,
            (Front { fresh: Set::empty(), current, stack: Seq::empty(), body: None }),
            Set::empty(),
        ),
{
    reveal(edges_inv);
    assert(members =~= members_of(bodies, island));
    assert forall|c: Id| #[trigger] own.contains(c) implies nodes.contains_key(c)
        && pairs.contains_key(c) && pair_fits(bodies, pairs[c], island) by {
        assert(nodes.contains_key(c));
    }
    assert forall|c: Id| #[trigger]
        nodes.contains_key(c) && has_member(pairs, members, c) implies own.contains(c) by {
        assert(pair_fits(bodies, pairs[c], nodes[c].island_id));
    }
}

/// After the search, when all bodies are linked, all constraints of the island are, to the islands
/// of their bodies.
pub proof fn lemma_edges_end<Id>(
    lists: Lists<Id>,
    nodes: Map<Id, IslandNode<Id>>,
    pairs: Map<Id, (Entity, Entity)>,
    own: Set<Id>,
    members: Set<Entity>,
    bodies: Map<Entity, IslandNode<Entity>>,
    pending: Set<Entity>,
    front: Front,
)
    requires
        edges_inv(lists, nodes, pairs, own, members, bodies, pending, front, Set::empty()),
        front.stack == Seq::<Entity>::empty(),
        front.body is None,
        pending == Set::<Entity>::empty(),
    ensures
        lists.pending == Set::<Id>::empty(),
        holds_lists(nodes, lists.ends, lists.lists, Set::empty()),
        forall|c: Id| #[trigger]
            nodes.contains_key(c) && has_member(pairs, members, c) ==> own.contains(c),
        forall|c: Id| #[trigger]
            own.contains(c) ==> nodes.contains_key(c) && pairs.contains_key(c) && pair_fits(
                bodies,
                pairs[c],
                nodes[c].island_id,
            ),
{
    reveal(edges_inv);
    assert forall|c: Id| !lists.pending.contains(c) by {
        if lists.pending.contains(c) {
            assert(own.contains(c));
        }
    }
    assert(lists.pending =~= Set::<Id>::empty());
}

/// The constraints of a new island, which holds members of the island that was split, have their
/// bodies in it.
pub proof fn lemma_fits_new<Id>(
    nodes: Map<Id, IslandNode<Id>>,
    pairs: Map<Id, (Entity, Entity)>,
    own: Set<Id>,
    members: Set<Entity>,
    bodies: Map<Entity, IslandNode<Entity>>,
    k: IslandId,
)
    requires
        forall|c: Id| #[trigger]
            nodes.contains_key(c) && has_member(pairs, members, c) ==> own.contains(c),
        forall|c: Id| #[trigger]
            own.contains(c) ==> nodes.contains_key(c) && pairs.contains_key(c) && pair_fits(
                bodies,
                pairs[c],
                nodes[c].island_id,
            ),
        members_of(bodies, k).subset_of(members),
        forall|c: Id| #[trigger]
            nodes.contains_key(c) && nodes[c].island_id == k ==> own.contains(c),
    ensures
        pairs_fit_at(nodes, pairs, bodies, k),
{
    assert forall|c: Id| #[trigger]
        nodes.contains_key(c) && (nodes[c].island_id == k || has_member(
            pairs,
            members_of(bodies, k),
            c,
        )) implies own.contains(c) by {
        if has_member(pairs, members_of(bodies, k), c) {
            assert(has_member(pairs, members, c));
        }
    }
}

/// An island that keeps its members keeps its constraints in order.
pub proof fn lemma_fits_other<Id>(
    nodes: Map<Id, IslandNode<Id>>,
    nodes0: Map<Id, IslandNode<Id>>,
    pairs: Map<Id, (Entity, Entity)>,
    bodies: Map<Entity, IslandNode<Entity>>,
    bodies0: Map<Entity, IslandNode<Entity>>,
    k: IslandId,
)
    requires
        nodes.dom() == nodes0.dom(),
        bodies.dom() == bodies0.dom(),
        members_of(bodies, k) == members_of(bodies0, k),
        forall|c: Id| #[trigger]
            nodes.contains_key(c) ==> (nodes[c].island_id == k <==> nodes0[c].island_id == k),
        pairs_fit_at(nodes0, pairs, bodies0, k),
    ensures
        pairs_fit_at(nodes, pairs, bodies, k),
{
    assert forall|c: Id| #[trigger]
        nodes.contains_key(c) && (nodes[c].island_id == k || has_member(
            pairs,
            members_of(bodies, k),
            c,
        )) implies pairs.contains_key(c) && pair_fits(bodies, pairs[c], nodes[c].island_id) by {
        assert(nodes0.contains_key(c));
        assert(pair_fits(bodies0, pairs[c], nodes0[c].island_id));
        let (a, b) = pairs[c];
        assert(bodies.dom().contains(a) <==> bodies0.dom().contains(a));
        assert(bodies.dom().contains(b) <==> bodies0.dom().contains(b));
        assert(members_of(bodies, k).contains(a) <==> members_of(bodies0, k).contains(a));
        assert(members_of(bodies, k).contains(b) <==> members_of(bodies0, k).contains(b));
        assert(nodes0[c].island_id == k);
        assert(bodies0.contains_key(a) ==> members_of(bodies0, k).contains(a));
        assert(bodies0.contains_key(b) ==> members_of(bodies0, k).contains(b));
    }
}

/// During a search, every island has lists.
pub proof fn lemma_search_doms(
    search: Search,
    bodies: Map<Entity, IslandNode<Entity>>,
    contacts: Map<ContactId, IslandNode<ContactId>>,
    joints: Map<JointId, IslandNode<JointId>>,
    cluster: Cluster,
    current: IslandId,
    stack: Seq<Entity>,
)
    requires
        search.resting(bodies, contacts, joints, cluster, current, stack),
    ensures
        search.bodies.lists.dom() == search.bodies.ends.dom(),
        search.contacts.lists.dom() == search.contacts.ends.dom(),
        search.joints.lists.dom() == search.joints.ends.dom(),
        holds_lists(bodies, search.bodies.ends, search.bodies.lists, search.bodies.pending),
{
    reveal(bodies_inv);
    reveal(edges_inv);
    lemma_label(bodies, search.bodies.ends, search.bodies.lists, search.bodies.pending);
    lemma_label(contacts, search.contacts.ends, search.contacts.lists, search.contacts.pending);
    lemma_label(joints, search.joints.ends, search.joints.lists, search.joints.pending);
}

/// A new island without members changes nothing for the constraints.
proof fn lemma_edges_new_island<Id>(
    lists: Lists<Id>,
    nodes: Map<Id, IslandNode<Id>>,
    pairs: Map<Id, (Entity, Entity)>,
    own: Set<Id>,
    members: Set<Entity>,
    bodies: Map<Entity, IslandNode<Entity>>,
    bodies1: Map<Entity, IslandNode<Entity>>,
    pending: Set<Entity>,
    front: Front,
    island: IslandId,
    stack1: Seq<Entity>,
)
    requires
        edges_inv(lists, nodes, pairs, own, members, bodies, pending, front, Set::empty()),
        front.stack == Seq::<Entity>::empty(),
        front.body is None,
        !lists.ends.contains_key(island),
        lists.pending.len() <= u32::MAX,
        same_links(bodies, bodies1),
    ensures
        edges_inv(
            lists.with_island(island),
            nodes,
            pairs,
            own,
            members,
            bodies1,
            pending,
            (Front {
                fresh: front.fresh.insert(island),
                current: island,
                stack: stack1,
                body: None,
            }),
            Set::empty(),
        ),
        lists.with_island(island).has_room(island),
{
    reveal(edges_inv);
    lemma_add_empty(nodes, lists.ends, lists.lists, lists.pending, island);
    lemma_label(nodes, lists.ends, lists.lists, lists.pending);
    assert(forall|b: Entity| bodies.contains_key(b) <==> bodies1.contains_key(b));
}

/// Links the body on top of the stack to the island that is being filled.
proof fn lemma_visit(
    lists: Lists<Entity>,
    nodes: Map<Entity, IslandNode<Entity>>,
    front: Front,
)
    requires
        bodies_inv(lists, nodes, front),
        lists.has_room(front.current),
        front.stack.len() > 0,
    ensures
        lists.pending.contains(front.stack.last()),
        nodes.contains_key(front.stack.last()),
        lists.ends[front.current].count < u32::MAX,
        lists.ends[front.current].tail matches Some(tail) ==> nodes.contains_key(tail),
        ({
            let body = front.stack.last();
            let nodes1 = push_back_nodes(nodes, front.current, lists.ends[front.current], body);
            &&& bodies_inv(
                lists.push(front.current, body),
                nodes1,
                (Front { stack: front.stack.drop_last(), body: Some(body), ..front }),
            )
            &&& lists.push(front.current, body).has_room(front.current)
            &&& lists.push(front.current, body).pending.len() < lists.pending.len()
            &&& nodes1.dom() == nodes.dom()
            &&& forall|b: Entity| #[trigger]
                nodes1.contains_key(b) && b != body ==> nodes1[b].island_id == nodes[b].island_id
            &&& nodes1[body].island_id == front.current
            &&& nodes1[body].is_visited
        }),
{
    reveal(bodies_inv);
    let body = front.stack.last();
    let rest = front.stack.drop_last();
    assert(front.stack.contains(body));
    lemma_pending_has_node(lists, nodes);
    lemma_list(nodes, lists.ends, lists.lists, lists.pending, front.current);
    lemma_ends(nodes, front.current, lists.lists[front.current], lists.ends[front.current]);
    assert(lists.pending.len() > 0);
    lemma_push_back(nodes, lists.ends, lists.lists, lists.pending, front.current, body);
    let nodes1 = push_back_nodes(nodes, front.current, lists.ends[front.current], body);
    let lists1 = lists.push(front.current, body);
    lemma_push_back_nodes_dom(nodes, front.current, lists.ends[front.current], body);
    assert forall|b: Entity| rest.contains(b) <==> front.stack.contains(b) && b != body by {
        if rest.contains(b) {
            let n = choose|n: int| 0 <= n < rest.len() && rest[n] == b;
            assert(front.stack[n] == b);
        }
        if front.stack.contains(b) && b != body {
            let n = choose|n: int| 0 <= n < front.stack.len() && front.stack[n] == b;
            assert(rest[n] == b);
        }
    }
    assert(rest.no_duplicates());
}

proof fn lemma_push_back_nodes_dom<Id>(
    nodes: Map<Id, IslandNode<Id>>,
    island: IslandId,
    ends: ListEnds<Id>,
    id: Id,
)
    requires
        nodes.contains_key(id),
        ends.tail matches Some(tail) ==> nodes.contains_key(tail),
    ensures
        push_back_nodes(nodes, island, ends, id).dom() == nodes.dom(),
{
    assert(push_back_nodes(nodes, island, ends, id).dom() =~= nodes.dom());
}

/// Once a body was linked, its constraints are to be looked at.
proof fn lemma_edges_visit<Id>(
    lists: Lists<Id>,
    nodes: Map<Id, IslandNode<Id>>,
    pairs: Map<Id, (Entity, Entity)>,
    own: Set<Id>,
    members: Set<Entity>,
    bodies: Map<Entity, IslandNode<Entity>>,
    bodies1: Map<Entity, IslandNode<Entity>>,
    pending: Set<Entity>,
    front: Front,
)
    requires
        edges_inv(lists, nodes, pairs, own, members, bodies, pending, front, Set::empty()),
        front.body is None,
        front.stack.len() > 0,
        pending.contains(front.stack.last()),
        bodies1.dom() == bodies.dom(),
        forall|b: Entity| #[trigger]
            bodies1.contains_key(b) && b != front.stack.last() ==> bodies1[b].island_id
                == bodies[b].island_id,
        bodies1[front.stack.last()].island_id == front.current,
    ensures
        edges_inv(
            lists,
            nodes,
            pairs,
            own,
            members,
            bodies1,
            pending.remove(front.stack.last()),
            (Front { stack: front.stack.drop_last(), body: Some(front.stack.last()), ..front }),
            Set::full(),
        ),
{
    reveal(edges_inv);
    let body = front.stack.last();
    let rest = front.stack.drop_last();
    assert forall|b: Entity| #[trigger] front.stack.contains(b) && b != body implies rest.contains(
        b,
    ) by {
        let n = choose|n: int| 0 <= n < front.stack.len() && front.stack[n] == b;
        assert(rest[n] == b);
    }
    assert(forall|b: Entity| bodies.contains_key(b) <==> bodies1.contains_key(b));
}

/// Once its constraints were looked at, a body needs no more attention.
proof fn lemma_edges_done<Id>(
    lists: Lists<Id>,
    nodes: Map<Id, IslandNode<Id>>,
    pairs: Map<Id, (Entity, Entity)>,
    own: Set<Id>,
    members: Set<Entity>,
    bodies: Map<Entity, IslandNode<Entity>>,
    pending: Set<Entity>,
    front: Front,
)
    requires
        edges_inv(lists, nodes, pairs, own, members, bodies, pending, front, Set::empty()),
    ensures
        edges_inv(
            lists,
            nodes,
            pairs,
            own,
            members,
            bodies,
            pending,
            (Front { body: None, ..front }),
            Set::empty(),
        ),
{
    reveal(edges_inv);
}

proof fn lemma_bodies_done(
    lists: Lists<Entity>,
    nodes: Map<Entity, IslandNode<Entity>>,
    front: Front,
)
    requires
        bodies_inv(lists, nodes, front),
    ensures
        bodies_inv(lists, nodes, (Front { body: None, ..front })),
        forall|b: Entity| #[trigger] front.stack.contains(b) ==> lists.pending.contains(b),
{
    reveal(bodies_inv);
}

/// Starts filling a new island from a body.
proof fn lemma_start(
    lists: Lists<Entity>,
    nodes: Map<Entity, IslandNode<Entity>>,
    nodes1: Map<Entity, IslandNode<Entity>>,
    front: Front,
    island: IslandId,
    seed: Entity,
)
    requires
        bodies_inv(lists, nodes, front),
        front.stack == Seq::<Entity>::empty(),
        lists.pending.contains(seed),
        lists.pending.len() <= u32::MAX,
        !lists.ends.contains_key(island),
        nodes1 == nodes.insert(seed, (IslandNode { is_visited: true, ..nodes[seed] })),
    ensures
        bodies_inv(
            lists.with_island(island),
            nodes1,
            (Front {
                fresh: front.fresh.insert(island),
                current: island,
                stack: seq![seed],
                body: None,
            }),
        ),
        lists.with_island(island).has_room(island),
        same_links(nodes, nodes1),
{
    reveal(bodies_inv);
    lemma_pending_has_node(lists, nodes);
    lemma_add_empty(nodes, lists.ends, lists.lists, lists.pending, island);
    lemma_label(nodes, lists.ends, lists.lists, lists.pending);
    let with = lists.with_island(island);
    assert(nodes1.dom() =~= nodes.dom());
    lemma_same_links(nodes, nodes1, with.ends, with.lists, with.pending);
    assert(seq![seed][0] == seed);
    assert forall|b: Entity| #[trigger] lists.pending.contains(b) implies nodes1[b].is_visited
        == seq![seed].contains(b) by {
        assert(!front.stack.contains(b));
    }
}

proof fn lemma_grew_trans<Id>(c: Lists<Id>, b: Lists<Id>, a: Lists<Id>, island: IslandId)
    requires
        c.grew_from(b, island),
        b.grew_from(a, island),
        a.lists.contains_key(island),
    ensures
        c.grew_from(a, island),
{
    assert forall|x: Id| #[trigger] a.pending.contains(x) implies c.pending.contains(x)
        || c.lists[island].contains(x) by {
        if !b.pending.contains(x) {
            let i = choose|i: int| 0 <= i < b.lists[island].len() && b.lists[island][i] == x;
            assert(c.lists[island][i] == x);
        }
    }
    assert forall|i: int| 0 <= i < c.lists[island].len() implies a.lists[island].contains(
        #[trigger] c.lists[island][i],
    ) || a.pending.contains(c.lists[island][i]) by {
        let x = c.lists[island][i];
        if b.lists[island].contains(x) {
            let j = choose|j: int| 0 <= j < b.lists[island].len() && b.lists[island][j] == x;
            assert(b.lists[island][j] == x);
        }
    }
    assert forall|i: int| 0 <= i < a.lists[island].len() implies #[trigger] c.lists[island][i]
        == a.lists[island][i] by {
        assert(b.lists[island][i] == a.lists[island][i]);
    }
}

/// Fills a new island with all that hangs together with a body.
#[verifier::rlimit(50)]
pub(crate) fn explore(
    seed: Entity,
    island_id: IslandId,
    body_islands: &mut BodyIslands,
    contact_nodes: &mut NodeTable<ContactId>,
    joint_nodes: &mut NodeTable<JointId>,
    body_colliders: &BodyColliders,
    contact_graph: &ContactGraph,
    joint_graph: &JointGraph,
    Ghost(search): Ghost<Search>,
    Ghost(cluster): Ghost<Cluster>,
    Ghost(before): Ghost<IslandId>,
) -> (result: (PhysicsIsland, Ghost<Search>))
    requires
        contact_graph.wf(),
        joint_graph.wf(),
        cluster.contact_pairs == contact_pairs(contact_graph@),
        cluster.joint_pairs == joint_pairs(joint_graph@),
        colliders_fit(
            old(contact_nodes).nodes().dom(),
            contact_graph@,
            body_colliders@,
            cluster.bodies,
        ),
        search.resting(
            old(body_islands).nodes(),
            old(contact_nodes).nodes(),
            old(joint_nodes).nodes(),
            cluster,
            before,
            Seq::empty(),
        ),
        search.is_countable(),
        search.bodies.pending.contains(seed),
        !search.bodies.ends.contains_key(island_id),
        !search.contacts.ends.contains_key(island_id),
        !search.joints.ends.contains_key(island_id),
    ensures
        ({
            let after = result.1@;
            &&& after.resting(
                final(body_islands).nodes(),
                final(contact_nodes).nodes(),
                final(joint_nodes).nodes(),
                cluster,
                island_id,
                Seq::empty(),
            )
            &&& after.grew_from(search.with_island(island_id), island_id)
            &&& after.has_room(island_id)
            &&& result.0 == new_island(island_id).with_body_list(
                after.bodies.ends[island_id],
            ).with_contact_list(after.contacts.ends[island_id]).with_joint_list(
                after.joints.ends[island_id],
            )
            &&& after.bodies.lists[island_id].len() > 0
            &&& after.bodies.lists[island_id][0] == seed
            &&& !after.bodies.pending.contains(seed)
            &&& forall|b: Entity| #[trigger]
                after.bodies.lists[island_id].contains(b) ==> cluster.connected(seed, b)
        }),
        final(body_islands).nodes().dom() == old(body_islands).nodes().dom(),
        final(contact_nodes).nodes().dom() == old(contact_nodes).nodes().dom(),
        final(joint_nodes).nodes().dom() == old(joint_nodes).nodes().dom(),
{
    let ghost bodies0 = body_islands.nodes();
    let ghost contacts0 = contact_nodes.nodes();
    let ghost joints0 = joint_nodes.nodes();
    proof {
        reveal(bodies_inv);
        lemma_pending_has_node(search.bodies, bodies0);
    }
    let node = body_islands.node(seed).unwrap();
    body_islands.put(seed, IslandNode { is_visited: true, ..node });
    let mut island = PhysicsIsland::new(island_id);
    let mut stack: Vec<Entity> = Vec::new();
    stack.push(seed);
    let ghost start = search.with_island(island_id);
    let ghost mut now = start;
    proof {
        let front = Front {
            fresh: search.fresh,
            current: before,
            stack: Seq::empty(),
            body: None,
        };
        lemma_start(search.bodies, bodies0, body_islands.nodes(), front, island_id, seed);
        lemma_edges_new_island(
            search.contacts,
            contacts0,
            cluster.contact_pairs,
            cluster.contacts,
            cluster.bodies,
            bodies0,
            body_islands.nodes(),
            search.bodies.pending,
            front,
            island_id,
            stack@,
        );
        lemma_edges_new_island(
            search.joints,
            joints0,
            cluster.joint_pairs,
            cluster.joints,
            cluster.bodies,
            bodies0,
            body_islands.nodes(),
            search.bodies.pending,
            front,
            island_id,
            stack@,
        );
        assert(stack@ =~= seq![seed]);
        lemma_connected_self(cluster, seed);
        lemma_grew_refl(start.bodies, island_id);
        lemma_grew_refl(start.contacts, island_id);
        lemma_grew_refl(start.joints, island_id);
    }
    while stack.len() > 0
        invariant
            contact_graph.wf(),
            joint_graph.wf(),
            cluster.contact_pairs == contact_pairs(contact_graph@),
            cluster.joint_pairs == joint_pairs(joint_graph@),
            bodies0 == old(body_islands).nodes(),
            colliders_fit(contacts0.dom(), contact_graph@, body_colliders@, cluster.bodies),
            now.resting(
                body_islands.nodes(),
                contact_nodes.nodes(),
                joint_nodes.nodes(),
                cluster,
                island_id,
                stack@,
            ),
            now.grew_from(start, island_id),
            now.has_room(island_id),
            now.fresh.contains(island_id),
            start.has_room(island_id),
            island == new_island(island_id).with_body_list(
                now.bodies.ends[island_id],
            ).with_contact_list(now.contacts.ends[island_id]).with_joint_list(
                now.joints.ends[island_id],
            ),
            body_islands.nodes().dom() == bodies0.dom(),
            contact_nodes.nodes().dom() == contacts0.dom(),
            joint_nodes.nodes().dom() == joints0.dom(),
            now.bodies.lists[island_id].len() == 0 ==> stack@ == seq![seed],
            now.bodies.lists[island_id].len() > 0 ==> now.bodies.lists[island_id][0] == seed,
            forall|b: Entity| #[trigger] stack@.contains(b) ==> cluster.connected(seed, b),
            forall|b: Entity| #[trigger]
                now.bodies.lists[island_id].contains(b) ==> cluster.connected(seed, b),
        decreases now.bodies.pending.len(),
    {
        let ghost front = Front {
            fresh: now.fresh,
            current: island_id,
            stack: stack@,
            body: None,
        };
        let ghost before_pop = stack@;
        let ghost bodies1 = body_islands.nodes();
        let ghost was = now;
        proof {
            lemma_visit(now.bodies, bodies1, front);
        }
        let body = stack.pop().unwrap();
        // Link the body to the island.
        let pushed = push_back(body_islands, island_id, island.body_ends(), body);
        island.set_body_ends(pushed);
        let ghost bodies2 = body_islands.nodes();
        let ghost front2 = Front { stack: stack@, body: Some(body), ..front };
        proof {
            assert(stack@ =~= before_pop.drop_last());
            assert(before_pop.contains(body));
            lemma_edges_visit(
                now.contacts,
                contact_nodes.nodes(),
                cluster.contact_pairs,
                cluster.contacts,
                cluster.bodies,
                bodies1,
                bodies2,
                now.bodies.pending,
                front,
            );
            lemma_edges_visit(
                now.joints,
                joint_nodes.nodes(),
                cluster.joint_pairs,
                cluster.joints,
                cluster.bodies,
                bodies1,
                bodies2,
                now.bodies.pending,
                front,
            );
            lemma_grew_push(now.bodies, start.bodies, island_id, body);
            now = Search { bodies: now.bodies.push(island_id, body), ..now };
            assert forall|b: Entity| #[trigger]
                now.bodies.lists[island_id].contains(b) implies cluster.connected(seed, b) by {
                let n = choose|n: int|
                    0 <= n < now.bodies.lists[island_id].len() && now.bodies.lists[island_id][n]
                        == b;
                if n < was.bodies.lists[island_id].len() {
                    assert(was.bodies.lists[island_id][n] == b);
                    assert(was.bodies.lists[island_id].contains(b));
                }
            }
            assert forall|b: Entity| #[trigger] stack@.contains(b) implies before_pop.contains(
                b,
            ) by {
                let n = choose|n: int| 0 <= n < stack@.len() && stack@[n] == b;
                assert(before_pop[n] == b);
            }
        }
        // Go through the contacts of the body.
        let contact_edges = contact_edges_of(
            body,
            contact_nodes,
            body_colliders,
            contact_graph,
            Ghost(cluster.bodies),
        );
        let ghost stack2 = stack@;
        let (contact_ends, Ghost(contact_lists)) = link_edges(
            contact_nodes,
            &contact_edges,
            island_id,
            island.contact_ends(),
            body_islands,
            &mut stack,
            Ghost(now.contacts),
            Ghost(cluster.contact_pairs),
            Ghost(cluster.contacts),
            Ghost(cluster.bodies),
            Ghost(now.bodies),
            Ghost(front2),
        );
        island.set_contact_ends(contact_ends);
        let ghost bodies3 = body_islands.nodes();
        let ghost front3 = Front { stack: stack@, ..front2 };
        proof {
            lemma_stack_grew(
                now.joints,
                joint_nodes.nodes(),
                cluster.joint_pairs,
                cluster.joints,
                cluster.bodies,
                bodies2,
                bodies3,
                now.bodies.pending,
                front2,
                stack@,
                Set::full(),
            );
            lemma_grew_trans(contact_lists, now.contacts, start.contacts, island_id);
            lemma_bodies_done(now.bodies, bodies3, front3);
            assert forall|b: Entity| #[trigger] stack@.contains(b) implies cluster.connected(
                seed,
                b,
            ) by {
                if !stack2.contains(b) {
                    let c = choose|c: ContactId| #[trigger]
                        now.contacts.pending.contains(c) && is_of(
                            cluster.contact_pairs[c],
                            body,
                        ) && across(cluster.contact_pairs[c], body) == b;
                    assert(cluster.contacts.contains(c));
                    assert(cluster.adjacent(body, b));
                    lemma_connected_step(cluster, seed, body, b);
                }
            }
            now = Search { contacts: contact_lists, ..now };
        }
        // Go through the joints of the body.
        let joint_edges = joint_edges_of(body, joint_nodes, joint_graph);
        let ghost stack3 = stack@;
        let (joint_ends, Ghost(joint_lists)) = link_edges(
            joint_nodes,
            &joint_edges,
            island_id,
            island.joint_ends(),
            body_islands,
            &mut stack,
            Ghost(now.joints),
            Ghost(cluster.joint_pairs),
            Ghost(cluster.joints),
            Ghost(cluster.bodies),
            Ghost(now.bodies),
            Ghost(front3),
        );
        island.set_joint_ends(joint_ends);
        proof {
            let bodies4 = body_islands.nodes();
            let front4 = Front { stack: stack@, ..front3 };
            lemma_stack_grew(
                now.contacts,
                contact_nodes.nodes(),
                cluster.contact_pairs,
                cluster.contacts,
                cluster.bodies,
                bodies3,
                bodies4,
                now.bodies.pending,
                front3,
                stack@,
                Set::empty(),
            );
            lemma_grew_trans(joint_lists, now.joints, start.joints, island_id);
            lemma_bodies_done(now.bodies, bodies4, front4);
            assert forall|b: Entity| #[trigger] stack@.contains(b) implies cluster.connected(
                seed,
                b,
            ) by {
                if !stack3.contains(b) {
                    let c = choose|c: JointId| #[trigger]
                        now.joints.pending.contains(c) && is_of(cluster.joint_pairs[c], body)
                            && across(cluster.joint_pairs[c], body) == b;
                    assert(cluster.joints.contains(c));
                    assert(cluster.adjacent(body, b));
                    lemma_connected_step(cluster, seed, body, b);
                }
            }
            now = Search { joints: joint_lists, ..now };
            lemma_edges_done(
                now.contacts,
                contact_nodes.nodes(),
                cluster.contact_pairs,
                cluster.contacts,
                cluster.bodies,
                bodies4,
                now.bodies.pending,
                front4,
            );
            lemma_edges_done(
                now.joints,
                joint_nodes.nodes(),
                cluster.joint_pairs,
                cluster.joints,
                cluster.bodies,
                bodies4,
                now.bodies.pending,
                front4,
            );
        }
    }
    proof {
        assert(stack@ =~= Seq::<Entity>::empty());
        assert(now.bodies.lists[island_id].len() > 0) by {
            if now.bodies.lists[island_id].len() == 0 {
                assert(seq![seed].len() == 1);
            }
        }
        reveal(bodies_inv);
        lemma_member(
            body_islands.nodes(),
            now.bodies.ends,
            now.bodies.lists,
            now.bodies.pending,
        );
        assert(now.bodies.lists[island_id].contains(now.bodies.lists[island_id][0]));
    }
    (island, Ghost(now))
}

} // verus!
