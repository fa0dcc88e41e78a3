//! The commands that put islands to sleep and wake them up.

use vstd::prelude::*;

use crate::body_colliders::BodyColliders;
use crate::contact_graph::{are_edges_with, lists_id, ContactEdge, ContactGraph};
use crate::entity::{ContactId, Entity};
use crate::islands::island::PhysicsIsland;
use crate::islands::laws::members_name_their_island;
use crate::islands::list::{lists_of, members};
use crate::islands::manager::{
    body_lists, cluster_of, contact_lists, is_other_island, is_part_of, is_split,
    joint_lists, lemma_views, lemma_wf_views, IslandView, PhysicsIslands,
};
use crate::islands::node::{BodyIslands, IslandId, IslandNode, NodeStore};
use crate::islands::search::edge_fits;
use crate::islands::sleep_laws::{sleeping_contacts_are_listed, woken_contacts_are_listed};
use crate::islands::sleeping::{BodyCommandError, SleepBody, SleepIslands, WakeBody, WakeIslands};
use crate::joint_graph::JointGraph;

verus! {

/// What putting islands to sleep, or waking them up, asks for.
#[derive(Debug)]
pub struct SleepOutcome {
    /// The bodies that are to be marked as sleeping, or as awake.
    pub bodies: Vec<Entity>,
    /// The contacts that constrain the motion of bodies, and fell asleep or woke up.
    pub contacts: Vec<ContactEdge>,
}

/// What the islands hold once the given islands sleep, or are awake.
pub open spec fn with_sleeping(
    model: Map<IslandId, IslandView>,
    ids: Seq<IslandId>,
    sleeping: bool,
) -> Map<IslandId, IslandView> {
    Map::new(
        |k: IslandId| model.contains_key(k),
        |k: IslandId|
            if ids.contains(k) {
                IslandView { is_sleeping: sleeping, ..model[k] }
            } else {
                model[k]
            },
    )
}

/// The bodies of the given islands that are to fall asleep, or to wake up, in the order in which the
/// islands are given.
pub open spec fn bodies_to_change(
    model: Map<IslandId, IslandView>,
    ids: Seq<IslandId>,
    sleeping: bool,
) -> Seq<Entity>
    decreases ids.len(),
{
    if ids.len() == 0 {
        Seq::empty()
    } else {
        let rest = ids.drop_last();
        let k = ids.last();
        if model.contains_key(k) && model[k].is_sleeping != sleeping && !rest.contains(k) {
            bodies_to_change(model, rest, sleeping) + model[k].bodies
        } else {
            bodies_to_change(model, rest, sleeping)
        }
    }
}

/// The colliders of the given bodies, in the order in which the bodies are given.
pub open spec fn colliders_of(
    colliders: Map<Entity, Seq<Entity>>,
    bodies: Seq<Entity>,
) -> Seq<Entity>
    decreases bodies.len(),
{
    if bodies.len() == 0 {
        Seq::empty()
    } else if colliders.contains_key(bodies.last()) {
        colliders_of(colliders, bodies.drop_last()) + colliders[bodies.last()]
    } else {
        colliders_of(colliders, bodies.drop_last())
    }
}

/// Whether a body sleeps, or cannot move: it is not there, is part of no island, or is part of an
/// island that sleeps or does not exist.
pub open spec fn body_asleep(
    map: Map<IslandId, PhysicsIsland>,
    nodes: Map<Entity, IslandNode<Entity>>,
    body: Option<Entity>,
) -> bool {
    match body {
        Some(b) => nodes.contains_key(b) ==> map.contains_key(nodes[b].island_id) ==> map[
            nodes[b].island_id
        ].is_sleeping,
        None => true,
    }
}

/// Whether a contact pair falls asleep, or wakes up, with a collider. It falls asleep only if the
/// body on the other side sleeps.
pub open spec fn edge_follows(
    edge: ContactEdge,
    collider: Entity,
    sleeping: bool,
    map: Map<IslandId, PhysicsIsland>,
    nodes: Map<Entity, IslandNode<Entity>>,
) -> bool {
    edge.is_of(collider) && (sleeping ==> body_asleep(map, nodes, edge.body_across(collider)))
}

/// Whether a contact pair falls asleep, or wakes up, with one of the first `len` colliders.
pub open spec fn edge_follows_one(
    edge: ContactEdge,
    colliders: Seq<Entity>,
    len: int,
    sleeping: bool,
    map: Map<IslandId, PhysicsIsland>,
    nodes: Map<Entity, IslandNode<Entity>>,
) -> bool {
    exists|n: int|
        0 <= n < len && edge_follows(edge, #[trigger] colliders[n], sleeping, map, nodes)
}

/// Whether a contact pair that falls asleep, or wakes up, is to be taken out of the constraint graph,
/// or put back into it.
pub open spec fn edge_constrains(edge: ContactEdge, sleeping: bool) -> bool {
    &&& edge.is_touching
    &&& edge.generates_constraints
    &&& sleeping ==> edge.body1 is Some && edge.body2 is Some
}

/// The contact pairs once those of the given colliders fell asleep, or woke up.
pub open spec fn graph_with_sleeping(
    graph: Map<ContactId, ContactEdge>,
    colliders: Seq<Entity>,
    len: int,
    sleeping: bool,
    map: Map<IslandId, PhysicsIsland>,
    nodes: Map<Entity, IslandNode<Entity>>,
) -> Map<ContactId, ContactEdge> {
    Map::new(
        |c: ContactId| graph.contains_key(c),
        |c: ContactId|
            if edge_follows_one(graph[c], colliders, len, sleeping, map, nodes) {
                ContactEdge { is_sleeping: sleeping, ..graph[c] }
            } else {
                graph[c]
            },
    )
}

/// Whether a contact pair changes between asleep and awake, and constrains the motion of bodies.
pub open spec fn edge_changes(
    edge: ContactEdge,
    colliders: Seq<Entity>,
    len: int,
    sleeping: bool,
    map: Map<IslandId, PhysicsIsland>,
    nodes: Map<Entity, IslandNode<Entity>>,
) -> bool {
    &&& edge.is_sleeping != sleeping
    &&& edge_follows_one(edge, colliders, len, sleeping, map, nodes)
    &&& edge_constrains(edge, sleeping)
}

/// Whether the sequence holds the contact pairs that change between asleep and awake and constrain
/// the motion of bodies, each once, as they were before.
pub open spec fn are_changed_edges(
    edges: Seq<ContactEdge>,
    graph: Map<ContactId, ContactEdge>,
    colliders: Seq<Entity>,
    len: int,
    sleeping: bool,
    map: Map<IslandId, PhysicsIsland>,
    nodes: Map<Entity, IslandNode<Entity>>,
) -> bool {
    &&& forall|i: int|
        0 <= i < edges.len() ==> graph.contains_key((#[trigger] edges[i]).id) && graph[edges[i].id]
            == edges[i] && edge_changes(edges[i], colliders, len, sleeping, map, nodes)
    &&& forall|c: ContactId| #[trigger]
        graph.contains_key(c) && edge_changes(graph[c], colliders, len, sleeping, map, nodes)
            ==> lists_id(edges, c)
    &&& forall|i: int, j: int|
        0 <= i < j < edges.len() ==> (#[trigger] edges[i]).id != (#[trigger] edges[j]).id
}

/// Whether a body sleeps, or cannot move.
fn is_body_asleep(
    body: Option<Entity>,
    islands: &PhysicsIslands,
    body_islands: &BodyIslands,
) -> (asleep: bool)
    ensures
        asleep == body_asleep(islands.map(), body_islands.nodes(), body),
{
    match body {
        None => true,
        Some(body) => match body_islands.node(body) {
            None => true,
            Some(node) => match islands.get(node.island_id) {
                None => true,
                Some(island) => island.is_sleeping,
            },
        },
    }
}

/// Whether an edge is one of the first `len`, changes with a collider, and constrains the motion of
/// bodies.
spec fn changes_with(
    edges: Seq<ContactEdge>,
    len: int,
    edge: ContactEdge,
    collider: Entity,
    sleeping: bool,
    map: Map<IslandId, PhysicsIsland>,
    nodes: Map<Entity, IslandNode<Entity>>,
) -> bool {
    &&& exists|m: int| 0 <= m < len && #[trigger] edges[m] == edge
    &&& edge.is_sleeping != sleeping
    &&& edge_follows(edge, collider, sleeping, map, nodes)
    &&& edge_constrains(edge, sleeping)
}

/// Once the contact pairs of a collider were looked at, all is done for this collider.
proof fn lemma_collider_done(
    graph0: Map<ContactId, ContactEdge>,
    graph1: Map<ContactId, ContactEdge>,
    graph2: Map<ContactId, ContactEdge>,
    all: Seq<Entity>,
    i: int,
    sleeping: bool,
    map: Map<IslandId, PhysicsIsland>,
    nodes: Map<Entity, IslandNode<Entity>>,
    edges: Seq<ContactEdge>,
    changed1: Seq<ContactEdge>,
    changed: Seq<ContactEdge>,
)
    requires
        0 <= i < all.len(),
        graph1 == graph_with_sleeping(graph0, all, i, sleeping, map, nodes),
        are_edges_with(edges, graph1, all[i]),
        forall|c: ContactId| #[trigger] graph1.contains_key(c) ==> graph1[c].id == c,
        graph2.dom() == graph1.dom(),
        forall|n: int|
            0 <= n < edges.len() ==> graph2[(#[trigger] edges[n]).id] == (if edge_follows(
                edges[n],
                all[i],
                sleeping,
                map,
                nodes,
            ) {
                ContactEdge { is_sleeping: sleeping, ..edges[n] }
            } else {
                edges[n]
            }),
        forall|c: ContactId| #[trigger]
            graph1.contains_key(c) && (forall|n: int|
                0 <= n < edges.len() ==> (#[trigger] edges[n]).id != c) ==> graph2[c] == graph1[c],
        are_changed_edges(changed1, graph0, all, i, sleeping, map, nodes),
        changed1.len() <= changed.len(),
        forall|n: int| 0 <= n < changed1.len() ==> #[trigger] changed[n] == changed1[n],
        forall|n: int|
            changed1.len() <= n < changed.len() ==> changes_with(
                edges,
                edges.len() as int,
                #[trigger] changed[n],
                all[i],
                sleeping,
                map,
                nodes,
            ),
        forall|m: int|
            0 <= m < edges.len() && changes_with(
                edges,
                edges.len() as int,
                #[trigger] edges[m],
                all[i],
                sleeping,
                map,
                nodes,
            ) ==> lists_id(changed, edges[m].id),
        forall|n: int, m: int|
            changed1.len() <= n < m < changed.len() ==> (#[trigger] changed[n]).id != (
            #[trigger] changed[m]).id,
    ensures
        graph2 == graph_with_sleeping(graph0, all, i + 1, sleeping, map, nodes),
        are_changed_edges(changed, graph0, all, i + 1, sleeping, map, nodes),
{
    let collider = all[i];
    assert forall|e: ContactEdge|
        #![trigger edge_follows_one(e, all, i + 1, sleeping, map, nodes)]
        edge_follows_one(e, all, i + 1, sleeping, map, nodes) <==> edge_follows_one(
            e,
            all,
            i,
            sleeping,
            map,
            nodes,
        ) || edge_follows(e, collider, sleeping, map, nodes) by {
        if edge_follows(e, collider, sleeping, map, nodes) {
            assert(edge_follows(e, all[i], sleeping, map, nodes));
        }
    }
    assert forall|c: ContactId| #[trigger] graph1.contains_key(c) implies graph2[c]
        == graph_with_sleeping(graph0, all, i + 1, sleeping, map, nodes)[c] by {
        let e0 = graph0[c];
        let e1 = graph1[c];
        assert(edge_follows_one(e0, all, i + 1, sleeping, map, nodes) <==> edge_follows_one(
            e0,
            all,
            i,
            sleeping,
            map,
            nodes,
        ) || edge_follows(e0, collider, sleeping, map, nodes));
        assert(edge_follows(e1, collider, sleeping, map, nodes) <==> edge_follows(
            e0,
            collider,
            sleeping,
            map,
            nodes,
        ));
        if e1.is_of(collider) {
            assert(lists_id(edges, c));
            let n = choose|n: int| 0 <= n < edges.len() && (#[trigger] edges[n]).id == c;
            assert(edges[n] == e1);
        } else {
            assert forall|n: int| 0 <= n < edges.len() implies (#[trigger] edges[n]).id != c by {
                if edges[n].id == c {
                    assert(graph1[edges[n].id] == edges[n]);
                }
            }
        }
    }
    assert(graph2 =~= graph_with_sleeping(graph0, all, i + 1, sleeping, map, nodes));
    assert forall|n: int| 0 <= n < changed.len() implies graph0.contains_key(
        (#[trigger] changed[n]).id,
    ) && graph0[changed[n].id] == changed[n] && edge_changes(
        changed[n],
        all,
        i + 1,
        sleeping,
        map,
        nodes,
    ) by {
        if n < changed1.len() {
            assert(changed[n] == changed1[n]);
            assert(edge_follows_one(changed[n], all, i + 1, sleeping, map, nodes));
        } else {
            let m = choose|m: int| 0 <= m < edges.len() && #[trigger] edges[m] == changed[n];
            let c = edges[m].id;
            assert(graph1.contains_key(c) && graph1[c] == edges[m]);
            assert(graph0.contains_key(c));
            assert(edge_follows_one(changed[n], all, i + 1, sleeping, map, nodes));
        }
    }
    assert forall|c: ContactId| #[trigger]
        graph0.contains_key(c) && edge_changes(
            graph0[c],
            all,
            i + 1,
            sleeping,
            map,
            nodes,
        ) implies lists_id(changed, c) by {
        let e0 = graph0[c];
        assert(graph1.contains_key(c));
        if edge_follows_one(e0, all, i, sleeping, map, nodes) {
            assert(lists_id(changed1, c));
            let n = choose|n: int| 0 <= n < changed1.len() && (#[trigger] changed1[n]).id == c;
            assert(changed[n].id == c);
        } else {
            assert(edge_follows_one(e0, all, i + 1, sleeping, map, nodes));
            assert(edge_follows(e0, collider, sleeping, map, nodes));
            assert(graph1[c] == e0);
            assert(lists_id(edges, c));
            let n = choose|n: int| 0 <= n < edges.len() && (#[trigger] edges[n]).id == c;
            assert(edges[n] == e0);
            assert(changes_with(
                edges,
                edges.len() as int,
                edges[n],
                collider,
                sleeping,
                map,
                nodes,
            ));
        }
    }
    assert forall|n: int, m: int| 0 <= n < m < changed.len() implies (#[trigger] changed[n]).id != (
    #[trigger] changed[m]).id by {
        if m < changed1.len() {
            assert(changed[n] == changed1[n] && changed[m] == changed1[m]);
        } else if n < changed1.len() {
            assert(changed[n] == changed1[n]);
            assert(edge_changes(changed1[n], all, i, sleeping, map, nodes));
            let k = choose|k: int| 0 <= k < edges.len() && #[trigger] edges[k] == changed[m];
            let c = edges[k].id;
            assert(graph1[c] == edges[k]);
            assert(graph1.contains_key(c));
            if changed[n].id == changed[m].id {
                assert(graph0[c] == changed1[n]);
                assert(false);
            }
        }
    }
}

/// Puts the contact pairs of colliders to sleep, or wakes them up. Returns those that constrain the
/// motion of bodies.
fn set_contacts_sleeping(
    contact_graph: &mut ContactGraph,
    colliders: &Vec<Entity>,
    sleeping: bool,
    islands: &PhysicsIslands,
    body_islands: &BodyIslands,
) -> (changed: Vec<ContactEdge>)
    requires
        old(contact_graph).wf(),
    ensures
        final(contact_graph).wf(),
        final(contact_graph)@ == graph_with_sleeping(
            old(contact_graph)@,
            colliders@,
            colliders@.len() as int,
            sleeping,
            islands.map(),
            body_islands.nodes(),
        ),
        final(contact_graph).keys() == old(contact_graph).keys(),
        are_changed_edges(
            changed@,
            old(contact_graph)@,
            colliders@,
            colliders@.len() as int,
            sleeping,
            islands.map(),
            body_islands.nodes(),
        ),
{
    let ghost graph0 = contact_graph@;
    let ghost map = islands.map();
    let ghost nodes = body_islands.nodes();
    let ghost all = colliders@;
    let mut changed: Vec<ContactEdge> = Vec::new();
    let mut i: usize = 0;
    proof {
        assert(graph0 =~= graph_with_sleeping(graph0, all, 0, sleeping, map, nodes));
    }
    while i < colliders.len()
        invariant
            i <= colliders@.len(),
            all == colliders@,
            map == islands.map(),
            nodes == body_islands.nodes(),
            contact_graph.wf(),
            contact_graph.keys() == old(contact_graph).keys(),
            contact_graph@ == graph_with_sleeping(graph0, all, i as int, sleeping, map, nodes),
            are_changed_edges(changed@, graph0, all, i as int, sleeping, map, nodes),
        decreases colliders@.len() - i,
    {
        let collider = colliders[i];
        let ghost graph1 = contact_graph@;
        let ghost changed1 = changed@;
        proof {
            contact_graph.lemma_ids();
        }
        let edges = contact_graph.contact_edges_with(collider);
        let mut k: usize = 0;
        while k < edges.len()
            invariant
                i < colliders@.len(),
                all == colliders@,
                collider == all[i as int],
                map == islands.map(),
                nodes == body_islands.nodes(),
                k <= edges@.len(),
                contact_graph.wf(),
                contact_graph.keys() == old(contact_graph).keys(),
                are_edges_with(edges@, graph1, collider),
                forall|c: ContactId| #[trigger] graph1.contains_key(c) ==> graph1[c].id == c,
                contact_graph@.dom() == graph1.dom(),
                graph1 == graph_with_sleeping(graph0, all, i as int, sleeping, map, nodes),
                // The pairs that were looked at already.
                forall|n: int|
                    0 <= n < k ==> contact_graph@[(#[trigger] edges@[n]).id] == (if edge_follows(
                        edges@[n],
                        collider,
                        sleeping,
                        map,
                        nodes,
                    ) {
                        ContactEdge { is_sleeping: sleeping, ..edges@[n] }
                    } else {
                        edges@[n]
                    }),
                // The others.
                forall|c: ContactId| #[trigger]
                    graph1.contains_key(c) && (forall|n: int|
                        0 <= n < k ==> (#[trigger] edges@[n]).id != c) ==> contact_graph@[c]
                        == graph1[c],
                changed1.len() <= changed@.len(),
                forall|n: int| 0 <= n < changed1.len() ==> #[trigger] changed@[n] == changed1[n],
                forall|n: int|
                    changed1.len() <= n < changed@.len() ==> changes_with(
                        edges@,
                        k as int,
                        #[trigger] changed@[n],
                        collider,
                        sleeping,
                        map,
                        nodes,
                    ),
                forall|m: int|
                    0 <= m < k && changes_with(
                        edges@,
                        edges@.len() as int,
                        #[trigger] edges@[m],
                        collider,
                        sleeping,
                        map,
                        nodes,
                    ) ==> lists_id(changed@, edges@[m].id),
                forall|n: int, m: int|
                    changed1.len() <= n < m < changed@.len() ==> (#[trigger] changed@[n]).id != (
                    #[trigger] changed@[m]).id,
            decreases edges@.len() - k,
        {
            let edge = edges[k];
            let ghost changed2 = changed@;
            let ghost graph2 = contact_graph@;
            assert(graph1.contains_key(edge.id));
            assert(contact_graph@[edge.id] == edge);
            if edge.is_sleeping != sleeping {
                let follows = if sleeping {
                    is_body_asleep(edge.other_body(collider), islands, body_islands)
                } else {
                    true
                };
                if follows {
                    contact_graph.set_edge(
                        edge.id,
                        ContactEdge { is_sleeping: sleeping, ..edge },
                    );
                    let constrains = edge.is_touching && edge.generates_constraints && (!sleeping
                        || (edge.body1.is_some() && edge.body2.is_some()));
                    if constrains {
                        proof {
                            assert forall|n: int| changed1.len() <= n < changed2.len() implies (
                            #[trigger] changed2[n]).id != edge.id by {
                                let m = choose|m: int| 0 <= m < k && #[trigger] edges@[m] == changed2[n];
                                assert(edges@[m].id.0 < edges@[k as int].id.0);
                            }
                        }
                        changed.push(edge);
                        assert(changed@[changed2.len() as int].id == edge.id);
                    }
                }
            }
            proof {
                assert(contact_graph@.dom() =~= graph1.dom());
                assert forall|n: int| 0 <= n < k + 1 implies contact_graph@[(
                #[trigger] edges@[n]).id] == (if edge_follows(
                    edges@[n],
                    collider,
                    sleeping,
                    map,
                    nodes,
                ) {
                    ContactEdge { is_sleeping: sleeping, ..edges@[n] }
                } else {
                    edges@[n]
                }) by {
                    if n < k {
                        assert(edges@[n].id.0 < edges@[k as int].id.0);
                    }
                }
                assert forall|c: ContactId| #[trigger]
                    graph1.contains_key(c) && (forall|n: int|
                        0 <= n < k + 1 ==> (#[trigger] edges@[n]).id != c) implies contact_graph@[c]
                    == graph1[c] by {
                    assert(edges@[k as int].id != c);
                    assert(graph2[c] == graph1[c]);
                }
                assert forall|m: int|
                    0 <= m < k + 1 && changes_with(
                        edges@,
                        edges@.len() as int,
                        #[trigger] edges@[m],
                        collider,
                        sleeping,
                        map,
                        nodes,
                    ) implies lists_id(changed@, edges@[m].id) by {
                    if m < k {
                        let n = choose|n: int|
                            0 <= n < changed2.len() && (#[trigger] changed2[n]).id == edges@[m].id;
                        assert(changed@[n].id == edges@[m].id);
                    } else {
                        assert(changed@[changed2.len() as int].id == edges@[m].id);
                    }
                }
                assert forall|n: int| changed1.len() <= n < changed@.len() implies changes_with(
                    edges@,
                    k + 1,
                    #[trigger] changed@[n],
                    collider,
                    sleeping,
                    map,
                    nodes,
                ) by {
                    if n < changed2.len() {
                        assert(changed@[n] == changed2[n]);
                        let m = choose|m: int| 0 <= m < k && #[trigger] edges@[m] == changed2[n];
                        assert(edges@[m] == changed@[n]);
                    } else {
                        assert(edges@[k as int] == changed@[n]);
                    }
                }
            }
            k = k + 1;
        }
        proof {
            lemma_collider_done(
                graph0,
                graph1,
                contact_graph@,
                all,
                i as int,
                sleeping,
                map,
                nodes,
                edges@,
                changed1,
                changed@,
            );
        }
        i = i + 1;
    }
    changed
}

/// Marks an island as sleeping, or as awake.
fn set_island_sleeping(
    island_id: IslandId,
    sleeping: bool,
    islands: &mut PhysicsIslands,
    body_islands: &BodyIslands,
)
    requires
        old(islands).wf(body_islands),
        old(islands).map().contains_key(island_id),
    ensures
        final(islands).wf(body_islands),
        final(islands).model(body_islands) == with_sleeping(
            old(islands).model(body_islands),
            seq![island_id],
            sleeping,
        ),
        final(islands).contact_map() == old(islands).contact_map(),
        final(islands).joint_map() == old(islands).joint_map(),
        final(islands).candidate() == old(islands).candidate(),
        final(islands).candidate_timer() == old(islands).candidate_timer(),
        old(islands).candidate_exists() ==> final(islands).candidate_exists(),
        final(islands).slots() == old(islands).slots(),
{
    let ghost before = islands.map();
    let ghost model = islands.model(body_islands);
    if let Some(island) = islands.get_mut(island_id) {
        island.is_sleeping = sleeping;
    }
    proof {
        let map = islands.map();
        let nodes = body_islands.nodes();
        assert(body_lists(map) =~= body_lists(before));
        assert(contact_lists(map) =~= contact_lists(before));
        assert(joint_lists(map) =~= joint_lists(before));
        lemma_views(
            map,
            nodes,
            islands.contact_map(),
            islands.joint_map(),
            lists_of(nodes, body_lists(before)),
            lists_of(islands.contact_map(), contact_lists(before)),
            lists_of(islands.joint_map(), joint_lists(before)),
        );
        assert(seq![island_id][0] == island_id);
        assert(islands.model(body_islands) =~= with_sleeping(model, seq![island_id], sleeping));
    }
}

/// Marks islands as sleeping, or as awake. Returns the bodies of those that were not before.
fn set_islands_sleeping(
    ids: &Vec<IslandId>,
    sleeping: bool,
    islands: &mut PhysicsIslands,
    body_islands: &BodyIslands,
) -> (bodies: Vec<Entity>)
    requires
        old(islands).wf(body_islands),
    ensures
        final(islands).wf(body_islands),
        final(islands).model(body_islands) == with_sleeping(
            old(islands).model(body_islands),
            ids@,
            sleeping,
        ),
        bodies@ == bodies_to_change(old(islands).model(body_islands), ids@, sleeping),
        final(islands).contact_map() == old(islands).contact_map(),
        final(islands).joint_map() == old(islands).joint_map(),
        final(islands).candidate() == old(islands).candidate(),
        final(islands).candidate_timer() == old(islands).candidate_timer(),
        old(islands).candidate_exists() ==> final(islands).candidate_exists(),
        final(islands).slots() == old(islands).slots(),
{
    let ghost model0 = islands.model(body_islands);
    let mut bodies: Vec<Entity> = Vec::new();
    let mut i: usize = 0;
    assert(model0 =~= with_sleeping(model0, ids@.take(0), sleeping));
    while i < ids.len()
        invariant
            i <= ids@.len(),
            islands.wf(body_islands),
            islands.model(body_islands) == with_sleeping(
                model0,
                ids@.take(i as int),
                sleeping,
            ),
            bodies@ == bodies_to_change(model0, ids@.take(i as int), sleeping),
            islands.contact_map() == old(islands).contact_map(),
            islands.joint_map() == old(islands).joint_map(),
            islands.candidate() == old(islands).candidate(),
            islands.candidate_timer() == old(islands).candidate_timer(),
            old(islands).candidate_exists() ==> islands.candidate_exists(),
            islands.slots() == old(islands).slots(),
        decreases ids@.len() - i,
    {
        let id = ids[i];
        let ghost model1 = islands.model(body_islands);
        let ghost done = ids@.take(i as int);
        let ghost bodies0 = bodies@;
        let ghost found_here = islands.map().contains_key(id);
        proof {
            assert(model1.contains_key(id) <==> found_here);
            assert(with_sleeping(model0, done, sleeping).contains_key(id) <==> model0.contains_key(
                id,
            ));
            assert(ids@.take(i + 1) =~= done.push(id));
            assert(ids@.take(i + 1).drop_last() =~= done);
            assert(ids@.take(i + 1).last() == id);
            assert forall|k: IslandId| ids@.take(i + 1).contains(k) <==> done.contains(k) || k
                == id by {
                if done.contains(k) {
                    let n = choose|n: int| 0 <= n < done.len() && done[n] == k;
                    assert(ids@.take(i + 1)[n] == k);
                }
                if k == id {
                    assert(ids@.take(i + 1)[i as int] == k);
                }
            }
        }
        if let Some(found) = islands.get(id) {
            let island = *found;
            proof {
                assert(islands.map().contains_key(id));
                assert(islands.model(body_islands).contains_key(id));
                assert(with_sleeping(model0, done, sleeping).contains_key(id));
                assert(model0.contains_key(id));
                assert(model1[id].is_sleeping == island.is_sleeping);
            }
            if island.is_sleeping != sleeping {
                proof {
                    lemma_wf_views(
                        islands.map(),
                        body_islands.nodes(),
                        islands.contact_map(),
                        islands.joint_map(),
                        id,
                    );
                    assert(!done.contains(id));
                }
                let mut list = members(body_islands, island.id, island.body_ends());
                assert(list@ == model0[id].bodies);
                bodies.append(&mut list);
                assert(bodies@ == bodies0 + model0[id].bodies);
                set_island_sleeping(id, sleeping, islands, body_islands);
                assert(seq![id][0] == id);
            }
        }
        proof {
            assert(islands.model(body_islands) =~= with_sleeping(
                model0,
                ids@.take(i + 1),
                sleeping,
            ));
            let changes = model0.contains_key(id) && model0[id].is_sleeping != sleeping
                && !done.contains(id);
            assert(bodies@ == if changes {
                bodies0 + model0[id].bodies
            } else {
                bodies0
            });
            assert(bodies_to_change(model0, ids@.take(i + 1), sleeping) == if changes {
                bodies_to_change(model0, done, sleeping) + model0[id].bodies
            } else {
                bodies_to_change(model0, done, sleeping)
            });
        }
        i = i + 1;
    }
    assert(ids@.take(i as int) =~= ids@);
    bodies
}

/// The colliders of the given bodies.
fn gather_colliders(bodies: &Vec<Entity>, body_colliders: &BodyColliders) -> (colliders: Vec<
    Entity,
>)
    ensures
        colliders@ == colliders_of(body_colliders@, bodies@),
{
    let mut colliders: Vec<Entity> = Vec::new();
    let mut i: usize = 0;
    while i < bodies.len()
        invariant
            i <= bodies@.len(),
            colliders@ == colliders_of(body_colliders@, bodies@.take(i as int)),
        decreases bodies@.len() - i,
    {
        assert(bodies@.take(i + 1).drop_last() =~= bodies@.take(i as int));
        if let Some(own) = body_colliders.get(bodies[i]) {
            let mut k: usize = 0;
            let ghost before = colliders@;
            while k < own.len()
                invariant
                    k <= own@.len(),
                    colliders@ == before + own@.take(k as int),
                decreases own@.len() - k,
            {
                colliders.push(own[k]);
                assert(own@.take(k + 1) =~= own@.take(k as int).push(own@[k as int]));
                assert(colliders@ =~= before + own@.take(k + 1));
                k = k + 1;
            }
            assert(own@.take(k as int) =~= own@);
        }
        i = i + 1;
    }
    assert(bodies@.take(i as int) =~= bodies@);
    colliders
}

impl SleepIslands {
    /// Puts the islands to sleep, unless they are sleeping already.
    ///
    /// A contact pair falls asleep with one of its bodies only if the other one sleeps too, or
    /// cannot move.
    pub fn apply(
        self,
        islands: &mut PhysicsIslands,
        body_islands: &BodyIslands,
        body_colliders: &BodyColliders,
        contact_graph: &mut ContactGraph,
    ) -> (outcome: SleepOutcome)
        requires
            old(islands).wf(body_islands),
            old(contact_graph).wf(),
        ensures
            final(islands).wf(body_islands),
            final(contact_graph).wf(),
            final(islands).model(body_islands) == with_sleeping(
                old(islands).model(body_islands),
                self.0@,
                true,
            ),
            outcome.bodies@ == bodies_to_change(old(islands).model(body_islands), self.0@, true),
            ({
                let colliders = colliders_of(body_colliders@, outcome.bodies@);
                &&& final(contact_graph)@ == graph_with_sleeping(
                    old(contact_graph)@,
                    colliders,
                    colliders.len() as int,
                    true,
                    final(islands).map(),
                    body_islands.nodes(),
                )
                &&& are_changed_edges(
                    outcome.contacts@,
                    old(contact_graph)@,
                    colliders,
                    colliders.len() as int,
                    true,
                    final(islands).map(),
                    body_islands.nodes(),
                )
            }),
            final(contact_graph).keys() == old(contact_graph).keys(),
            final(islands).contact_map() == old(islands).contact_map(),
            final(islands).joint_map() == old(islands).joint_map(),
            final(islands).candidate() == old(islands).candidate(),
            final(islands).candidate_timer() == old(islands).candidate_timer(),
            old(islands).candidate_exists() ==> final(islands).candidate_exists(),
            final(islands).slots() == old(islands).slots(),
            // Each contact of a collider that fell asleep is listed if it was awake, is touching,
            // generates constraints, and has two bodies, of which the one on the other side sleeps
            // too, and no other one.
            forall|e: ContactEdge| #[trigger]
                outcome.contacts@.contains(e) <==> {
                    let colliders = colliders_of(body_colliders@, outcome.bodies@);
                    let map = final(islands).map();
                    let nodes = body_islands.nodes();
                    &&& old(contact_graph)@.contains_key(e.id)
                    &&& old(contact_graph)@[e.id] == e
                    &&& (colliders.contains(e.collider1) && body_asleep(map, nodes, e.body2)) || (
                    colliders.contains(e.collider2) && e.collider1 != e.collider2 && body_asleep(
                        map,
                        nodes,
                        e.body1,
                    ))
                    &&& !e.is_sleeping
                    &&& e.is_touching
                    &&& e.generates_constraints
                    &&& e.body1 is Some
                    &&& e.body2 is Some
                },
            outcome.contacts@.no_duplicates(),
    {
        // First mark all islands, so that it is known which bodies sleep.
        let bodies = set_islands_sleeping(&self.0, true, islands, body_islands);
        let colliders = gather_colliders(&bodies, body_colliders);
        let contacts = set_contacts_sleeping(
            contact_graph,
            &colliders,
            true,
            islands,
            body_islands,
        );
        proof {
            old(contact_graph).lemma_ids();
            sleeping_contacts_are_listed(
                contacts@,
                old(contact_graph)@,
                colliders@,
                islands.map(),
                body_islands.nodes(),
            );
        }
        SleepOutcome { bodies, contacts }
    }
}

impl WakeIslands {
    /// Wakes up the islands that sleep, and the contact pairs of their bodies.
    pub fn apply(
        self,
        islands: &mut PhysicsIslands,
        body_islands: &BodyIslands,
        body_colliders: &BodyColliders,
        contact_graph: &mut ContactGraph,
    ) -> (outcome: SleepOutcome)
        requires
            old(islands).wf(body_islands),
            old(contact_graph).wf(),
        ensures
            final(islands).wf(body_islands),
            final(contact_graph).wf(),
            final(islands).model(body_islands) == with_sleeping(
                old(islands).model(body_islands),
                self.0@,
                false,
            ),
            outcome.bodies@ == bodies_to_change(old(islands).model(body_islands), self.0@, false),
            ({
                let colliders = colliders_of(body_colliders@, outcome.bodies@);
                &&& final(contact_graph)@ == graph_with_sleeping(
                    old(contact_graph)@,
                    colliders,
                    colliders.len() as int,
                    false,
                    final(islands).map(),
                    body_islands.nodes(),
                )
                &&& are_changed_edges(
                    outcome.contacts@,
                    old(contact_graph)@,
                    colliders,
                    colliders.len() as int,
                    false,
                    final(islands).map(),
                    body_islands.nodes(),
                )
            }),
            final(contact_graph).keys() == old(contact_graph).keys(),
            final(islands).contact_map() == old(islands).contact_map(),
            final(islands).joint_map() == old(islands).joint_map(),
            final(islands).candidate() == old(islands).candidate(),
            final(islands).candidate_timer() == old(islands).candidate_timer(),
            old(islands).candidate_exists() ==> final(islands).candidate_exists(),
            final(islands).slots() == old(islands).slots(),
            // Each contact of a woken collider that slept, is touching, and generates constraints is
            // listed, and no other one.
            forall|e: ContactEdge| #[trigger]
                outcome.contacts@.contains(e) <==> {
                    let colliders = colliders_of(body_colliders@, outcome.bodies@);
                    &&& old(contact_graph)@.contains_key(e.id)
                    &&& old(contact_graph)@[e.id] == e
                    &&& colliders.contains(e.collider1) || colliders.contains(e.collider2)
                    &&& e.is_sleeping
                    &&& e.is_touching
                    &&& e.generates_constraints
                },
            outcome.contacts@.no_duplicates(),
    {
        let bodies = set_islands_sleeping(&self.0, false, islands, body_islands);
        let colliders = gather_colliders(&bodies, body_colliders);
        let contacts = set_contacts_sleeping(
            contact_graph,
            &colliders,
            false,
            islands,
            body_islands,
        );
        proof {
            old(contact_graph).lemma_ids();
            woken_contacts_are_listed(
                contacts@,
                old(contact_graph)@,
                colliders@,
                islands.map(),
                body_islands.nodes(),
            );
        }
        SleepOutcome { bodies, contacts }
    }
}

impl WakeBody {
    /// Wakes up the island of a body, if it sleeps.
    pub fn apply(
        self,
        entity_exists: bool,
        islands: &mut PhysicsIslands,
        body_islands: &BodyIslands,
        body_colliders: &BodyColliders,
        contact_graph: &mut ContactGraph,
    ) -> (outcome: Result<SleepOutcome, BodyCommandError>)
        requires
            old(islands).wf(body_islands),
            old(contact_graph).wf(),
        ensures
            final(islands).wf(body_islands),
            final(contact_graph).wf(),
            outcome matches Err(BodyCommandError::NoEntity) <==> !entity_exists,
            outcome matches Err(BodyCommandError::NoIsland) <==> entity_exists
                && !body_islands.nodes().contains_key(self.0),
            outcome is Err ==> *final(islands) == *old(islands)
                && *final(contact_graph) == *old(contact_graph),
            outcome matches Ok(o) ==> {
                let ids = seq![body_islands.nodes()[self.0].island_id];
                let colliders = colliders_of(body_colliders@, o.bodies@);
                &&& final(islands).model(body_islands) == with_sleeping(
                    old(islands).model(body_islands),
                    ids,
                    false,
                )
                &&& o.bodies@ == bodies_to_change(old(islands).model(body_islands), ids, false)
                &&& final(contact_graph)@ == graph_with_sleeping(
                    old(contact_graph)@,
                    colliders,
                    colliders.len() as int,
                    false,
                    final(islands).map(),
                    body_islands.nodes(),
                )
                &&& are_changed_edges(
                    o.contacts@,
                    old(contact_graph)@,
                    colliders,
                    colliders.len() as int,
                    false,
                    final(islands).map(),
                    body_islands.nodes(),
                )
            },
            final(contact_graph).keys() == old(contact_graph).keys(),
            final(islands).contact_map() == old(islands).contact_map(),
            final(islands).joint_map() == old(islands).joint_map(),
            final(islands).candidate() == old(islands).candidate(),
            final(islands).candidate_timer() == old(islands).candidate_timer(),
            old(islands).candidate_exists() ==> final(islands).candidate_exists(),
            final(islands).slots() == old(islands).slots(),
    {
        if !entity_exists {
            return Err(BodyCommandError::NoEntity);
        }
        match body_islands.node(self.0) {
            Some(node) => {
                let mut ids: Vec<IslandId> = Vec::new();
                ids.push(node.island_id);
                assert(ids@ =~= seq![node.island_id]);
                Ok(WakeIslands(ids).apply(islands, body_islands, body_colliders, contact_graph))
            },
            None => Err(BodyCommandError::NoIsland),
        }
    }
}

impl SleepBody {
    /// Puts a body and its island to sleep.
    ///
    /// If the island needs splitting, it is split first, and only what hangs together with the body
    /// falls asleep.
    pub fn apply(
        self,
        entity_exists: bool,
        islands: &mut PhysicsIslands,
        body_islands: &mut BodyIslands,
        body_colliders: &BodyColliders,
        contact_graph: &mut ContactGraph,
        joint_graph: &JointGraph,
    ) -> (outcome: Result<SleepOutcome, BodyCommandError>)
        requires
            old(islands).wf(old(body_islands)),
            old(contact_graph).wf(),
            ({
                let nodes = old(body_islands).nodes();
                let k = nodes[self.0].island_id;
                entity_exists && nodes.contains_key(self.0) && old(islands).needs_split(k) ==> {
                    &&& joint_graph.wf()
                    &&& old(islands).splittable(
                        old(body_islands),
                        body_colliders@,
                        old(contact_graph)@,
                        joint_graph@,
                        k,
                    )
                }
            }),
        ensures
            final(islands).wf(final(body_islands)),
            final(contact_graph).wf(),
            outcome matches Err(BodyCommandError::NoEntity) <==> !entity_exists,
            outcome matches Err(BodyCommandError::NoIsland) <==> entity_exists
                && !old(body_islands).nodes().contains_key(self.0),
            outcome is Err ==> *final(islands) == *old(islands)
                && *final(body_islands) == *old(body_islands)
                && *final(contact_graph) == *old(contact_graph),
            outcome matches Ok(o) ==> {
                let before = old(islands).model(old(body_islands));
                let k = old(body_islands).nodes()[self.0].island_id;
                let k1 = final(body_islands).nodes()[self.0].island_id;
                let colliders = colliders_of(body_colliders@, o.bodies@);
                &&& !old(islands).needs_split(k) ==> {
                    &&& *final(body_islands) == *old(body_islands)
                    &&& final(islands).model(final(body_islands)) == with_sleeping(
                        before,
                        seq![k],
                        true,
                    )
                    &&& o.bodies@ == bodies_to_change(before, seq![k], true)
                    &&& final(islands).candidate() == old(islands).candidate()
                    &&& final(islands).slots() == old(islands).slots()
                }
                &&& old(islands).needs_split(k) ==> {
                    let cluster = cluster_of(before[k], old(contact_graph)@, joint_graph@);
                    &&& exists|split: Map<IslandId, IslandView>| #[trigger]
                        is_split(before, split, k) && final(islands).model(final(body_islands))
                            == with_sleeping(split, seq![k1], true) && o.bodies@
                            == split[k1].bodies
                    &&& forall|b: Entity| #[trigger]
                        cluster.bodies.contains(b) ==> (o.bodies@.contains(b)
                            <==> cluster.connected(self.0, b))
                    &&& final(islands).candidate() == if old(islands).candidate() == Some(k) {
                        None
                    } else {
                        old(islands).candidate()
                    }
                    &&& final(islands).slots() <= old(islands).slots()
                        + old(islands).map()[k].body_count
                }
                &&& final(contact_graph)@ == graph_with_sleeping(
                    old(contact_graph)@,
                    colliders,
                    colliders.len() as int,
                    true,
                    final(islands).map(),
                    final(body_islands).nodes(),
                )
                &&& are_changed_edges(
                    o.contacts@,
                    old(contact_graph)@,
                    colliders,
                    colliders.len() as int,
                    true,
                    final(islands).map(),
                    final(body_islands).nodes(),
                )
            },
            final(islands).candidate_timer() == old(islands).candidate_timer(),
            old(islands).candidate_exists() ==> final(islands).candidate_exists(),
            final(contact_graph).keys() == old(contact_graph).keys(),
            final(body_islands).nodes().dom() == old(body_islands).nodes().dom(),
            final(islands).contact_map().dom() == old(islands).contact_map().dom(),
            final(islands).joint_map().dom() == old(islands).joint_map().dom(),
    {
        if !entity_exists {
            return Err(BodyCommandError::NoEntity);
        }
        let island_id = match body_islands.node(self.0) {
            Some(node) => node.island_id,
            None => {
                return Err(BodyCommandError::NoIsland);
            },
        };
        let ghost before = islands.model(body_islands);
        proof {
            members_name_their_island(islands, body_islands);
            assert(before.contains_key(island_id));
            assert(before[island_id].bodies.contains(self.0));
        }
        let needs_split = match islands.get(island_id) {
            Some(island) => island.constraints_removed > 0,
            None => false,
        };
        if needs_split {
            // The island must be split before it can be put to sleep.
            islands.split_island(
                island_id,
                body_islands,
                body_colliders,
                contact_graph,
                joint_graph,
            );
        }
        // The island of the body might have changed.
        let new_id = body_islands.node(self.0).unwrap().island_id;
        let mut ids: Vec<IslandId> = Vec::new();
        ids.push(new_id);
        let ghost middle = islands.model(body_islands);
        proof {
            assert(ids@ =~= seq![new_id]);
            members_name_their_island(islands, body_islands);
            assert(middle.contains_key(new_id));
            assert(middle[new_id].bodies.contains(self.0));
            lemma_bodies_of_one(middle, new_id, true);
        }
        let outcome = SleepIslands(ids).apply(
            islands,
            body_islands,
            body_colliders,
            contact_graph,
        );
        proof {
            if old(islands).needs_split(island_id) {
                let cluster = cluster_of(before[island_id], old(contact_graph)@, joint_graph@);
                assert(cluster.bodies.contains(self.0));
                assert(!is_other_island(before, island_id, new_id)) by {
                    if is_other_island(before, island_id, new_id) {
                        assert(before[new_id].bodies.contains(self.0));
                    }
                }
                assert(is_part_of(middle[new_id], before[island_id]));
                assert forall|b: Entity| #[trigger] cluster.bodies.contains(b) implies (
                outcome.bodies@.contains(b) <==> cluster.connected(self.0, b)) by {
                    assert(before[island_id].bodies.contains(b));
                    assert(old(body_islands).nodes().contains_key(b));
                    assert(body_islands.nodes().contains_key(b));
                    assert(middle[new_id].bodies.contains(b) <==> body_islands.nodes()[b].island_id
                        == new_id);
                }
            }
        }
        Ok(outcome)
    }
}

proof fn lemma_bodies_of_one(model: Map<IslandId, IslandView>, k: IslandId, sleeping: bool)
    ensures
        bodies_to_change(model, seq![k], sleeping) == if model.contains_key(k)
            && model[k].is_sleeping != sleeping {
            model[k].bodies
        } else {
            Seq::empty()
        },
{
    let ids = seq![k];
    assert(ids.drop_last() =~= Seq::<IslandId>::empty());
    assert(bodies_to_change(model, ids.drop_last(), sleeping) =~= Seq::<Entity>::empty());
    assert(Seq::<Entity>::empty() + model[k].bodies =~= model[k].bodies);
}

// Laws.

/// Putting islands to sleep, or waking them up, a second time changes nothing, and asks for nothing.
pub proof fn sleeping_twice_is_sleeping_once(
    model: Map<IslandId, IslandView>,
    ids: Seq<IslandId>,
    sleeping: bool,
)
    ensures
        with_sleeping(with_sleeping(model, ids, sleeping), ids, sleeping) == with_sleeping(
            model,
            ids,
            sleeping,
        ),
        bodies_to_change(with_sleeping(model, ids, sleeping), ids, sleeping) == Seq::<
            Entity,
        >::empty(),
{
    let after = with_sleeping(model, ids, sleeping);
    assert(with_sleeping(after, ids, sleeping) =~= after);
    lemma_nothing_to_change(after, ids, sleeping);
}

proof fn lemma_nothing_to_change(
    model: Map<IslandId, IslandView>,
    ids: Seq<IslandId>,
    sleeping: bool,
)
    requires
        forall|k: IslandId| #[trigger]
            ids.contains(k) && model.contains_key(k) ==> model[k].is_sleeping == sleeping,
    ensures
        bodies_to_change(model, ids, sleeping) == Seq::<Entity>::empty(),
    decreases ids.len(),
{
    if ids.len() > 0 {
        let rest = ids.drop_last();
        assert forall|k: IslandId| #[trigger] rest.contains(k) && model.contains_key(k) implies
            model[k].is_sleeping == sleeping by {
            let n = choose|n: int| 0 <= n < rest.len() && rest[n] == k;
            assert(ids[n] == k);
            assert(ids.contains(k));
        }
        lemma_nothing_to_change(model, rest, sleeping);
        assert(ids.contains(ids.last()));
    }
}

/// Waking up islands that were awake before they were put to sleep leaves all as it was.
pub proof fn waking_undoes_sleeping(model: Map<IslandId, IslandView>, ids: Seq<IslandId>)
    requires
        forall|k: IslandId| #[trigger]
            ids.contains(k) && model.contains_key(k) ==> !model[k].is_sleeping,
    ensures
        with_sleeping(with_sleeping(model, ids, true), ids, false) == model,
        bodies_to_change(with_sleeping(model, ids, true), ids, false) == bodies_to_change(
            model,
            ids,
            true,
        ),
{
    let asleep = with_sleeping(model, ids, true);
    assert(with_sleeping(asleep, ids, false) =~= model) by {
        assert forall|k: IslandId| #[trigger] model.contains_key(k) implies with_sleeping(
            asleep,
            ids,
            false,
        )[k] == model[k] by {
            assert(asleep.contains_key(k));
        }
    }
    assert(asleep.dom() =~= model.dom());
    lemma_same_bodies_change(model, asleep, ids);
}

proof fn lemma_same_bodies_change(
    model: Map<IslandId, IslandView>,
    asleep: Map<IslandId, IslandView>,
    ids: Seq<IslandId>,
)
    requires
        asleep.dom() == model.dom(),
        forall|k: IslandId| #[trigger]
            ids.contains(k) && model.contains_key(k) ==> !model[k].is_sleeping
                && asleep[k].is_sleeping && asleep[k].bodies == model[k].bodies,
    ensures
        bodies_to_change(asleep, ids, false) == bodies_to_change(model, ids, true),
    decreases ids.len(),
{
    if ids.len() > 0 {
        let rest = ids.drop_last();
        assert forall|k: IslandId| #[trigger] rest.contains(k) && model.contains_key(k) implies
            !model[k].is_sleeping && asleep[k].is_sleeping && asleep[k].bodies
            == model[k].bodies by {
            let n = choose|n: int| 0 <= n < rest.len() && rest[n] == k;
            assert(ids[n] == k);
            assert(ids.contains(k));
        }
        lemma_same_bodies_change(model, asleep, rest);
        assert(ids.contains(ids.last()));
    }
}

/// When bodies fall asleep, a contact pair falls asleep with them only if both of its bodies sleep,
/// or cannot move.
pub proof fn contacts_fall_asleep_with_both_bodies(
    edge: ContactEdge,
    bodies: Seq<Entity>,
    colliders: Map<Entity, Seq<Entity>>,
    map: Map<IslandId, PhysicsIsland>,
    nodes: Map<Entity, IslandNode<Entity>>,
)
    requires
        edge_fits(edge, colliders, bodies.to_set()),
        forall|b: Entity| #[trigger] bodies.contains(b) ==> body_asleep(map, nodes, Some(b)),
        edge_follows_one(
            edge,
            colliders_of(colliders, bodies),
            colliders_of(colliders, bodies).len() as int,
            true,
            map,
            nodes,
        ),
    ensures
        body_asleep(map, nodes, edge.body1),
        body_asleep(map, nodes, edge.body2),
{
    let all = colliders_of(colliders, bodies);
    let n = choose|n: int|
        0 <= n < all.len() && edge_follows(edge, #[trigger] all[n], true, map, nodes);
    lemma_collider_has_body(colliders, bodies, n);
    let b = choose|b: Entity| #[trigger]
        bodies.contains(b) && colliders.contains_key(b) && colliders[b].contains(all[n]);
    assert(bodies.to_set().contains(b));
    assert(colliders[b].contains(all[n]));
}

proof fn lemma_collider_has_body(
    colliders: Map<Entity, Seq<Entity>>,
    bodies: Seq<Entity>,
    n: int,
)
    requires
        0 <= n < colliders_of(colliders, bodies).len(),
    ensures
        exists|b: Entity| #[trigger]
            bodies.contains(b) && colliders.contains_key(b) && colliders[b].contains(
                colliders_of(colliders, bodies)[n],
            ),
    decreases bodies.len(),
{
    let all = colliders_of(colliders, bodies);
    if bodies.len() > 0 {
        let rest = colliders_of(colliders, bodies.drop_last());
        if n < rest.len() {
            lemma_collider_has_body(colliders, bodies.drop_last(), n);
            let b = choose|b: Entity| #[trigger]
                bodies.drop_last().contains(b) && colliders.contains_key(b)
                    && colliders[b].contains(rest[n]);
            let m = choose|m: int|
                0 <= m < bodies.drop_last().len() && bodies.drop_last()[m] == b;
            assert(bodies[m] == b);
            assert(bodies.contains(b));
            assert(all[n] == rest[n]);
        } else {
            let b = bodies.last();
            assert(bodies.contains(b));
            assert(all[n] == colliders[b][n - rest.len()]);
        }
    }
}

} // verus!
