//! Collision events, and what becomes of contact pairs when colliders and bodies go.

use vstd::prelude::*;
use std::collections::HashMap;

use crate::body_colliders::BodyColliders;
use crate::contact_graph::{are_edges_with, edges_with, lists_id, ContactEdge, ContactGraph, PairKey};
use crate::contact_laws::{
    removed_collider_ends_its_collisions, removed_collider_parts_from_the_others,
    removed_collider_stops_its_constraints,
};
use crate::entity::{entity_bits, entity_bits_injective, ContactId, Entity};

verus! {

/// Two colliders started or stopped touching.
#[derive(Clone, Copy, Debug, PartialEq, Eq)]
pub struct CollisionEvent {
    pub collider1: Entity,
    pub collider2: Entity,
    /// The body of the first collider, if it has one.
    pub body1: Option<Entity>,
    /// The body of the second collider, if it has one.
    pub body2: Option<Entity>,
}

impl CollisionEvent {
    /// The event as the second collider sees it.
    pub open spec fn flipped(self) -> Self {
        CollisionEvent {
            collider1: self.collider2,
            collider2: self.collider1,
            body1: self.body2,
            body2: self.body1,
        }
    }

    /// The event as the second collider sees it.
    pub fn flip(&self) -> (flipped: Self)
        ensures
            flipped == self.flipped(),
    {
        CollisionEvent {
            collider1: self.collider2,
            collider2: self.collider1,
            body1: self.body2,
            body2: self.body1,
        }
    }
}

/// The colliders that exist, and whether they want to hear of collisions.
#[derive(Debug)]
pub struct CollisionListeners {
    table: HashMap<u64, bool>,
}

impl CollisionListeners {
    /// The colliders that exist, and whether they want to hear of collisions.
    pub closed spec fn view(&self) -> Map<Entity, bool> {
        Map::new(
            |collider: Entity| self.table@.contains_key(entity_bits(collider)),
            |collider: Entity| self.table@[entity_bits(collider)],
        )
    }

    /// No colliders.
    pub fn new() -> (listeners: Self)
        ensures
            listeners@ == Map::<Entity, bool>::empty(),
    {
        broadcast use vstd::std_specs::hash::group_hash_axioms;

        let listeners = CollisionListeners { table: HashMap::new() };
        assert(listeners@ =~= Map::<Entity, bool>::empty());
        listeners
    }

    /// Adds a collider.
    pub fn insert(&mut self, collider: Entity, listens: bool)
        ensures
            final(self)@ == old(self)@.insert(collider, listens),
    {
        broadcast use vstd::std_specs::hash::group_hash_axioms;

        self.table.insert(collider.to_bits(), listens);
        proof {
            assert forall|other: Entity| other != collider implies #[trigger] entity_bits(other)
                != entity_bits(collider) by {
                if entity_bits(other) == entity_bits(collider) {
                    entity_bits_injective(other, collider);
                }
            }
            assert(self@ =~= old(self)@.insert(collider, listens));
        }
    }

    /// Whether a collider wants to hear of collisions, if it exists.
    pub fn get(&self, collider: Entity) -> (listens: Option<bool>)
        ensures
            listens is Some <==> self@.contains_key(collider),
            listens matches Some(l) ==> l == self@[collider],
    {
        broadcast use vstd::std_specs::hash::group_hash_axioms;

        match self.table.get(&collider.to_bits()) {
            Some(listens) => Some(*listens),
            None => None,
        }
    }
}

/// What is reported of a collision: once for each of the two colliders that wants to hear of it,
/// with that collider first. Nothing is reported if one of them no longer exists.
pub open spec fn reports(event: CollisionEvent, listeners: Map<Entity, bool>) -> Seq<
    CollisionEvent,
> {
    if listeners.contains_key(event.collider1) && listeners.contains_key(event.collider2) {
        let first = if listeners[event.collider1] {
            seq![event]
        } else {
            Seq::empty()
        };
        let second = if listeners[event.collider2] {
            seq![event.flipped()]
        } else {
            Seq::empty()
        };
        first + second
    } else {
        Seq::empty()
    }
}

/// What is reported of several collisions, in their order.
pub open spec fn all_reports(
    events: Seq<CollisionEvent>,
    listeners: Map<Entity, bool>,
) -> Seq<CollisionEvent>
    decreases events.len(),
{
    if events.len() == 0 {
        Seq::empty()
    } else {
        all_reports(events.drop_last(), listeners) + reports(events.last(), listeners)
    }
}

/// What is to be reported of collisions.
fn collect_reports(
    events: &Vec<CollisionEvent>,
    listeners: &CollisionListeners,
) -> (collected: Vec<CollisionEvent>)
    ensures
        collected@ == all_reports(events@, listeners@),
{
    let mut collected: Vec<CollisionEvent> = Vec::new();
    let mut i: usize = 0;
    while i < events.len()
        invariant
            i <= events@.len(),
            collected@ == all_reports(events@.take(i as int), listeners@),
        decreases events@.len() - i,
    {
        let event = events[i];
        let ghost before = collected@;
        assert(events@.take(i + 1).drop_last() =~= events@.take(i as int));
        if let (Some(listens1), Some(listens2)) = (
            listeners.get(event.collider1),
            listeners.get(event.collider2),
        ) {
            if listens1 {
                collected.push(event);
            }
            if listens2 {
                collected.push(event.flip());
            }
        }
        assert(collected@ =~= before + reports(event, listeners@));
        i = i + 1;
    }
    assert(events@.take(i as int) =~= events@);
    collected
}

/// The events to trigger for colliders that started, and that stopped touching.
pub fn trigger_collision_events(
    started: &Vec<CollisionEvent>,
    ended: &Vec<CollisionEvent>,
    listeners: &CollisionListeners,
) -> (triggered: (Vec<CollisionEvent>, Vec<CollisionEvent>))
    ensures
        triggered.0@ == all_reports(started@, listeners@),
        triggered.1@ == all_reports(ended@, listeners@),
{
    (collect_reports(started, listeners), collect_reports(ended, listeners))
}

/// An event is only ever triggered for a collider that exists and wants to hear of it, and that
/// collider comes first in it.
pub proof fn reports_are_for_listeners(
    events: Seq<CollisionEvent>,
    listeners: Map<Entity, bool>,
    i: int,
)
    requires
        0 <= i < all_reports(events, listeners).len(),
    ensures
        listeners.contains_key(all_reports(events, listeners)[i].collider1),
        listeners[all_reports(events, listeners)[i].collider1],
    decreases events.len(),
{
    if events.len() > 0 {
        let rest = all_reports(events.drop_last(), listeners);
        if i < rest.len() {
            reports_are_for_listeners(events.drop_last(), listeners, i);
        } else {
            let own = reports(events.last(), listeners);
            assert(all_reports(events, listeners)[i] == own[i - rest.len()]);
        }
    }
}

/// A change of what a contact pair does, for the solver to follow.
#[derive(Clone, Copy, Debug, PartialEq, Eq)]
pub enum ContactStatusChange {
    /// The contact pair no longer constrains the motion of the bodies.
    StoppedGeneratingConstraints { contact_id: ContactId, body1: Entity, body2: Entity },
}

/// What removing a collider asks for.
#[derive(Debug)]
pub struct ColliderRemoval {
    /// The collisions that ended, to be reported.
    pub ended: Vec<CollisionEvent>,
    /// The colliders that no longer touch the removed one.
    pub parted: Vec<Entity>,
    /// The contact pairs that no longer constrain the motion of bodies.
    pub changes: Vec<ContactStatusChange>,
}

/// The end of a contact, as an event.
pub open spec fn end_of(edge: ContactEdge) -> CollisionEvent {
    CollisionEvent {
        collider1: edge.collider1,
        collider2: edge.collider2,
        body1: edge.body1,
        body2: edge.body2,
    }
}

/// The end of the constraints of a contact.
pub open spec fn stop_of(edge: ContactEdge) -> ContactStatusChange {
    ContactStatusChange::StoppedGeneratingConstraints {
        contact_id: edge.id,
        body1: edge.body1->0,
        body2: edge.body2->0,
    }
}

/// The contacts of those given that are touching and are reported, as events.
pub open spec fn ended_events(edges: Seq<ContactEdge>) -> Seq<CollisionEvent>
    decreases edges.len(),
{
    if edges.len() == 0 {
        Seq::empty()
    } else {
        let rest = ended_events(edges.drop_last());
        let edge = edges.last();
        if edge.is_touching && edge.contact_events {
            rest.push(end_of(edge))
        } else {
            rest
        }
    }
}

/// The other colliders of those of the given contacts that are touching.
pub open spec fn parted_colliders(edges: Seq<ContactEdge>, collider: Entity) -> Seq<Entity>
    decreases edges.len(),
{
    if edges.len() == 0 {
        Seq::empty()
    } else {
        let rest = parted_colliders(edges.drop_last(), collider);
        let edge = edges.last();
        if edge.is_touching {
            rest.push(edge.collider_across(collider))
        } else {
            rest
        }
    }
}

/// The contacts of those given that are touching and have two bodies, as changes.
pub open spec fn stopped_constraints(edges: Seq<ContactEdge>) -> Seq<ContactStatusChange>
    decreases edges.len(),
{
    if edges.len() == 0 {
        Seq::empty()
    } else {
        let rest = stopped_constraints(edges.drop_last());
        let edge = edges.last();
        if edge.is_touching && edge.body1 is Some && edge.body2 is Some {
            rest.push(stop_of(edge))
        } else {
            rest
        }
    }
}

/// The contact pairs without those of a collider.
pub open spec fn without_collider(
    graph: Map<ContactId, ContactEdge>,
    collider: Entity,
) -> Map<ContactId, ContactEdge> {
    graph.remove_keys(Set::new(|c: ContactId| graph.contains_key(c) && graph[c].is_of(collider)))
}

/// Removes a collider from the contact graph, and with it all its contact pairs.
///
/// The constraints and the islands are not updated here. Instead, a change is recorded for each
/// touching contact between two bodies.
pub fn remove_collider(collider: Entity, contact_graph: &mut ContactGraph) -> (removal:
    ColliderRemoval)
    requires
        old(contact_graph).wf(),
    ensures
        final(contact_graph).wf(),
        final(contact_graph)@ == without_collider(old(contact_graph)@, collider),
        ({
            let edges = edges_with(old(contact_graph)@, collider);
            &&& removal.ended@ == ended_events(edges)
            &&& removal.parted@ == parted_colliders(edges, collider)
            &&& removal.changes@ == stopped_constraints(edges)
        }),
        final(contact_graph).keys() == old(contact_graph).keys().difference(
            keys_with(old(contact_graph)@, collider),
        ),
        final(contact_graph).slots() == old(contact_graph).slots(),
        // What is removed, reported, and recorded, contact by contact.
        forall|c: ContactId| #[trigger]
            final(contact_graph)@.contains_key(c) <==> old(contact_graph)@.contains_key(c) && old(contact_graph)@[c].collider1 != collider && old(contact_graph)@[c].collider2 != collider,
        forall|c: ContactId| #[trigger]
            old(contact_graph)@.contains_key(c) && (old(contact_graph)@[c].collider1 == collider
                || old(contact_graph)@[c].collider2 == collider) && old(contact_graph)@[c].is_touching ==> {
                let edge = old(contact_graph)@[c];
                &&& edge.contact_events ==> removal.ended@.contains(
                    CollisionEvent {
                        collider1: edge.collider1,
                        collider2: edge.collider2,
                        body1: edge.body1,
                        body2: edge.body2,
                    },
                )
                &&& removal.parted@.contains(
                    if edge.collider1 == collider {
                        edge.collider2
                    } else {
                        edge.collider1
                    },
                )
                &&& edge.body1 is Some && edge.body2 is Some ==> removal.changes@.contains(
                    ContactStatusChange::StoppedGeneratingConstraints {
                        contact_id: c,
                        body1: edge.body1->0,
                        body2: edge.body2->0,
                    },
                )
            },
{
    let ghost graph0 = contact_graph@;
    let ghost keys0 = contact_graph.keys();
    let edges = contact_graph.contact_edges_with(collider);
    let mut ended: Vec<CollisionEvent> = Vec::new();
    let mut parted: Vec<Entity> = Vec::new();
    let mut changes: Vec<ContactStatusChange> = Vec::new();
    let mut i: usize = 0;
    assert(graph0 =~= graph0.remove_keys(edge_ids(edges@.take(0))));
    assert(keys0 =~= keys0.difference(edge_keys(edges@.take(0))));
    while i < edges.len()
        invariant
            i <= edges@.len(),
            contact_graph.wf(),
            are_edges_with(edges@, graph0, collider),
            contact_graph@ == graph0.remove_keys(edge_ids(edges@.take(i as int))),
            contact_graph.keys() == keys0.difference(edge_keys(edges@.take(i as int))),
            contact_graph.slots() == old(contact_graph).slots(),
            ended@ == ended_events(edges@.take(i as int)),
            parted@ == parted_colliders(edges@.take(i as int), collider),
            changes@ == stopped_constraints(edges@.take(i as int)),
        decreases edges@.len() - i,
    {
        let edge = edges[i];
        let ghost done = edges@.take(i as int);
        let ghost next = edges@.take(i + 1);
        proof {
            assert(next.drop_last() =~= done);
            assert(next.last() == edge);
            assert forall|c: ContactId| edge_ids(next).contains(c) <==> edge_ids(done).contains(c)
                || c == edge.id by {
                if edge_ids(done).contains(c) {
                    let n = choose|n: int| 0 <= n < done.len() && (#[trigger] done[n]).id == c;
                    assert(next[n].id == c);
                }
                if c == edge.id {
                    assert(next[i as int].id == c);
                }
                if edge_ids(next).contains(c) {
                    let n = choose|n: int| 0 <= n < next.len() && (#[trigger] next[n]).id == c;
                    if n < i {
                        assert(done[n].id == c);
                    }
                }
            }
            assert forall|k: PairKey| edge_keys(next).contains(k) <==> edge_keys(done).contains(k)
                || k == edge.key() by {
                if edge_keys(done).contains(k) {
                    let n = choose|n: int| 0 <= n < done.len() && (#[trigger] done[n]).key() == k;
                    assert(next[n].key() == k);
                }
                if k == edge.key() {
                    assert(next[i as int].key() == k);
                }
                if edge_keys(next).contains(k) {
                    let n = choose|n: int| 0 <= n < next.len() && (#[trigger] next[n]).key() == k;
                    if n < i {
                        assert(done[n].key() == k);
                    }
                }
            }
            assert(!edge_ids(done).contains(edge.id)) by {
                if edge_ids(done).contains(edge.id) {
                    let n = choose|n: int|
                        0 <= n < done.len() && (#[trigger] done[n]).id == edge.id;
                    assert(edges@[n].id.0 < edges@[i as int].id.0);
                }
            }
            assert(graph0.contains_key(edge.id));
        }
        if edge.is_touching {
            // Report the end of the collision.
            if edge.contact_events {
                ended.push(
                    CollisionEvent {
                        collider1: edge.collider1,
                        collider2: edge.collider2,
                        body1: edge.body1,
                        body2: edge.body2,
                    },
                );
            }
            // The colliders no longer touch.
            parted.push(edge.other_collider(collider));
            if let (Some(body1), Some(body2)) = (edge.body1, edge.body2) {
                changes.push(
                    ContactStatusChange::StoppedGeneratingConstraints {
                        contact_id: edge.id,
                        body1,
                        body2,
                    },
                );
            }
        }
        let key = PairKey::new(edge.collider1.index, edge.collider2.index);
        contact_graph.remove_edge_by_id(key, edge.id);
        proof {
            assert(contact_graph@ =~= graph0.remove_keys(edge_ids(next)));
            assert(contact_graph.keys() =~= keys0.difference(edge_keys(next)));
        }
        i = i + 1;
    }
    proof {
        assert(edges@.take(i as int) =~= edges@);
        assert forall|c: ContactId| graph0.contains_key(c) implies (edge_ids(edges@).contains(c)
            <==> graph0[c].is_of(collider)) by {
            if graph0[c].is_of(collider) {
                assert(lists_id(edges@, c));
            }
        }
        assert(contact_graph@ =~= without_collider(graph0, collider));
        assert forall|k: PairKey| edge_keys(edges@).contains(k) <==> keys_with(
            graph0,
            collider,
        ).contains(k) by {
            if edge_keys(edges@).contains(k) {
                let n = choose|n: int| 0 <= n < edges@.len() && (#[trigger] edges@[n]).key() == k;
                assert(graph0.contains_key(edges@[n].id));
            }
            if keys_with(graph0, collider).contains(k) {
                let c = choose|c: ContactId| #[trigger]
                    graph0.contains_key(c) && graph0[c].is_of(collider) && graph0[c].key() == k;
                assert(lists_id(edges@, c));
                let n = choose|n: int| 0 <= n < edges@.len() && (#[trigger] edges@[n]).id == c;
                assert(edges@[n].key() == k);
            }
        }
        assert(edge_keys(edges@) =~= keys_with(graph0, collider));
        old(contact_graph).lemma_ids();
        lemma_touching_contacts_end(graph0, collider);
    }
    ColliderRemoval { ended, parted, changes }
}

proof fn lemma_touching_contacts_end(graph: Map<ContactId, ContactEdge>, collider: Entity)
    requires
        forall|c: ContactId| #[trigger] graph.contains_key(c) ==> graph[c].id == c,
    ensures
        forall|c: ContactId| #[trigger]
            graph.contains_key(c) && (graph[c].collider1 == collider || graph[c].collider2
                == collider) && graph[c].is_touching ==> {
                let edges = edges_with(graph, collider);
                let edge = graph[c];
                &&& edge.contact_events ==> ended_events(edges).contains(
                    CollisionEvent {
                        collider1: edge.collider1,
                        collider2: edge.collider2,
                        body1: edge.body1,
                        body2: edge.body2,
                    },
                )
                &&& parted_colliders(edges, collider).contains(
                    if edge.collider1 == collider {
                        edge.collider2
                    } else {
                        edge.collider1
                    },
                )
                &&& edge.body1 is Some && edge.body2 is Some ==> stopped_constraints(
                    edges,
                ).contains(
                    ContactStatusChange::StoppedGeneratingConstraints {
                        contact_id: c,
                        body1: edge.body1->0,
                        body2: edge.body2->0,
                    },
                )
            },
{
    let edges = edges_with(graph, collider);
    let ended = removed_collider_ends_its_collisions(graph, collider);
    let parted = removed_collider_parts_from_the_others(graph, collider);
    let stopped = removed_collider_stops_its_constraints(graph, collider);
    assert forall|c: ContactId| #[trigger]
        graph.contains_key(c) && (graph[c].collider1 == collider || graph[c].collider2 == collider)
            && graph[c].is_touching implies {
        let edge = graph[c];
        &&& edge.contact_events ==> ended_events(edges).contains(
            CollisionEvent {
                collider1: edge.collider1,
                collider2: edge.collider2,
                body1: edge.body1,
                body2: edge.body2,
            },
        )
        &&& parted_colliders(edges, collider).contains(
            if edge.collider1 == collider {
                edge.collider2
            } else {
                edge.collider1
            },
        )
        &&& edge.body1 is Some && edge.body2 is Some ==> stopped_constraints(edges).contains(
            ContactStatusChange::StoppedGeneratingConstraints {
                contact_id: c,
                body1: edge.body1->0,
                body2: edge.body2->0,
            },
        )
    } by {
        let edge = graph[c];
        if edge.contact_events {
            assert(ended.contains(c));
            let k = choose|k: int| 0 <= k < ended.len() && ended[k] == c;
            assert(ended_events(edges)[k] == (CollisionEvent {
                collider1: edge.collider1,
                collider2: edge.collider2,
                body1: edge.body1,
                body2: edge.body2,
            }));
        }
        assert(parted.contains(c));
        let k = choose|k: int| 0 <= k < parted.len() && parted[k] == c;
        assert(parted_colliders(edges, collider)[k] == if edge.collider1 == collider {
            edge.collider2
        } else {
            edge.collider1
        });
        if edge.body1 is Some && edge.body2 is Some {
            assert(stopped.contains(c));
            let k = choose|k: int| 0 <= k < stopped.len() && stopped[k] == c;
            assert(stopped_constraints(edges)[k] == (
            ContactStatusChange::StoppedGeneratingConstraints {
                contact_id: c,
                body1: edge.body1->0,
                body2: edge.body2->0,
            }));
        }
    }
}

/// The identifiers of contact pairs.
pub open spec fn edge_ids(edges: Seq<ContactEdge>) -> Set<ContactId> {
    Set::new(|c: ContactId| lists_id(edges, c))
}

/// The keys of the contact pairs of a collider.
pub open spec fn keys_with(graph: Map<ContactId, ContactEdge>, collider: Entity) -> Set<PairKey> {
    Set::new(
        |k: PairKey|
            exists|c: ContactId| #[trigger]
                graph.contains_key(c) && graph[c].is_of(collider) && graph[c].key() == k,
    )
}

/// The keys of the contact pairs of the given colliders.
pub open spec fn keys_with_one(
    graph: Map<ContactId, ContactEdge>,
    colliders: Seq<Entity>,
) -> Set<PairKey> {
    Set::new(
        |k: PairKey|
            exists|c: ContactId| #[trigger]
                graph.contains_key(c) && is_of_one(graph[c], colliders) && graph[c].key() == k,
    )
}

/// The keys of contact pairs.
spec fn edge_keys(edges: Seq<ContactEdge>) -> Set<PairKey> {
    Set::new(
        |k: PairKey| exists|i: int| 0 <= i < edges.len() && (#[trigger] edges[i]).key() == k,
    )
}

/// The contact pairs without those of the given colliders.
pub open spec fn without_colliders(
    graph: Map<ContactId, ContactEdge>,
    colliders: Seq<Entity>,
) -> Map<ContactId, ContactEdge> {
    graph.remove_keys(
        Set::new(|c: ContactId| graph.contains_key(c) && is_of_one(graph[c], colliders)),
    )
}

/// Whether one of the given colliders is one of a contact pair.
pub open spec fn is_of_one(edge: ContactEdge, colliders: Seq<Entity>) -> bool {
    exists|n: int| 0 <= n < colliders.len() && edge.is_of(#[trigger] colliders[n])
}

/// The contact pairs that go when the last of the given colliders is removed, after the others.
pub open spec fn last_edges(
    graph: Map<ContactId, ContactEdge>,
    colliders: Seq<Entity>,
) -> Seq<ContactEdge> {
    edges_with(without_colliders(graph, colliders.drop_last()), colliders.last())
}

/// The events when colliders are removed one after the other.
pub open spec fn all_ended_events(
    graph: Map<ContactId, ContactEdge>,
    colliders: Seq<Entity>,
) -> Seq<CollisionEvent>
    decreases colliders.len(),
{
    if colliders.len() == 0 {
        Seq::empty()
    } else {
        all_ended_events(graph, colliders.drop_last()) + ended_events(last_edges(graph, colliders))
    }
}

/// The changes when colliders are removed one after the other.
pub open spec fn all_stopped_constraints(
    graph: Map<ContactId, ContactEdge>,
    colliders: Seq<Entity>,
) -> Seq<ContactStatusChange>
    decreases colliders.len(),
{
    if colliders.len() == 0 {
        Seq::empty()
    } else {
        all_stopped_constraints(graph, colliders.drop_last()) + stopped_constraints(
            last_edges(graph, colliders),
        )
    }
}

/// The pairs of a removed collider and a collider that it no longer touches, when colliders are
/// removed one after the other.
pub open spec fn all_parted_pairs(
    graph: Map<ContactId, ContactEdge>,
    colliders: Seq<Entity>,
) -> Seq<(Entity, Entity)>
    decreases colliders.len(),
{
    if colliders.len() == 0 {
        Seq::empty()
    } else {
        let parted = parted_colliders(last_edges(graph, colliders), colliders.last());
        all_parted_pairs(graph, colliders.drop_last()) + parted.map(
            |i: int, other: Entity| (colliders.last(), other),
        )
    }
}

/// What removing the colliders of a body asks for.
#[derive(Debug)]
pub struct BodyRemoval {
    /// The collisions that ended, to be reported.
    pub ended: Vec<CollisionEvent>,
    /// The pairs of a removed collider and a collider that it no longer touches.
    pub parted: Vec<(Entity, Entity)>,
    /// The contact pairs that no longer constrain the motion of bodies.
    pub changes: Vec<ContactStatusChange>,
}

/// Removes the colliders of a body from the contact graph, one after the other.
///
/// Called when a body is removed, replaced, disabled, or enabled.
pub fn remove_body(
    body: Entity,
    body_colliders: &BodyColliders,
    contact_graph: &mut ContactGraph,
) -> (removal: BodyRemoval)
    requires
        old(contact_graph).wf(),
    ensures
        final(contact_graph).wf(),
        ({
            let colliders = if body_colliders@.contains_key(body) {
                body_colliders@[body]
            } else {
                Seq::empty()
            };
            &&& final(contact_graph)@ == without_colliders(old(contact_graph)@, colliders)
            &&& removal.ended@ == all_ended_events(old(contact_graph)@, colliders)
            &&& removal.parted@ == all_parted_pairs(old(contact_graph)@, colliders)
            &&& removal.changes@ == all_stopped_constraints(old(contact_graph)@, colliders)
            &&& final(contact_graph).keys() == old(contact_graph).keys().difference(
                keys_with_one(old(contact_graph)@, colliders),
            )
        }),
        final(contact_graph).slots() == old(contact_graph).slots(),
{
    let ghost graph0 = contact_graph@;
    let mut ended: Vec<CollisionEvent> = Vec::new();
    let mut parted: Vec<(Entity, Entity)> = Vec::new();
    let mut changes: Vec<ContactStatusChange> = Vec::new();
    let ghost keys0 = contact_graph.keys();
    assert(graph0 =~= without_colliders(graph0, Seq::empty()));
    assert(keys0 =~= keys0.difference(keys_with_one(graph0, Seq::empty())));
    let colliders = match body_colliders.get(body) {
        Some(colliders) => colliders,
        None => {
            return BodyRemoval { ended, parted, changes };
        },
    };
    let mut i: usize = 0;
    assert(colliders@.take(0) =~= Seq::empty());
    while i < colliders.len()
        invariant
            i <= colliders@.len(),
            contact_graph.wf(),
            contact_graph@ == without_colliders(graph0, colliders@.take(i as int)),
            contact_graph.keys() == keys0.difference(
                keys_with_one(graph0, colliders@.take(i as int)),
            ),
            contact_graph.slots() == old(contact_graph).slots(),
            ended@ == all_ended_events(graph0, colliders@.take(i as int)),
            parted@ == all_parted_pairs(graph0, colliders@.take(i as int)),
            changes@ == all_stopped_constraints(graph0, colliders@.take(i as int)),
        decreases colliders@.len() - i,
    {
        let collider = colliders[i];
        let ghost done = colliders@.take(i as int);
        let ghost next = colliders@.take(i + 1);
        let ghost graph1 = contact_graph@;
        proof {
            assert(next.drop_last() =~= done);
            assert(next.last() == collider);
        }
        let removal = remove_collider(collider, contact_graph);
        let mut more_ended = removal.ended;
        let mut more_changes = removal.changes;
        ended.append(&mut more_ended);
        changes.append(&mut more_changes);
        let ghost parted0 = parted@;
        let mut k: usize = 0;
        while k < removal.parted.len()
            invariant
                k <= removal.parted@.len(),
                parted@.len() == parted0.len() + k,
                forall|n: int| 0 <= n < parted0.len() ==> #[trigger] parted@[n] == parted0[n],
                forall|n: int|
                    0 <= n < k ==> #[trigger] parted@[parted0.len() + n] == (
                        collider,
                        removal.parted@[n],
                    ),
            decreases removal.parted@.len() - k,
        {
            parted.push((collider, removal.parted[k]));
            k = k + 1;
        }
        proof {
            let more = removal.parted@.map(|i: int, other: Entity| (next.last(), other));
            assert forall|n: int| 0 <= n < more.len() implies parted@[parted0.len() + n]
                == #[trigger] more[n] by {}
            assert(parted@ =~= parted0 + more);
            assert forall|c: ContactId| graph0.contains_key(c) implies (is_of_one(graph0[c], next)
                <==> is_of_one(graph0[c], done) || graph0[c].is_of(collider)) by {
                if is_of_one(graph0[c], done) {
                    let n = choose|n: int| 0 <= n < done.len() && graph0[c].is_of(#[trigger] done[n]);
                    assert(graph0[c].is_of(next[n]));
                }
                if graph0[c].is_of(collider) {
                    assert(graph0[c].is_of(next[i as int]));
                }
                if is_of_one(graph0[c], next) {
                    let n = choose|n: int| 0 <= n < next.len() && graph0[c].is_of(#[trigger] next[n]);
                    if n < i {
                        assert(graph0[c].is_of(done[n]));
                    }
                }
            }
            assert(contact_graph@ =~= without_colliders(graph0, next));
            assert forall|k: PairKey| keys_with_one(graph0, next).contains(k) <==> keys_with_one(
                graph0,
                done,
            ).contains(k) || keys_with(graph1, collider).contains(k) by {
                if keys_with_one(graph0, next).contains(k) {
                    let c = choose|c: ContactId| #[trigger]
                        graph0.contains_key(c) && is_of_one(graph0[c], next) && graph0[c].key()
                            == k;
                    if !is_of_one(graph0[c], done) {
                        assert(graph1.contains_key(c));
                    }
                }
                if keys_with_one(graph0, done).contains(k) {
                    let c = choose|c: ContactId| #[trigger]
                        graph0.contains_key(c) && is_of_one(graph0[c], done) && graph0[c].key()
                            == k;
                    assert(graph0.contains_key(c) && is_of_one(graph0[c], next));
                }
                if keys_with(graph1, collider).contains(k) {
                    let c = choose|c: ContactId| #[trigger]
                        graph1.contains_key(c) && graph1[c].is_of(collider) && graph1[c].key() == k;
                    assert(graph0.contains_key(c) && is_of_one(graph0[c], next));
                }
            }
            assert(contact_graph.keys() =~= keys0.difference(keys_with_one(graph0, next)));
        }
        i = i + 1;
    }
    assert(colliders@.take(i as int) =~= colliders@);
    BodyRemoval { ended, parted, changes }
}

/// Once a body lost its contact pairs, none of them is left, and all others are as they were.
pub proof fn removing_a_body_leaves_no_contacts(
    graph: Map<ContactId, ContactEdge>,
    colliders: Seq<Entity>,
    c: ContactId,
)
    ensures
        without_colliders(graph, colliders).contains_key(c) <==> graph.contains_key(c)
            && !is_of_one(graph[c], colliders),
        without_colliders(graph, colliders).contains_key(c) ==> without_colliders(
            graph,
            colliders,
        )[c] == graph[c],
{
}

/// When a collider is removed, a change is recorded for each of its touching contacts between two
/// bodies.
pub proof fn lost_constraints_are_recorded(
    edges: Seq<ContactEdge>,
    graph: Map<ContactId, ContactEdge>,
    collider: Entity,
    c: ContactId,
)
    requires
        are_edges_with(edges, graph, collider),
        graph.contains_key(c),
        graph[c].is_of(collider),
        graph[c].is_touching,
        graph[c].body1 is Some,
        graph[c].body2 is Some,
    ensures
        stopped_constraints(edges).contains(stop_of(graph[c])),
{
    assert(lists_id(edges, c));
    let n = choose|n: int| 0 <= n < edges.len() && (#[trigger] edges[n]).id == c;
    assert(edges[n] == graph[c]);
    lemma_stop_is_recorded(edges, n);
}

proof fn lemma_stop_is_recorded(edges: Seq<ContactEdge>, n: int)
    requires
        0 <= n < edges.len(),
        edges[n].is_touching,
        edges[n].body1 is Some,
        edges[n].body2 is Some,
    ensures
        stopped_constraints(edges).contains(stop_of(edges[n])),
    decreases edges.len(),
{
    let all = stopped_constraints(edges);
    let rest = stopped_constraints(edges.drop_last());
    if n == edges.len() - 1 {
        assert(all[rest.len() as int] == stop_of(edges[n]));
    } else {
        lemma_stop_is_recorded(edges.drop_last(), n);
        let m = choose|m: int| 0 <= m < rest.len() && rest[m] == stop_of(edges[n]);
        assert(all[m] == stop_of(edges[n]));
    }
}

} // verus!
