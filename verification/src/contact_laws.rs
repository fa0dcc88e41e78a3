//! What holds of contact pairs, and of what is reported when they end.

use vstd::prelude::*;

use crate::contact_graph::{
    are_edges_with, edges_with, lemma_edges_with, lists_id, pair_key, ContactEdge, PairKey,
};
use crate::entity::{ContactId, Entity};
use crate::narrow_phase::{
    all_ended_events, all_parted_pairs, all_reports, all_stopped_constraints, ended_events,
    is_of_one, keys_with, keys_with_one, last_edges, parted_colliders, reports, stopped_constraints,
    without_collider, without_colliders, CollisionEvent, ContactStatusChange,
};

verus! {

/// What lies across a contact pair from one of its colliders is the other collider, with its body.
pub proof fn across_is_the_other_side(edge: ContactEdge, collider: Entity)
    ensures
        edge.is_of(collider) <==> edge.collider1 == collider || edge.collider2 == collider,
        edge.collider1 == collider ==> edge.collider_across(collider) == edge.collider2,
        edge.collider1 == collider ==> edge.body_across(collider) == edge.body2,
        edge.collider1 != collider && edge.collider2 == collider ==> edge.collider_across(collider)
            == edge.collider1,
        edge.collider1 != collider && edge.collider2 == collider ==> edge.body_across(collider)
            == edge.body1,
{
}

/// The key of a contact pair is the same from both sides, and tells the indices of the colliders.
pub proof fn contact_key_tells_the_indices(edge: ContactEdge)
    ensures
        edge.key() == pair_key(edge.collider1.index, edge.collider2.index),
        edge.key() == pair_key(edge.collider2.index, edge.collider1.index),
        edge.key().0 / 0x1_0000_0000 == if edge.collider1.index <= edge.collider2.index {
            edge.collider1.index
        } else {
            edge.collider2.index
        },
        edge.key().0 % 0x1_0000_0000 == if edge.collider1.index <= edge.collider2.index {
            edge.collider2.index
        } else {
            edge.collider1.index
        },
{
}

/// The contact pairs of a collider can be listed: each pair in which the collider is the first or
/// the second one comes once, and those with smaller identifiers come first.
pub proof fn contacts_of_a_collider_are_listed(
    graph: Map<ContactId, ContactEdge>,
    collider: Entity,
)
    requires
        forall|c: ContactId| #[trigger] graph.contains_key(c) ==> graph[c].id == c,
    ensures
        are_edges_with(edges_with(graph, collider), graph, collider),
        forall|e: ContactEdge| #[trigger]
            edges_with(graph, collider).contains(e) <==> graph.contains_key(e.id) && graph[e.id]
                == e && (e.collider1 == collider || e.collider2 == collider),
        forall|i: int, j: int|
            0 <= i < j < edges_with(graph, collider).len() ==> (#[trigger] edges_with(
                graph,
                collider,
            )[i]).id.0 < (#[trigger] edges_with(graph, collider)[j]).id.0,
{
    let edges = listing(graph, collider, 0x1_0000_0000);
    assert(are_edges_with(edges, graph, collider));
    lemma_edges_with(edges, graph, collider);
    assert forall|e: ContactEdge|
        graph.contains_key(e.id) && graph[e.id] == e && (e.collider1 == collider || e.collider2
            == collider) implies #[trigger] edges.contains(e) by {
        assert(lists_id(edges, e.id));
        let n = choose|n: int| 0 <= n < edges.len() && (#[trigger] edges[n]).id == e.id;
        assert(edges[n] == e);
    }
}

/// The contact pairs of a collider with an identifier below `n`.
proof fn listing(
    graph: Map<ContactId, ContactEdge>,
    collider: Entity,
    n: nat,
) -> (edges: Seq<ContactEdge>)
    requires
        forall|c: ContactId| #[trigger] graph.contains_key(c) ==> graph[c].id == c,
        n <= 0x1_0000_0000,
    ensures
        forall|i: int|
            0 <= i < edges.len() ==> graph.contains_key((#[trigger] edges[i]).id)
                && graph[edges[i].id] == edges[i] && edges[i].is_of(collider) && edges[i].id.0 < n,
        forall|id: ContactId| #[trigger]
            graph.contains_key(id) && graph[id].is_of(collider) && id.0 < n ==> lists_id(edges, id),
        forall|i: int, j: int|
            0 <= i < j < edges.len() ==> (#[trigger] edges[i]).id.0 < (#[trigger] edges[j]).id.0,
    decreases n,
{
    if n == 0 {
        Seq::empty()
    } else {
        let rest = listing(graph, collider, (n - 1) as nat);
        let last = ContactId((n - 1) as u32);
        let edges = if graph.contains_key(last) && graph[last].is_of(collider) {
            rest.push(graph[last])
        } else {
            rest
        };
        assert forall|id: ContactId| #[trigger]
            graph.contains_key(id) && graph[id].is_of(collider) && id.0 < n implies lists_id(
            edges,
            id,
        ) by {
            if id == last {
                assert(edges[rest.len() as int].id == id);
            } else {
                assert(lists_id(rest, id));
                let i = choose|i: int| 0 <= i < rest.len() && (#[trigger] rest[i]).id == id;
                assert(edges[i].id == id);
            }
        }
        edges
    }
}

/// The places of the touching contacts with events, in their order.
proof fn lemma_ended(edges: Seq<ContactEdge>) -> (places: Seq<int>)
    ensures
        places.len() == ended_events(edges).len(),
        forall|k: int| 0 <= k < places.len() ==> 0 <= #[trigger] places[k] < edges.len(),
        forall|k: int, l: int|
            0 <= k < l < places.len() ==> #[trigger] places[k] < #[trigger] places[l],
        forall|i: int| #[trigger]
            places.contains(i) <==> 0 <= i < edges.len() && edges[i].is_touching
                && edges[i].contact_events,
        forall|k: int|
            0 <= k < places.len() ==> (#[trigger] ended_events(edges)[k]).collider1
                == edges[places[k]].collider1 && ended_events(edges)[k].collider2
                == edges[places[k]].collider2 && ended_events(edges)[k].body1
                == edges[places[k]].body1 && ended_events(edges)[k].body2
                == edges[places[k]].body2,
    decreases edges.len(),
{
    if edges.len() == 0 {
        Seq::empty()
    } else {
        let before = edges.drop_last();
        let rest = lemma_ended(before);
        let last = edges.len() - 1;
        let places = if edges[last].is_touching && edges[last].contact_events {
            rest.push(last)
        } else {
            rest
        };
        lemma_places(rest, places, last, edges[last].is_touching && edges[last].contact_events);
        assert(forall|k: int| 0 <= k < rest.len() ==> edges[#[trigger] rest[k]] == before[rest[k]]);
        places
    }
}

/// The places of the touching contacts, in their order.
proof fn lemma_parted(edges: Seq<ContactEdge>, collider: Entity) -> (places: Seq<int>)
    requires
        forall|i: int|
            0 <= i < edges.len() ==> (#[trigger] edges[i]).collider1 == collider
                || edges[i].collider2 == collider,
    ensures
        places.len() == parted_colliders(edges, collider).len(),
        forall|k: int| 0 <= k < places.len() ==> 0 <= #[trigger] places[k] < edges.len(),
        forall|k: int, l: int|
            0 <= k < l < places.len() ==> #[trigger] places[k] < #[trigger] places[l],
        forall|i: int| #[trigger]
            places.contains(i) <==> 0 <= i < edges.len() && edges[i].is_touching,
        forall|k: int|
            0 <= k < places.len() ==> #[trigger] parted_colliders(edges, collider)[k] == if edges[
            places[k]].collider1 == collider {
                edges[places[k]].collider2
            } else {
                edges[places[k]].collider1
            },
    decreases edges.len(),
{
    if edges.len() == 0 {
        Seq::empty()
    } else {
        let before = edges.drop_last();
        let rest = lemma_parted(before, collider);
        let last = edges.len() - 1;
        let places = if edges[last].is_touching {
            rest.push(last)
        } else {
            rest
        };
        lemma_places(rest, places, last, edges[last].is_touching);
        assert(forall|k: int| 0 <= k < rest.len() ==> edges[#[trigger] rest[k]] == before[rest[k]]);
        places
    }
}

/// The places of the touching contacts between two bodies, in their order.
proof fn lemma_stopped(edges: Seq<ContactEdge>) -> (places: Seq<int>)
    ensures
        places.len() == stopped_constraints(edges).len(),
        forall|k: int| 0 <= k < places.len() ==> 0 <= #[trigger] places[k] < edges.len(),
        forall|k: int, l: int|
            0 <= k < l < places.len() ==> #[trigger] places[k] < #[trigger] places[l],
        forall|i: int| #[trigger]
            places.contains(i) <==> 0 <= i < edges.len() && edges[i].is_touching
                && edges[i].body1 is Some && edges[i].body2 is Some,
        forall|k: int|
            0 <= k < places.len() ==> (#[trigger] stopped_constraints(edges)[k]) == (
            ContactStatusChange::StoppedGeneratingConstraints {
                contact_id: edges[places[k]].id,
                body1: edges[places[k]].body1->0,
                body2: edges[places[k]].body2->0,
            }),
    decreases edges.len(),
{
    if edges.len() == 0 {
        Seq::empty()
    } else {
        let before = edges.drop_last();
        let rest = lemma_stopped(before);
        let last = edges.len() - 1;
        let taken = edges[last].is_touching && edges[last].body1 is Some && edges[last].body2
            is Some;
        let places = if taken {
            rest.push(last)
        } else {
            rest
        };
        lemma_places(rest, places, last, taken);
        assert(forall|k: int| 0 <= k < rest.len() ==> edges[#[trigger] rest[k]] == before[rest[k]]);
        places
    }
}

proof fn lemma_places(rest: Seq<int>, places: Seq<int>, last: int, taken: bool)
    requires
        places == if taken {
            rest.push(last)
        } else {
            rest
        },
    ensures
        forall|i: int| #[trigger]
            places.contains(i) <==> rest.contains(i) || (taken && i == last),
{
    assert forall|i: int| rest.contains(i) || (taken && i == last) implies #[trigger] places.contains(
    i) by {
        if rest.contains(i) {
            let k = choose|k: int| 0 <= k < rest.len() && rest[k] == i;
            assert(places[k] == i);
        } else {
            assert(places[rest.len() as int] == i);
        }
    }
}

/// The identifiers at the given places of a listing.
proof fn lemma_ids_at(
    edges: Seq<ContactEdge>,
    graph: Map<ContactId, ContactEdge>,
    collider: Entity,
    places: Seq<int>,
) -> (ids: Seq<ContactId>)
    requires
        are_edges_with(edges, graph, collider),
        forall|k: int| 0 <= k < places.len() ==> 0 <= #[trigger] places[k] < edges.len(),
        forall|k: int, l: int|
            0 <= k < l < places.len() ==> #[trigger] places[k] < #[trigger] places[l],
    ensures
        ids.len() == places.len(),
        forall|k: int|
            0 <= k < ids.len() ==> #[trigger] ids[k] == edges[places[k]].id && graph.contains_key(
                ids[k],
            ) && graph[ids[k]] == edges[places[k]] && graph[ids[k]].is_of(collider),
        ids.no_duplicates(),
        forall|c: ContactId| #[trigger]
            ids.contains(c) <==> exists|i: int| #[trigger] places.contains(i) && edges[i].id == c,
{
    let ids = places.map(|k: int, i: int| edges[i].id);
    assert forall|k: int, l: int| 0 <= k < ids.len() && 0 <= l < ids.len() && k != l implies ids[k]
        != ids[l] by {
        if k < l {
            assert(places[k] < places[l]);
            assert(edges[places[k]].id.0 < edges[places[l]].id.0);
        } else {
            assert(places[l] < places[k]);
            assert(edges[places[l]].id.0 < edges[places[k]].id.0);
        }
    }
    assert forall|c: ContactId| #[trigger] ids.contains(c) <==> exists|i: int| #[trigger]
        places.contains(i) && edges[i].id == c by {
        if ids.contains(c) {
            let k = choose|k: int| 0 <= k < ids.len() && ids[k] == c;
            assert(places.contains(places[k]));
        }
        if exists|i: int| #[trigger] places.contains(i) && edges[i].id == c {
            let i = choose|i: int| #[trigger] places.contains(i) && edges[i].id == c;
            let k = choose|k: int| 0 <= k < places.len() && places[k] == i;
            assert(ids[k] == c);
        }
    }
    ids
}

/// When a collider is removed, a collision ends for each of its contact pairs that is touching and
/// has events, and for no other one: the ended collisions are those of the contacts returned, one by
/// one, with the colliders and the bodies of the contact.
pub proof fn removed_collider_ends_its_collisions(
    graph: Map<ContactId, ContactEdge>,
    collider: Entity,
) -> (contacts: Seq<ContactId>)
    requires
        forall|c: ContactId| #[trigger] graph.contains_key(c) ==> graph[c].id == c,
    ensures
        contacts.no_duplicates(),
        forall|c: ContactId| #[trigger]
            contacts.contains(c) <==> graph.contains_key(c) && (graph[c].collider1 == collider
                || graph[c].collider2 == collider) && graph[c].is_touching
                && graph[c].contact_events,
        ({
            let ended = ended_events(edges_with(graph, collider));
            &&& ended.len() == contacts.len()
            &&& forall|k: int|
                0 <= k < ended.len() ==> {
                    &&& (#[trigger] ended[k]).collider1 == graph[contacts[k]].collider1
                    &&& ended[k].collider2 == graph[contacts[k]].collider2
                    &&& ended[k].body1 == graph[contacts[k]].body1
                    &&& ended[k].body2 == graph[contacts[k]].body2
                }
        }),
{
    contacts_of_a_collider_are_listed(graph, collider);
    let edges = edges_with(graph, collider);
    let places = lemma_ended(edges);
    let ids = lemma_ids_at(edges, graph, collider, places);
    assert forall|c: ContactId|
        graph.contains_key(c) && graph[c].is_of(collider) && graph[c].is_touching
            && graph[c].contact_events implies #[trigger] ids.contains(c) by {
        assert(lists_id(edges, c));
        let i = choose|i: int| 0 <= i < edges.len() && (#[trigger] edges[i]).id == c;
        assert(places.contains(i));
    }
    ids
}

/// When a collider is removed, it no longer touches the other collider of each of its contact pairs
/// that is touching, one by one, and of no other pair.
pub proof fn removed_collider_parts_from_the_others(
    graph: Map<ContactId, ContactEdge>,
    collider: Entity,
) -> (contacts: Seq<ContactId>)
    requires
        forall|c: ContactId| #[trigger] graph.contains_key(c) ==> graph[c].id == c,
    ensures
        contacts.no_duplicates(),
        forall|c: ContactId| #[trigger]
            contacts.contains(c) <==> graph.contains_key(c) && (graph[c].collider1 == collider
                || graph[c].collider2 == collider) && graph[c].is_touching,
        ({
            let parted = parted_colliders(edges_with(graph, collider), collider);
            &&& parted.len() == contacts.len()
            &&& forall|k: int|
                0 <= k < parted.len() ==> #[trigger] parted[k] == if graph[contacts[k]].collider1
                    == collider {
                    graph[contacts[k]].collider2
                } else {
                    graph[contacts[k]].collider1
                }
        }),
{
    contacts_of_a_collider_are_listed(graph, collider);
    let edges = edges_with(graph, collider);
    let places = lemma_parted(edges, collider);
    let ids = lemma_ids_at(edges, graph, collider, places);
    assert forall|c: ContactId|
        graph.contains_key(c) && graph[c].is_of(collider)
            && graph[c].is_touching implies #[trigger] ids.contains(c) by {
        assert(lists_id(edges, c));
        let i = choose|i: int| 0 <= i < edges.len() && (#[trigger] edges[i]).id == c;
        assert(places.contains(i));
    }
    ids
}

/// When a collider is removed, a change is recorded for each of its contact pairs that is touching
/// and has two bodies, one by one and with these bodies, and for no other pair.
pub proof fn removed_collider_stops_its_constraints(
    graph: Map<ContactId, ContactEdge>,
    collider: Entity,
) -> (contacts: Seq<ContactId>)
    requires
        forall|c: ContactId| #[trigger] graph.contains_key(c) ==> graph[c].id == c,
    ensures
        contacts.no_duplicates(),
        forall|c: ContactId| #[trigger]
            contacts.contains(c) <==> graph.contains_key(c) && (graph[c].collider1 == collider
                || graph[c].collider2 == collider) && graph[c].is_touching && graph[c].body1 is Some
                && graph[c].body2 is Some,
        ({
            let changes = stopped_constraints(edges_with(graph, collider));
            &&& changes.len() == contacts.len()
            &&& forall|k: int|
                0 <= k < changes.len() ==> #[trigger] changes[k] == (
                ContactStatusChange::StoppedGeneratingConstraints {
                    contact_id: contacts[k],
                    body1: graph[contacts[k]].body1->0,
                    body2: graph[contacts[k]].body2->0,
                })
        }),
{
    contacts_of_a_collider_are_listed(graph, collider);
    let edges = edges_with(graph, collider);
    let places = lemma_stopped(edges);
    let ids = lemma_ids_at(edges, graph, collider, places);
    assert forall|c: ContactId|
        graph.contains_key(c) && graph[c].is_of(collider) && graph[c].is_touching
            && graph[c].body1 is Some && graph[c].body2 is Some implies #[trigger] ids.contains(
        c,
    ) by {
        assert(lists_id(edges, c));
        let i = choose|i: int| 0 <= i < edges.len() && (#[trigger] edges[i]).id == c;
        assert(places.contains(i));
    }
    ids
}

/// When a collider is removed, its contact pairs go, and with them the keys of the pairs. The others
/// stay as they were.
pub proof fn removed_collider_leaves_the_others(
    graph: Map<ContactId, ContactEdge>,
    collider: Entity,
)
    ensures
        forall|c: ContactId| #[trigger]
            without_collider(graph, collider).contains_key(c) <==> graph.contains_key(c)
                && graph[c].collider1 != collider && graph[c].collider2 != collider,
        forall|c: ContactId|
            without_collider(graph, collider).contains_key(c) ==> #[trigger] without_collider(
                graph,
                collider,
            )[c] == graph[c],
        forall|k: PairKey| #[trigger]
            keys_with(graph, collider).contains(k) <==> exists|c: ContactId| #[trigger]
                graph.contains_key(c) && (graph[c].collider1 == collider || graph[c].collider2
                    == collider) && k == pair_key(graph[c].collider1.index, graph[c].collider2.index),
{
    assert forall|k: PairKey| #[trigger]
        keys_with(graph, collider).contains(k) <==> exists|c: ContactId| #[trigger]
            graph.contains_key(c) && (graph[c].collider1 == collider || graph[c].collider2
                == collider) && k == pair_key(graph[c].collider1.index, graph[c].collider2.index) by {
        if exists|c: ContactId| #[trigger]
            graph.contains_key(c) && (graph[c].collider1 == collider || graph[c].collider2
                == collider) && k == pair_key(
                graph[c].collider1.index,
                graph[c].collider2.index,
            ) {
            let c = choose|c: ContactId| #[trigger]
                graph.contains_key(c) && (graph[c].collider1 == collider || graph[c].collider2
                    == collider) && k == pair_key(
                    graph[c].collider1.index,
                    graph[c].collider2.index,
                );
            assert(graph.contains_key(c) && graph[c].is_of(collider) && graph[c].key() == k);
        }
    }
}

/// When colliders are removed, the contact pairs in which one of them is the first or the second
/// collider go, with the keys of the pairs. The others stay as they were.
pub proof fn removed_colliders_leave_the_others(
    graph: Map<ContactId, ContactEdge>,
    colliders: Seq<Entity>,
)
    ensures
        forall|c: ContactId| #[trigger]
            without_colliders(graph, colliders).contains_key(c) <==> graph.contains_key(c)
                && !colliders.contains(graph[c].collider1) && !colliders.contains(
                graph[c].collider2,
            ),
        forall|c: ContactId|
            without_colliders(graph, colliders).contains_key(c) ==> #[trigger] without_colliders(
                graph,
                colliders,
            )[c] == graph[c],
        forall|k: PairKey| #[trigger]
            keys_with_one(graph, colliders).contains(k) <==> exists|c: ContactId| #[trigger]
                graph.contains_key(c) && (colliders.contains(graph[c].collider1)
                    || colliders.contains(graph[c].collider2)) && k == pair_key(
                    graph[c].collider1.index,
                    graph[c].collider2.index,
                ),
{
    assert forall|c: ContactId| #[trigger] graph.contains_key(c) implies (is_of_one(
        graph[c],
        colliders,
    ) <==> colliders.contains(graph[c].collider1) || colliders.contains(graph[c].collider2)) by {
        lemma_of_one(graph[c], colliders);
    }
    assert forall|k: PairKey|
        (exists|c: ContactId| #[trigger]
            graph.contains_key(c) && (colliders.contains(graph[c].collider1) || colliders.contains(
                graph[c].collider2,
            )) && k == pair_key(
                graph[c].collider1.index,
                graph[c].collider2.index,
            )) implies #[trigger] keys_with_one(graph, colliders).contains(k) by {
        let c = choose|c: ContactId| #[trigger]
            graph.contains_key(c) && (colliders.contains(graph[c].collider1) || colliders.contains(
                graph[c].collider2,
            )) && k == pair_key(graph[c].collider1.index, graph[c].collider2.index);
        assert(graph.contains_key(c) && is_of_one(graph[c], colliders) && graph[c].key() == k);
    }
}

proof fn lemma_of_one(edge: ContactEdge, colliders: Seq<Entity>)
    ensures
        is_of_one(edge, colliders) <==> colliders.contains(edge.collider1) || colliders.contains(
            edge.collider2,
        ),
{
    if colliders.contains(edge.collider1) {
        let n = choose|n: int| 0 <= n < colliders.len() && colliders[n] == edge.collider1;
        assert(edge.is_of(colliders[n]));
    }
    if colliders.contains(edge.collider2) {
        let n = choose|n: int| 0 <= n < colliders.len() && colliders[n] == edge.collider2;
        assert(edge.is_of(colliders[n]));
    }
}

/// What is left after all but the last collider were removed.
proof fn lemma_before_last(graph: Map<ContactId, ContactEdge>, colliders: Seq<Entity>)
    requires
        forall|c: ContactId| #[trigger] graph.contains_key(c) ==> graph[c].id == c,
        colliders.len() > 0,
    ensures
        ({
            let left = without_colliders(graph, colliders.drop_last());
            &&& forall|c: ContactId| #[trigger] left.contains_key(c) ==> left[c].id == c
            &&& forall|c: ContactId| #[trigger]
                left.contains_key(c) <==> graph.contains_key(c) && !colliders.drop_last().contains(
                    graph[c].collider1,
                ) && !colliders.drop_last().contains(graph[c].collider2)
            &&& forall|c: ContactId| left.contains_key(c) ==> #[trigger] left[c] == graph[c]
        }),
        forall|e: Entity| #[trigger]
            colliders.contains(e) <==> colliders.drop_last().contains(e) || e == colliders.last(),
{
    let rest = colliders.drop_last();
    removed_colliders_leave_the_others(graph, rest);
    assert forall|e: Entity| #[trigger]
        colliders.contains(e) <==> rest.contains(e) || e == colliders.last() by {
        if rest.contains(e) {
            let n = choose|n: int| 0 <= n < rest.len() && rest[n] == e;
            assert(colliders[n] == e);
        }
        if colliders.contains(e) {
            let n = choose|n: int| 0 <= n < colliders.len() && colliders[n] == e;
            if n < rest.len() {
                assert(rest[n] == e);
            }
        }
    }
}

proof fn lemma_joined<A>(first: Seq<A>, second: Seq<A>)
    requires
        first.no_duplicates(),
        second.no_duplicates(),
        forall|a: A| first.contains(a) ==> !(#[trigger] second.contains(a)),
    ensures
        (first + second).no_duplicates(),
        forall|a: A| #[trigger]
            (first + second).contains(a) <==> first.contains(a) || second.contains(a),
{
    let all = first + second;
    assert forall|i: int, j: int| 0 <= i < all.len() && 0 <= j < all.len() && i != j implies all[i]
        != all[j] by {
        if i < first.len() && j >= first.len() {
            assert(first.contains(all[i]) && second.contains(second[j - first.len()]));
        }
        if j < first.len() && i >= first.len() {
            assert(first.contains(all[j]) && second.contains(second[i - first.len()]));
        }
    }
    assert forall|a: A| #[trigger] all.contains(a) <==> first.contains(a) || second.contains(a) by {
        if first.contains(a) {
            let n = choose|n: int| 0 <= n < first.len() && first[n] == a;
            assert(all[n] == a);
        }
        if second.contains(a) {
            let n = choose|n: int| 0 <= n < second.len() && second[n] == a;
            assert(all[n + first.len()] == a);
        }
        if all.contains(a) {
            let n = choose|n: int| 0 <= n < all.len() && all[n] == a;
            if n < first.len() {
                assert(first[n] == a);
            } else {
                assert(second[n - first.len()] == a);
            }
        }
    }
}

/// When the colliders of a body are removed, a collision ends for each of their contact pairs that is
/// touching and has events, and for no other one. A pair of two of these colliders ends once.
pub proof fn removed_body_ends_its_collisions(
    graph: Map<ContactId, ContactEdge>,
    colliders: Seq<Entity>,
) -> (contacts: Seq<ContactId>)
    requires
        forall|c: ContactId| #[trigger] graph.contains_key(c) ==> graph[c].id == c,
    ensures
        contacts.no_duplicates(),
        forall|c: ContactId| #[trigger]
            contacts.contains(c) <==> graph.contains_key(c) && (colliders.contains(
                graph[c].collider1,
            ) || colliders.contains(graph[c].collider2)) && graph[c].is_touching
                && graph[c].contact_events,
        ({
            let ended = all_ended_events(graph, colliders);
            &&& ended.len() == contacts.len()
            &&& forall|k: int|
                0 <= k < ended.len() ==> {
                    &&& (#[trigger] ended[k]).collider1 == graph[contacts[k]].collider1
                    &&& ended[k].collider2 == graph[contacts[k]].collider2
                    &&& ended[k].body1 == graph[contacts[k]].body1
                    &&& ended[k].body2 == graph[contacts[k]].body2
                }
        }),
    decreases colliders.len(),
{
    if colliders.len() == 0 {
        Seq::empty()
    } else {
        let rest = colliders.drop_last();
        let first = removed_body_ends_its_collisions(graph, rest);
        lemma_before_last(graph, colliders);
        let left = without_colliders(graph, rest);
        let second = removed_collider_ends_its_collisions(left, colliders.last());
        lemma_joined(first, second);
        let ended = all_ended_events(graph, colliders);
        let ended1 = all_ended_events(graph, rest);
        let ended2 = ended_events(last_edges(graph, colliders));
        let contacts = first + second;
        assert forall|k: int| 0 <= k < ended.len() implies {
            &&& (#[trigger] ended[k]).collider1 == graph[contacts[k]].collider1
            &&& ended[k].collider2 == graph[contacts[k]].collider2
            &&& ended[k].body1 == graph[contacts[k]].body1
            &&& ended[k].body2 == graph[contacts[k]].body2
        } by {
            if k < ended1.len() {
                assert(ended[k] == ended1[k]);
            } else {
                let l = k - ended1.len();
                assert(ended[k] == ended2[l]);
                assert(contacts[k] == second[l]);
                assert(second.contains(second[l]));
                assert(left[second[l]] == graph[second[l]]);
            }
        }
        contacts
    }
}

/// When the colliders of a body are removed, a change is recorded for each of their contact pairs
/// that is touching and has two bodies, once and with these bodies, and for no other pair.
pub proof fn removed_body_stops_its_constraints(
    graph: Map<ContactId, ContactEdge>,
    colliders: Seq<Entity>,
) -> (contacts: Seq<ContactId>)
    requires
        forall|c: ContactId| #[trigger] graph.contains_key(c) ==> graph[c].id == c,
    ensures
        contacts.no_duplicates(),
        forall|c: ContactId| #[trigger]
            contacts.contains(c) <==> graph.contains_key(c) && (colliders.contains(
                graph[c].collider1,
            ) || colliders.contains(graph[c].collider2)) && graph[c].is_touching && graph[c].body1
                is Some && graph[c].body2 is Some,
        ({
            let changes = all_stopped_constraints(graph, colliders);
            &&& changes.len() == contacts.len()
            &&& forall|k: int|
                0 <= k < changes.len() ==> #[trigger] changes[k] == (
                ContactStatusChange::StoppedGeneratingConstraints {
                    contact_id: contacts[k],
                    body1: graph[contacts[k]].body1->0,
                    body2: graph[contacts[k]].body2->0,
                })
        }),
    decreases colliders.len(),
{
    if colliders.len() == 0 {
        Seq::empty()
    } else {
        let rest = colliders.drop_last();
        let first = removed_body_stops_its_constraints(graph, rest);
        lemma_before_last(graph, colliders);
        let left = without_colliders(graph, rest);
        let second = removed_collider_stops_its_constraints(left, colliders.last());
        lemma_joined(first, second);
        let changes = all_stopped_constraints(graph, colliders);
        let changes1 = all_stopped_constraints(graph, rest);
        let changes2 = stopped_constraints(last_edges(graph, colliders));
        let contacts = first + second;
        assert forall|k: int| 0 <= k < changes.len() implies #[trigger] changes[k] == (
        ContactStatusChange::StoppedGeneratingConstraints {
            contact_id: contacts[k],
            body1: graph[contacts[k]].body1->0,
            body2: graph[contacts[k]].body2->0,
        }) by {
            if k < changes1.len() {
                assert(changes[k] == changes1[k]);
            } else {
                let l = k - changes1.len();
                assert(changes[k] == changes2[l]);
                assert(contacts[k] == second[l]);
                assert(second.contains(second[l]));
                assert(left[second[l]] == graph[second[l]]);
            }
        }
        contacts
    }
}

/// When the colliders of a body are removed, a pair of colliders parts for each of their contact
/// pairs that is touching, and for no other one. The collider that is removed first comes first.
pub proof fn removed_body_parts_from_the_others(
    graph: Map<ContactId, ContactEdge>,
    colliders: Seq<Entity>,
) -> (contacts: Seq<ContactId>)
    requires
        forall|c: ContactId| #[trigger] graph.contains_key(c) ==> graph[c].id == c,
    ensures
        contacts.no_duplicates(),
        forall|c: ContactId| #[trigger]
            contacts.contains(c) <==> graph.contains_key(c) && (colliders.contains(
                graph[c].collider1,
            ) || colliders.contains(graph[c].collider2)) && graph[c].is_touching,
        ({
            let parted = all_parted_pairs(graph, colliders);
            &&& parted.len() == contacts.len()
            &&& forall|k: int|
                0 <= k < parted.len() ==> {
                    let edge = graph[contacts[k]];
                    ||| (#[trigger] parted[k]) == (edge.collider1, edge.collider2)
                    ||| parted[k] == (edge.collider2, edge.collider1)
                }
            &&& forall|k: int|
                0 <= k < parted.len() ==> exists|n: int|
                    0 <= n < colliders.len() && (#[trigger] parted[k]).0 == #[trigger] colliders[n]
                        && !colliders.take(n).contains(parted[k].0) && !colliders.take(n).contains(
                        parted[k].1,
                    )
        }),
    decreases colliders.len(),
{
    if colliders.len() == 0 {
        Seq::empty()
    } else {
        let rest = colliders.drop_last();
        let first = removed_body_parts_from_the_others(graph, rest);
        lemma_before_last(graph, colliders);
        let left = without_colliders(graph, rest);
        let last = colliders.last();
        let second = removed_collider_parts_from_the_others(left, last);
        lemma_joined(first, second);
        let parted = all_parted_pairs(graph, colliders);
        let parted1 = all_parted_pairs(graph, rest);
        let others = parted_colliders(last_edges(graph, colliders), last);
        let contacts = first + second;
        assert forall|k: int| 0 <= k < parted.len() implies {
            let edge = graph[contacts[k]];
            ||| (#[trigger] parted[k]) == (edge.collider1, edge.collider2)
            ||| parted[k] == (edge.collider2, edge.collider1)
        } by {
            if k < parted1.len() {
                assert(parted[k] == parted1[k]);
            } else {
                let l = k - parted1.len();
                assert(parted[k] == (last, others[l]));
                assert(contacts[k] == second[l]);
                assert(second.contains(second[l]));
                assert(left[second[l]] == graph[second[l]]);
            }
        }
        assert forall|k: int| 0 <= k < parted.len() implies exists|n: int|
            0 <= n < colliders.len() && (#[trigger] parted[k]).0 == #[trigger] colliders[n]
                && !colliders.take(n).contains(parted[k].0) && !colliders.take(n).contains(
                parted[k].1,
            ) by {
            if k < parted1.len() {
                assert(parted[k] == parted1[k]);
                let n = choose|n: int|
                    0 <= n < rest.len() && parted1[k].0 == #[trigger] rest[n] && !rest.take(
                        n,
                    ).contains(parted1[k].0) && !rest.take(n).contains(parted1[k].1);
                assert(rest.take(n) =~= colliders.take(n));
                assert(colliders[n] == parted[k].0);
            } else {
                let l = k - parted1.len();
                assert(parted[k] == (last, others[l]));
                assert(second.contains(second[l]));
                assert(left[second[l]] == graph[second[l]]);
                let n = colliders.len() - 1;
                assert(colliders.take(n) =~= rest);
                assert(colliders[n] == last);
            }
        }
        contacts
    }
}

/// A collision is reported to a collider that exists and wants to hear of it, as long as the other
/// one exists too: as it is to the first collider, and the other way round to the second one. Nothing
/// else is reported, and to each collider once.
pub proof fn collisions_are_reported_to_both_sides(
    event: CollisionEvent,
    listeners: Map<Entity, bool>,
)
    ensures
        ({
            let exist = listeners.contains_key(event.collider1) && listeners.contains_key(
                event.collider2,
            );
            let to_first = exist && listeners[event.collider1];
            let to_second = exist && listeners[event.collider2];
            let turned = CollisionEvent {
                collider1: event.collider2,
                collider2: event.collider1,
                body1: event.body2,
                body2: event.body1,
            };
            let told = reports(event, listeners);
            &&& to_first && to_second ==> told.len() == 2 && told[0] == event && told[1] == turned
            &&& to_first && !to_second ==> told.len() == 1 && told[0] == event
            &&& !to_first && to_second ==> told.len() == 1 && told[0] == turned
            &&& !to_first && !to_second ==> told.len() == 0
        }),
        event.flipped().flipped() == event,
{
}

/// An event is reported of several collisions exactly if it is one of them, to a first collider that
/// listens, or one of them turned round, to a second collider that listens.
pub proof fn all_collisions_are_reported(
    events: Seq<CollisionEvent>,
    listeners: Map<Entity, bool>,
    told: CollisionEvent,
)
    ensures
        all_reports(events, listeners).contains(told) <==> exists|i: int|
            0 <= i < events.len() && listeners.contains_key((#[trigger] events[i]).collider1)
                && listeners.contains_key(events[i].collider2) && ((
            listeners[events[i].collider1] && told == events[i]) || (
            listeners[events[i].collider2] && told.collider1 == events[i].collider2
                && told.collider2 == events[i].collider1 && told.body1 == events[i].body2
                && told.body2 == events[i].body1)),
    decreases events.len(),
{
    let all = all_reports(events, listeners);
    if events.len() > 0 {
        let before = events.drop_last();
        let last = events.len() - 1;
        let rest = all_reports(before, listeners);
        let own = reports(events[last], listeners);
        all_collisions_are_reported(before, listeners, told);
        assert(all == rest + own);
        if rest.contains(told) {
            let n = choose|n: int| 0 <= n < rest.len() && rest[n] == told;
            assert(all[n] == told);
            let i = choose|i: int|
                0 <= i < before.len() && listeners.contains_key((#[trigger] before[i]).collider1)
                    && listeners.contains_key(before[i].collider2) && ((
                listeners[before[i].collider1] && told == before[i]) || (
                listeners[before[i].collider2] && told.collider1 == before[i].collider2
                    && told.collider2 == before[i].collider1 && told.body1 == before[i].body2
                    && told.body2 == before[i].body1));
            assert(events[i] == before[i]);
        }
        if own.contains(told) {
            let n = choose|n: int| 0 <= n < own.len() && own[n] == told;
            assert(all[rest.len() + n] == told);
            assert(events[last] == events[last]);
        }
        if all.contains(told) {
            let n = choose|n: int| 0 <= n < all.len() && all[n] == told;
            if n < rest.len() {
                assert(rest[n] == told);
            } else {
                assert(own[n - rest.len()] == told);
            }
        }
        if exists|i: int|
            0 <= i < events.len() && listeners.contains_key((#[trigger] events[i]).collider1)
                && listeners.contains_key(events[i].collider2) && ((
            listeners[events[i].collider1] && told == events[i]) || (
            listeners[events[i].collider2] && told.collider1 == events[i].collider2
                && told.collider2 == events[i].collider1 && told.body1 == events[i].body2
                && told.body2 == events[i].body1)) {
            let i = choose|i: int|
                0 <= i < events.len() && listeners.contains_key((#[trigger] events[i]).collider1)
                    && listeners.contains_key(events[i].collider2) && ((
                listeners[events[i].collider1] && told == events[i]) || (
                listeners[events[i].collider2] && told.collider1 == events[i].collider2
                    && told.collider2 == events[i].collider1 && told.body1 == events[i].body2
                    && told.body2 == events[i].body1));
            if i < last {
                assert(before[i] == events[i]);
            } else {
                if listeners[events[i].collider1] && told == events[i] {
                    assert(own[0] == told);
                } else {
                    assert(own[own.len() - 1] == told);
                }
                assert(own.contains(told));
            }
        }
    }
}

/// Reporting two batches of collisions is reporting the first one, and then the second one.
pub proof fn reports_follow_the_order_of_collisions(
    first: Seq<CollisionEvent>,
    second: Seq<CollisionEvent>,
    listeners: Map<Entity, bool>,
)
    ensures
        all_reports(first + second, listeners) == all_reports(first, listeners) + all_reports(
            second,
            listeners,
        ),
        forall|event: CollisionEvent| #[trigger]
            all_reports(seq![event], listeners) == reports(event, listeners),
    decreases second.len(),
{
    if second.len() == 0 {
        assert(first + second =~= first);
        assert(all_reports(first, listeners) + all_reports(second, listeners) =~= all_reports(
            first,
            listeners,
        ));
    } else {
        reports_follow_the_order_of_collisions(first, second.drop_last(), listeners);
        assert((first + second).drop_last() =~= first + second.drop_last());
        assert(all_reports(first + second, listeners) =~= all_reports(first, listeners)
            + all_reports(second, listeners));
    }
    assert forall|event: CollisionEvent| #[trigger]
        all_reports(seq![event], listeners) == reports(event, listeners) by {
        assert(seq![event].drop_last() =~= Seq::empty());
        assert(all_reports(Seq::empty(), listeners) =~= Seq::empty());
        assert(all_reports(seq![event], listeners) =~= reports(event, listeners));
    }
}

} // verus!
