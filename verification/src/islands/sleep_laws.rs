//! What holds of islands, bodies, and contact pairs that fall asleep and wake up.

use vstd::prelude::*;

use crate::contact_graph::{lists_id, ContactEdge};
use crate::entity::{ContactId, Entity};
use crate::float_bits::{above_follows_the_bit_patterns, is_above, numbers_end_at_infinity, order_key_orders};
use crate::islands::commands::{
    are_changed_edges, bodies_to_change, body_asleep, colliders_of, edge_changes, edge_follows,
    edge_follows_one, graph_with_sleeping, with_sleeping,
};
use crate::islands::island::PhysicsIsland;
use crate::islands::manager::IslandView;
use crate::islands::node::{IslandId, IslandNode};
use crate::islands::sleeping::{
    body_changed_after, candidate_chosen, falls_asleep, has_changed, has_island, has_number,
    has_restless, is_roused, is_sleepiest, lists_islands, wants_split, BodyChange, SleepCandidate,
};
use crate::ticks::tick_is_newer;

verus! {

/// Each of the position, the rotation, the two velocities, and the sleep timer of a body keeps the
/// island of the body awake on its own, if it changed after the last physics tick.
pub proof fn every_change_keeps_the_island_awake(
    bodies: Seq<BodyChange>,
    n: int,
    tick: u32,
    this_run: u32,
)
    requires
        0 <= n < bodies.len(),
    ensures
        ({
            let awake = has_changed(
                bodies,
                bodies[n].island_id.0 as usize,
                bodies.len() as int,
                tick,
                this_run,
            );
            &&& bodies[n].position.is_changed && tick_is_newer(
                bodies[n].position.last_changed,
                tick,
                this_run,
            ) ==> awake
            &&& bodies[n].rotation.is_changed && tick_is_newer(
                bodies[n].rotation.last_changed,
                tick,
                this_run,
            ) ==> awake
            &&& bodies[n].linear_velocity.is_changed && tick_is_newer(
                bodies[n].linear_velocity.last_changed,
                tick,
                this_run,
            ) ==> awake
            &&& bodies[n].angular_velocity.is_changed && tick_is_newer(
                bodies[n].angular_velocity.last_changed,
                tick,
                this_run,
            ) ==> awake
            &&& bodies[n].sleep_timer.is_changed && tick_is_newer(
                bodies[n].sleep_timer.last_changed,
                tick,
                this_run,
            ) ==> awake
        }),
{
    assert(bodies[n].island_id.0 == bodies[n].island_id.0 as usize);
}

/// An island is kept awake only if one of the five components of one of its bodies changed after the
/// last physics tick.
pub proof fn nothing_else_keeps_the_island_awake(
    bodies: Seq<BodyChange>,
    island: usize,
    tick: u32,
    this_run: u32,
) -> (n: int)
    requires
        has_changed(bodies, island, bodies.len() as int, tick, this_run),
    ensures
        0 <= n < bodies.len(),
        bodies[n].island_id.0 == island,
        (bodies[n].position.is_changed && tick_is_newer(
            bodies[n].position.last_changed,
            tick,
            this_run,
        )) || (bodies[n].rotation.is_changed && tick_is_newer(
            bodies[n].rotation.last_changed,
            tick,
            this_run,
        )) || (bodies[n].linear_velocity.is_changed && tick_is_newer(
            bodies[n].linear_velocity.last_changed,
            tick,
            this_run,
        )) || (bodies[n].angular_velocity.is_changed && tick_is_newer(
            bodies[n].angular_velocity.last_changed,
            tick,
            this_run,
        )) || (bodies[n].sleep_timer.is_changed && tick_is_newer(
            bodies[n].sleep_timer.last_changed,
            tick,
            this_run,
        )),
{
    choose|n: int|
        0 <= n < bodies.len() && (#[trigger] bodies[n]).island_id.0 == island && body_changed_after(
            bodies[n],
            tick,
            this_run,
        )
}

/// The islands with a given number are those of the bodies and of the list.
pub proof fn islands_are_found_by_number(
    bodies: Seq<SleepCandidate>,
    ids: Seq<IslandId>,
    island: usize,
)
    ensures
        has_island(bodies, island, bodies.len() as int) <==> exists|n: int|
            0 <= n < bodies.len() && (#[trigger] bodies[n]).island_id.0 == island,
        has_restless(bodies, island, bodies.len() as int) <==> exists|n: int|
            0 <= n < bodies.len() && (#[trigger] bodies[n]).island_id.0 == island
                && bodies[n].wants_sleep == false,
        has_number(ids, island, ids.len() as int) <==> exists|n: int|
            0 <= n < ids.len() && (#[trigger] ids[n]).0 == island,
{
    if has_restless(bodies, island, bodies.len() as int) {
        let n = choose|n: int|
            0 <= n < bodies.len() && (#[trigger] bodies[n]).island_id.0 == island
                && !bodies[n].wants_sleep;
        assert(bodies[n].wants_sleep == false);
    }
}

/// The island that is to be split is that of a body which wants to sleep, while its island has lost
/// constraints and its sleep timer is running. No such body has a larger timer, and none before it
/// one that is as large. Without such a body, the choice stays as it was.
pub proof fn sleepiest_island_is_split(
    map: Map<IslandId, PhysicsIsland>,
    bodies: Seq<SleepCandidate>,
    before: Option<IslandId>,
    candidate: Option<IslandId>,
    timer: u32,
) -> (chosen: int)
    requires
        candidate_chosen(map, bodies, bodies.len() as int, before, candidate, timer),
    ensures
        ({
            let waits = |body: SleepCandidate|
                body.wants_sleep && map.contains_key(body.island_id)
                    && map[body.island_id].constraints_removed > 0 && is_above(body.sleep_timer, 0);
            &&& (forall|j: int| 0 <= j < bodies.len() ==> !waits(#[trigger] bodies[j]))
                ==> candidate == before && timer == 0
            &&& (exists|j: int| 0 <= j < bodies.len() && waits(#[trigger] bodies[j])) ==> {
                &&& 0 <= chosen < bodies.len()
                &&& waits(bodies[chosen])
                &&& candidate == Some(bodies[chosen].island_id)
                &&& timer == bodies[chosen].sleep_timer
                &&& forall|j: int|
                    0 <= j < bodies.len() && waits(#[trigger] bodies[j]) ==> !is_above(
                        bodies[j].sleep_timer,
                        bodies[chosen].sleep_timer,
                    )
                &&& forall|j: int|
                    0 <= j < chosen && waits(#[trigger] bodies[j]) ==> is_above(
                        bodies[chosen].sleep_timer,
                        bodies[j].sleep_timer,
                    )
            }
        }),
{
    let waits = |body: SleepCandidate|
        body.wants_sleep && map.contains_key(body.island_id)
            && map[body.island_id].constraints_removed > 0 && is_above(body.sleep_timer, 0);
    assert(forall|j: int|
        0 <= j < bodies.len() ==> (wants_split(map, #[trigger] bodies[j]) <==> waits(bodies[j])));
    if exists|j: int| 0 <= j < bodies.len() && waits(#[trigger] bodies[j]) {
        let chosen = choose|i: int| #[trigger]
            is_sleepiest(map, bodies, i, bodies.len() as int) && candidate == Some(
                bodies[i].island_id,
            ) && timer == bodies[i].sleep_timer;
        let own = bodies[chosen].sleep_timer;
        above_follows_the_bit_patterns(own, 0);
        assert forall|j: int| 0 <= j < bodies.len() && waits(#[trigger] bodies[j]) implies !is_above(
            bodies[j].sleep_timer,
            own,
        ) by {
            assert(wants_split(map, bodies[j]));
        }
        assert forall|j: int| 0 <= j < chosen && waits(#[trigger] bodies[j]) implies is_above(
            own,
            bodies[j].sleep_timer,
        ) by {
            let other = bodies[j].sleep_timer;
            assert(wants_split(map, bodies[j]));
            above_follows_the_bit_patterns(other, 0);
            above_follows_the_bit_patterns(own, other);
            numbers_end_at_infinity(own);
            numbers_end_at_infinity(other);
            order_key_orders(own, other);
            order_key_orders(other, own);
        }
        chosen
    } else {
        -1
    }
}

/// The islands that are put to sleep are those that are awake, that nothing keeps awake, and that
/// have lost no constraints. They are listed once each, by ascending identifier.
pub proof fn still_islands_fall_asleep(
    ids: Seq<IslandId>,
    map: Map<IslandId, PhysicsIsland>,
    awake: Set<usize>,
)
    requires
        lists_islands(ids, map, |island: PhysicsIsland| falls_asleep(island, awake)),
    ensures
        forall|k: IslandId| #[trigger]
            ids.contains(k) <==> map.contains_key(k) && !awake.contains(map[k].id.0 as usize)
                && map[k].is_sleeping == false && map[k].constraints_removed == 0,
        forall|i: int, j: int|
            0 <= i < j < ids.len() ==> (#[trigger] ids[i]).0 < (#[trigger] ids[j]).0,
{
}

/// The islands that are woken up are those that sleep, and that something keeps awake. They are
/// listed once each, by ascending identifier. None of them is put to sleep.
pub proof fn roused_islands_wake_up(
    ids: Seq<IslandId>,
    map: Map<IslandId, PhysicsIsland>,
    awake: Set<usize>,
    sleep: Seq<IslandId>,
)
    requires
        lists_islands(ids, map, |island: PhysicsIsland| is_roused(island, awake)),
        lists_islands(sleep, map, |island: PhysicsIsland| falls_asleep(island, awake)),
    ensures
        forall|k: IslandId| #[trigger]
            ids.contains(k) <==> map.contains_key(k) && awake.contains(map[k].id.0 as usize)
                && map[k].is_sleeping == true,
        forall|i: int, j: int|
            0 <= i < j < ids.len() ==> (#[trigger] ids[i]).0 < (#[trigger] ids[j]).0,
        forall|k: IslandId| #[trigger] ids.contains(k) ==> !sleep.contains(k),
{
}

/// When gravity changes, the islands that sleep are woken up, once each and by ascending identifier.
pub proof fn all_sleeping_islands_wake_up(ids: Seq<IslandId>, map: Map<IslandId, PhysicsIsland>)
    requires
        lists_islands(ids, map, |island: PhysicsIsland| island.is_sleeping),
    ensures
        forall|k: IslandId| #[trigger]
            ids.contains(k) <==> map.contains_key(k) && map[k].is_sleeping == true,
        forall|i: int, j: int|
            0 <= i < j < ids.len() ==> (#[trigger] ids[i]).0 < (#[trigger] ids[j]).0,
{
}

/// Falling asleep and waking up touches the named islands only, and nothing of them but whether they
/// sleep.
pub proof fn sleeping_changes_nothing_else(
    model: Map<IslandId, IslandView>,
    ids: Seq<IslandId>,
    sleeping: bool,
)
    ensures
        ({
            let after = with_sleeping(model, ids, sleeping);
            &&& after.dom() == model.dom()
            &&& forall|k: IslandId|
                model.contains_key(k) ==> {
                    &&& (#[trigger] after[k]).bodies == model[k].bodies
                    &&& after[k].contacts == model[k].contacts
                    &&& after[k].joints == model[k].joints
                    &&& after[k].sleep_timer == model[k].sleep_timer
                    &&& after[k].constraints_removed == model[k].constraints_removed
                    &&& ids.contains(k) ==> after[k].is_sleeping == sleeping
                    &&& !ids.contains(k) ==> after[k].is_sleeping == model[k].is_sleeping
                }
        }),
{
    assert(with_sleeping(model, ids, sleeping).dom() =~= model.dom());
}

/// The bodies that fall asleep, or wake up, are all those of the named islands that did not sleep, or
/// did, before.
pub proof fn bodies_follow_their_islands(
    model: Map<IslandId, IslandView>,
    ids: Seq<IslandId>,
    sleeping: bool,
    body: Entity,
)
    ensures
        bodies_to_change(model, ids, sleeping).contains(body) <==> exists|k: IslandId| #[trigger]
            ids.contains(k) && model.contains_key(k) && model[k].is_sleeping != sleeping
                && model[k].bodies.contains(body),
    decreases ids.len(),
{
    let all = bodies_to_change(model, ids, sleeping);
    if ids.len() > 0 {
        let rest = ids.drop_last();
        let last = ids.last();
        let before = bodies_to_change(model, rest, sleeping);
        bodies_follow_their_islands(model, rest, sleeping, body);
        assert forall|k: IslandId| #[trigger] ids.contains(k) <==> rest.contains(k) || k == last by {
            lemma_last_or_before(ids, k);
        }
        if before.contains(body) {
            let n = choose|n: int| 0 <= n < before.len() && before[n] == body;
            assert(all[n] == body);
            let k = choose|k: IslandId| #[trigger]
                rest.contains(k) && model.contains_key(k) && model[k].is_sleeping != sleeping
                    && model[k].bodies.contains(body);
            assert(ids.contains(k));
        }
        if all.contains(body) && !before.contains(body) {
            let n = choose|n: int| 0 <= n < all.len() && all[n] == body;
            if n < before.len() {
                assert(before[n] == body);
            }
            assert(model[last].bodies[n - before.len()] == body);
            assert(model[last].bodies.contains(body));
            assert(ids.contains(last));
        }
        if exists|k: IslandId| #[trigger]
            ids.contains(k) && model.contains_key(k) && model[k].is_sleeping != sleeping
                && model[k].bodies.contains(body) {
            let k = choose|k: IslandId| #[trigger]
                ids.contains(k) && model.contains_key(k) && model[k].is_sleeping != sleeping
                    && model[k].bodies.contains(body);
            if !rest.contains(k) {
                let n = choose|n: int| 0 <= n < model[k].bodies.len() && model[k].bodies[n] == body;
                assert(all[before.len() + n] == body);
            } else {
                assert(before.contains(body));
            }
        }
    }
}

proof fn lemma_last_or_before<A>(s: Seq<A>, a: A)
    requires
        s.len() > 0,
    ensures
        s.contains(a) <==> s.drop_last().contains(a) || a == s.last(),
{
    let rest = s.drop_last();
    if rest.contains(a) {
        let n = choose|n: int| 0 <= n < rest.len() && rest[n] == a;
        assert(s[n] == a);
    }
    if a == s.last() {
        assert(s[s.len() - 1] == a);
    }
    if s.contains(a) {
        let n = choose|n: int| 0 <= n < s.len() && s[n] == a;
        if n < rest.len() {
            assert(rest[n] == a);
        }
    }
}

/// The bodies of islands come in the order in which the islands are named, and those of an island in
/// the order in which it holds them. Naming an island again adds nothing.
pub proof fn bodies_come_in_the_order_of_islands(
    model: Map<IslandId, IslandView>,
    ids: Seq<IslandId>,
    k: IslandId,
    sleeping: bool,
)
    ensures
        bodies_to_change(model, Seq::empty(), sleeping) == Seq::<Entity>::empty(),
        ids.contains(k) ==> bodies_to_change(model, ids.push(k), sleeping) == bodies_to_change(
            model,
            ids,
            sleeping,
        ),
        !ids.contains(k) && model.contains_key(k) && model[k].is_sleeping != sleeping
            ==> bodies_to_change(model, ids.push(k), sleeping) == bodies_to_change(
            model,
            ids,
            sleeping,
        ) + model[k].bodies,
        !model.contains_key(k) || model[k].is_sleeping == sleeping ==> bodies_to_change(
            model,
            ids.push(k),
            sleeping,
        ) == bodies_to_change(model, ids, sleeping),
{
    assert(ids.push(k).drop_last() =~= ids);
    assert(bodies_to_change(model, Seq::empty(), sleeping) =~= Seq::<Entity>::empty());
}

/// The colliders of bodies are all those of the one, then all those of the next one, and so on.
pub proof fn colliders_come_in_the_order_of_bodies(
    colliders: Map<Entity, Seq<Entity>>,
    bodies: Seq<Entity>,
    body: Entity,
)
    ensures
        colliders_of(colliders, Seq::empty()) == Seq::<Entity>::empty(),
        colliders.contains_key(body) ==> colliders_of(colliders, bodies.push(body))
            == colliders_of(colliders, bodies) + colliders[body],
        !colliders.contains_key(body) ==> colliders_of(colliders, bodies.push(body))
            == colliders_of(colliders, bodies),
{
    assert(bodies.push(body).drop_last() =~= bodies);
}

/// A collider is one of those of the bodies exactly if one of the bodies has it.
pub proof fn colliders_belong_to_the_bodies(
    colliders: Map<Entity, Seq<Entity>>,
    bodies: Seq<Entity>,
    collider: Entity,
)
    ensures
        colliders_of(colliders, bodies).contains(collider) <==> exists|b: Entity| #[trigger]
            bodies.contains(b) && colliders.contains_key(b) && colliders[b].contains(collider),
    decreases bodies.len(),
{
    let all = colliders_of(colliders, bodies);
    if bodies.len() > 0 {
        let rest = bodies.drop_last();
        let last = bodies.last();
        let before = colliders_of(colliders, rest);
        colliders_belong_to_the_bodies(colliders, rest, collider);
        assert forall|b: Entity| #[trigger] bodies.contains(b) <==> rest.contains(b) || b
            == last by {
            lemma_last_or_before(bodies, b);
        }
        if before.contains(collider) {
            let n = choose|n: int| 0 <= n < before.len() && before[n] == collider;
            assert(all[n] == collider);
            let b = choose|b: Entity| #[trigger]
                rest.contains(b) && colliders.contains_key(b) && colliders[b].contains(collider);
            assert(bodies.contains(b));
        }
        if all.contains(collider) && !before.contains(collider) {
            let n = choose|n: int| 0 <= n < all.len() && all[n] == collider;
            if n < before.len() {
                assert(before[n] == collider);
            }
            assert(colliders[last][n - before.len()] == collider);
            assert(colliders[last].contains(collider));
            assert(bodies.contains(last));
        }
        if exists|b: Entity| #[trigger]
            bodies.contains(b) && colliders.contains_key(b) && colliders[b].contains(collider) {
            let b = choose|b: Entity| #[trigger]
                bodies.contains(b) && colliders.contains_key(b) && colliders[b].contains(collider);
            if rest.contains(b) {
                assert(before.contains(collider));
            } else {
                let n = choose|n: int|
                    0 <= n < colliders[b].len() && colliders[b][n] == collider;
                assert(all[before.len() + n] == collider);
            }
        }
    }
}

/// A body is taken to sleep if it is not there, is in no island, or its island does not exist or
/// sleeps. It is taken to be awake if its island exists and is awake.
pub proof fn bodies_sleep_with_their_island(
    map: Map<IslandId, PhysicsIsland>,
    nodes: Map<Entity, IslandNode<Entity>>,
    body: Entity,
)
    ensures
        body_asleep(map, nodes, None),
        !nodes.contains_key(body) ==> body_asleep(map, nodes, Some(body)),
        nodes.contains_key(body) && !map.contains_key(nodes[body].island_id) ==> body_asleep(
            map,
            nodes,
            Some(body),
        ),
        nodes.contains_key(body) && map.contains_key(nodes[body].island_id) ==> body_asleep(
            map,
            nodes,
            Some(body),
        ) == map[nodes[body].island_id].is_sleeping,
{
}

proof fn lemma_follows(
    edge: ContactEdge,
    colliders: Seq<Entity>,
    sleeping: bool,
    map: Map<IslandId, PhysicsIsland>,
    nodes: Map<Entity, IslandNode<Entity>>,
)
    ensures
        edge_follows_one(edge, colliders, colliders.len() as int, sleeping, map, nodes) <==> (
        colliders.contains(edge.collider1) && (sleeping ==> body_asleep(map, nodes, edge.body2)))
            || (colliders.contains(edge.collider2) && edge.collider1 != edge.collider2 && (
        sleeping ==> body_asleep(map, nodes, edge.body1))),
{
    if edge_follows_one(edge, colliders, colliders.len() as int, sleeping, map, nodes) {
        let n = choose|n: int|
            0 <= n < colliders.len() && edge_follows(
                edge,
                #[trigger] colliders[n],
                sleeping,
                map,
                nodes,
            );
        assert(colliders.contains(colliders[n]));
    }
    if colliders.contains(edge.collider1) && (sleeping ==> body_asleep(map, nodes, edge.body2)) {
        let n = choose|n: int| 0 <= n < colliders.len() && colliders[n] == edge.collider1;
        assert(edge_follows(edge, colliders[n], sleeping, map, nodes));
    }
    if colliders.contains(edge.collider2) && edge.collider1 != edge.collider2 && (sleeping
        ==> body_asleep(map, nodes, edge.body1)) {
        let n = choose|n: int| 0 <= n < colliders.len() && colliders[n] == edge.collider2;
        assert(edge_follows(edge, colliders[n], sleeping, map, nodes));
    }
}

/// When colliders fall asleep, a contact pair of one of them falls asleep exactly if the body on the
/// other side sleeps too. When they wake up, each of their contact pairs wakes up. Nothing else of any
/// contact pair changes.
pub proof fn contacts_sleep_and_wake_with_their_colliders(
    graph: Map<ContactId, ContactEdge>,
    colliders: Seq<Entity>,
    map: Map<IslandId, PhysicsIsland>,
    nodes: Map<Entity, IslandNode<Entity>>,
    sleeping: bool,
)
    ensures
        ({
            let after = graph_with_sleeping(
                graph,
                colliders,
                colliders.len() as int,
                sleeping,
                map,
                nodes,
            );
            &&& after.dom() == graph.dom()
            &&& forall|c: ContactId|
                graph.contains_key(c) ==> {
                    let follows1 = colliders.contains(graph[c].collider1) && (sleeping
                        ==> body_asleep(map, nodes, graph[c].body2));
                    let follows2 = colliders.contains(graph[c].collider2) && graph[c].collider1
                        != graph[c].collider2 && (sleeping ==> body_asleep(
                        map,
                        nodes,
                        graph[c].body1,
                    ));
                    &&& follows1 || follows2 ==> (#[trigger] after[c]).is_sleeping == sleeping
                    &&& !follows1 && !follows2 ==> after[c].is_sleeping == graph[c].is_sleeping
                    &&& after[c].id == graph[c].id
                    &&& after[c].collider1 == graph[c].collider1
                    &&& after[c].collider2 == graph[c].collider2
                    &&& after[c].body1 == graph[c].body1
                    &&& after[c].body2 == graph[c].body2
                    &&& after[c].is_touching == graph[c].is_touching
                    &&& after[c].generates_constraints == graph[c].generates_constraints
                    &&& after[c].contact_events == graph[c].contact_events
                }
        }),
{
    let after = graph_with_sleeping(graph, colliders, colliders.len() as int, sleeping, map, nodes);
    assert(after.dom() =~= graph.dom());
    assert forall|c: ContactId| graph.contains_key(c) implies {
        let follows1 = colliders.contains(graph[c].collider1) && (sleeping ==> body_asleep(
            map,
            nodes,
            graph[c].body2,
        ));
        let follows2 = colliders.contains(graph[c].collider2) && graph[c].collider1
            != graph[c].collider2 && (sleeping ==> body_asleep(map, nodes, graph[c].body1));
        &&& follows1 || follows2 ==> (#[trigger] after[c]).is_sleeping == sleeping
        &&& !follows1 && !follows2 ==> after[c].is_sleeping == graph[c].is_sleeping
        &&& after[c].id == graph[c].id
        &&& after[c].collider1 == graph[c].collider1
        &&& after[c].collider2 == graph[c].collider2
        &&& after[c].body1 == graph[c].body1
        &&& after[c].body2 == graph[c].body2
        &&& after[c].is_touching == graph[c].is_touching
        &&& after[c].generates_constraints == graph[c].generates_constraints
        &&& after[c].contact_events == graph[c].contact_events
    } by {
        lemma_follows(graph[c], colliders, sleeping, map, nodes);
    }
}

/// When colliders wake up, each contact pair of one of them that slept, is touching, and generates
/// constraints is listed, once and as it was. No other one is.
pub proof fn woken_contacts_are_listed(
    contacts: Seq<ContactEdge>,
    graph: Map<ContactId, ContactEdge>,
    colliders: Seq<Entity>,
    map: Map<IslandId, PhysicsIsland>,
    nodes: Map<Entity, IslandNode<Entity>>,
)
    requires
        forall|c: ContactId| #[trigger] graph.contains_key(c) ==> graph[c].id == c,
        are_changed_edges(contacts, graph, colliders, colliders.len() as int, false, map, nodes),
    ensures
        contacts.no_duplicates(),
        forall|e: ContactEdge| #[trigger]
            contacts.contains(e) <==> graph.contains_key(e.id) && graph[e.id] == e && (
            colliders.contains(e.collider1) || colliders.contains(e.collider2)) && e.is_sleeping
                && e.is_touching && e.generates_constraints,
{
    lemma_changed(contacts, graph, colliders, false, map, nodes);
    assert forall|e: ContactEdge| #[trigger]
        contacts.contains(e) <==> graph.contains_key(e.id) && graph[e.id] == e && (
        colliders.contains(e.collider1) || colliders.contains(e.collider2)) && e.is_sleeping
            && e.is_touching && e.generates_constraints by {
        lemma_follows(e, colliders, false, map, nodes);
    }
}

/// When colliders fall asleep, each contact pair of one of them is listed, once and as it was, if it
/// was awake, is touching, generates constraints, and has two bodies, of which the one on the other
/// side sleeps too. No other one is.
pub proof fn sleeping_contacts_are_listed(
    contacts: Seq<ContactEdge>,
    graph: Map<ContactId, ContactEdge>,
    colliders: Seq<Entity>,
    map: Map<IslandId, PhysicsIsland>,
    nodes: Map<Entity, IslandNode<Entity>>,
)
    requires
        forall|c: ContactId| #[trigger] graph.contains_key(c) ==> graph[c].id == c,
        are_changed_edges(contacts, graph, colliders, colliders.len() as int, true, map, nodes),
    ensures
        contacts.no_duplicates(),
        forall|e: ContactEdge| #[trigger]
            contacts.contains(e) <==> graph.contains_key(e.id) && graph[e.id] == e && ((
            colliders.contains(e.collider1) && body_asleep(map, nodes, e.body2)) || (
            colliders.contains(e.collider2) && e.collider1 != e.collider2 && body_asleep(
                map,
                nodes,
                e.body1,
            ))) && !e.is_sleeping && e.is_touching && e.generates_constraints && e.body1 is Some
                && e.body2 is Some,
{
    lemma_changed(contacts, graph, colliders, true, map, nodes);
    assert forall|e: ContactEdge| #[trigger]
        contacts.contains(e) <==> graph.contains_key(e.id) && graph[e.id] == e && ((
        colliders.contains(e.collider1) && body_asleep(map, nodes, e.body2)) || (
        colliders.contains(e.collider2) && e.collider1 != e.collider2 && body_asleep(
            map,
            nodes,
            e.body1,
        ))) && !e.is_sleeping && e.is_touching && e.generates_constraints && e.body1 is Some
            && e.body2 is Some by {
        lemma_follows(e, colliders, true, map, nodes);
    }
}

proof fn lemma_changed(
    contacts: Seq<ContactEdge>,
    graph: Map<ContactId, ContactEdge>,
    colliders: Seq<Entity>,
    sleeping: bool,
    map: Map<IslandId, PhysicsIsland>,
    nodes: Map<Entity, IslandNode<Entity>>,
)
    requires
        forall|c: ContactId| #[trigger] graph.contains_key(c) ==> graph[c].id == c,
        are_changed_edges(contacts, graph, colliders, colliders.len() as int, sleeping, map, nodes),
    ensures
        contacts.no_duplicates(),
        forall|e: ContactEdge| #[trigger]
            contacts.contains(e) <==> graph.contains_key(e.id) && graph[e.id] == e && edge_changes(
                e,
                colliders,
                colliders.len() as int,
                sleeping,
                map,
                nodes,
            ),
{
    assert forall|e: ContactEdge|
        graph.contains_key(e.id) && graph[e.id] == e && edge_changes(
            e,
            colliders,
            colliders.len() as int,
            sleeping,
            map,
            nodes,
        ) implies #[trigger] contacts.contains(e) by {
        assert(lists_id(contacts, e.id));
        let n = choose|n: int| 0 <= n < contacts.len() && (#[trigger] contacts[n]).id == e.id;
        assert(contacts[n] == e);
    }
    assert forall|i: int, j: int|
        0 <= i < contacts.len() && 0 <= j < contacts.len() && i != j implies contacts[i]
        != contacts[j] by {
        if i < j {
            assert(contacts[i].id != contacts[j].id);
        } else {
            assert(contacts[j].id != contacts[i].id);
        }
    }
}

/// Waking up colliders that were put to sleep wakes up their contact pairs again: a pair that was
/// awake before is as it was, and those of two bodies that are listed are the same both times.
pub proof fn waking_restores_the_contacts(
    graph: Map<ContactId, ContactEdge>,
    colliders: Seq<Entity>,
    map1: Map<IslandId, PhysicsIsland>,
    nodes1: Map<Entity, IslandNode<Entity>>,
    map2: Map<IslandId, PhysicsIsland>,
    nodes2: Map<Entity, IslandNode<Entity>>,
    asleep: Seq<ContactEdge>,
    awake: Seq<ContactEdge>,
)
    requires
        forall|c: ContactId| #[trigger] graph.contains_key(c) ==> graph[c].id == c,
        are_changed_edges(asleep, graph, colliders, colliders.len() as int, true, map1, nodes1),
        are_changed_edges(
            awake,
            graph_with_sleeping(
                graph,
                colliders,
                colliders.len() as int,
                true,
                map1,
                nodes1,
            ),
            colliders,
            colliders.len() as int,
            false,
            map2,
            nodes2,
        ),
    ensures
        ({
            let after = graph_with_sleeping(
                graph_with_sleeping(
                    graph,
                    colliders,
                    colliders.len() as int,
                    true,
                    map1,
                    nodes1,
                ),
                colliders,
                colliders.len() as int,
                false,
                map2,
                nodes2,
            );
            forall|c: ContactId|
                graph.contains_key(c) && !graph[c].is_sleeping ==> {
                    &&& (#[trigger] after[c]) == graph[c]
                    &&& lists_id(asleep, c) ==> lists_id(awake, c)
                    &&& graph[c].body1 is Some && graph[c].body2 is Some && lists_id(awake, c)
                        ==> lists_id(asleep, c)
                }
        }),
{
    let len = colliders.len() as int;
    let middle = graph_with_sleeping(graph, colliders, len, true, map1, nodes1);
    let after = graph_with_sleeping(middle, colliders, len, false, map2, nodes2);
    contacts_sleep_and_wake_with_their_colliders(graph, colliders, map1, nodes1, true);
    contacts_sleep_and_wake_with_their_colliders(middle, colliders, map2, nodes2, false);
    assert(forall|c: ContactId| #[trigger]
        middle.contains_key(c) ==> graph.contains_key(c) && middle[c].id == c);
    sleeping_contacts_are_listed(asleep, graph, colliders, map1, nodes1);
    woken_contacts_are_listed(awake, middle, colliders, map2, nodes2);
    assert forall|c: ContactId| graph.contains_key(c) && !graph[c].is_sleeping implies {
        &&& (#[trigger] after[c]) == graph[c]
        &&& lists_id(asleep, c) ==> lists_id(awake, c)
        &&& graph[c].body1 is Some && graph[c].body2 is Some && lists_id(awake, c) ==> lists_id(
            asleep,
            c,
        )
    } by {
        assert(middle.contains_key(c));
        assert(middle[c].id == c);
        if lists_id(asleep, c) {
            let n = choose|n: int| 0 <= n < asleep.len() && (#[trigger] asleep[n]).id == c;
            assert(asleep.contains(asleep[n]));
            assert(asleep[n] == graph[c]);
            assert(awake.contains(middle[c]));
            let m = choose|m: int| 0 <= m < awake.len() && awake[m] == middle[c];
            assert(awake[m].id == c);
        }
        if graph[c].body1 is Some && graph[c].body2 is Some && lists_id(awake, c) {
            let n = choose|n: int| 0 <= n < awake.len() && (#[trigger] awake[n]).id == c;
            assert(awake.contains(awake[n]));
            assert(awake[n] == middle[c]);
            assert(asleep.contains(graph[c]));
            let m = choose|m: int| 0 <= m < asleep.len() && asleep[m] == graph[c];
            assert(asleep[m].id == c);
        }
    }
}

} // verus!
