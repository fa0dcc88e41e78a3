//! What holds of joints that come, go, and change their bodies.

use vstd::prelude::*;

use crate::contact_graph::{edges_with, ContactEdge};
use crate::contact_laws::contacts_of_a_collider_are_listed;
use crate::entity::{ContactId, Entity, JointId};
use crate::joint_graph::{are_joints_of, lists_joint, JointGraphEdge};
use crate::joints::{
    all_move_changes, contacts_between, contacts_of_colliders, contacts_with_body,
    move_changes, moved_joint, moved_joints, stops_between, ChangedJoint, JointGraphChange,
};
use crate::narrow_phase::ContactStatusChange;

verus! {

/// The joints of a body are those in which it is the first or the second body, each once and by
/// ascending identifier.
pub proof fn joints_of_a_body_are_listed(
    edges: Seq<JointGraphEdge>,
    graph: Map<JointId, JointGraphEdge>,
    body: Entity,
)
    requires
        are_joints_of(edges, graph, body),
        forall|j: JointId| #[trigger] graph.contains_key(j) ==> graph[j].id == j,
    ensures
        forall|e: JointGraphEdge| #[trigger]
            edges.contains(e) <==> graph.contains_key(e.id) && graph[e.id] == e && (e.body1 == body
                || e.body2 == body),
        forall|i: int, j: int|
            0 <= i < j < edges.len() ==> (#[trigger] edges[i]).id.0 < (#[trigger] edges[j]).id.0,
{
    assert forall|e: JointGraphEdge|
        graph.contains_key(e.id) && graph[e.id] == e && (e.body1 == body || e.body2
            == body) implies #[trigger] edges.contains(e) by {
        assert(lists_joint(edges, e.id));
        let n = choose|n: int| 0 <= n < edges.len() && (#[trigger] edges[n]).id == e.id;
        assert(edges[n] == e);
    }
}

/// A joint that an entity holds connects the bodies that it was changed to. It keeps its identifier,
/// its entity, and whether the bodies may collide. No other joint changes.
pub proof fn changed_joints_connect_the_new_bodies(
    graph: Map<JointId, JointGraphEdge>,
    held: Map<Entity, JointId>,
    joint: ChangedJoint,
)
    requires
        held.contains_key(joint.entity) ==> graph.contains_key(held[joint.entity]),
    ensures
        ({
            let after = moved_joint(graph, held, joint);
            let id = held[joint.entity];
            &&& after.dom() == graph.dom()
            &&& held.contains_key(joint.entity) ==> {
                &&& after[id].body1 == joint.body1
                &&& after[id].body2 == joint.body2
                &&& after[id].id == graph[id].id
                &&& after[id].entity == graph[id].entity
                &&& after[id].collision_disabled == graph[id].collision_disabled
            }
            &&& forall|j: JointId|
                graph.contains_key(j) && !(held.contains_key(joint.entity) && j == id)
                    ==> #[trigger] after[j] == graph[j]
        }),
{
    assert(moved_joint(graph, held, joint).dom() =~= graph.dom());
}

/// A joint that is changed to other bodies is removed and then added, under the identifier that it
/// has. One that connects the same bodies as before, in the same order, or that no entity holds, asks
/// for nothing.
pub proof fn changed_joints_are_removed_and_added(
    graph: Map<JointId, JointGraphEdge>,
    held: Map<Entity, JointId>,
    joint: ChangedJoint,
)
    ensures
        ({
            let changes = move_changes(graph, held, joint);
            let id = held[joint.entity];
            let same = graph[id].body1 == joint.body1 && graph[id].body2 == joint.body2;
            &&& held.contains_key(joint.entity) && !same ==> changes.len() == 2 && changes[0]
                == JointGraphChange::Removed(id) && changes[1] == JointGraphChange::Added(id)
            &&& !held.contains_key(joint.entity) || same ==> changes.len() == 0
        }),
{
}

/// Joints are changed one after the other: what comes last is done to what the others left.
pub proof fn joints_are_changed_in_order(
    graph: Map<JointId, JointGraphEdge>,
    held: Map<Entity, JointId>,
    joints: Seq<ChangedJoint>,
    joint: ChangedJoint,
)
    ensures
        moved_joints(graph, held, Seq::empty()) == graph,
        moved_joints(graph, held, joints.push(joint)) == moved_joint(
            moved_joints(graph, held, joints),
            held,
            joint,
        ),
        all_move_changes(graph, held, Seq::empty()) == Seq::<JointGraphChange>::empty(),
        all_move_changes(graph, held, joints.push(joint)) == all_move_changes(graph, held, joints)
            + move_changes(moved_joints(graph, held, joints), held, joint),
{
    assert(joints.push(joint).drop_last() =~= joints);
    assert(all_move_changes(graph, held, Seq::empty()) =~= Seq::<JointGraphChange>::empty());
}

/// Once joints were changed, each joint that an entity holds connects the bodies of the last change
/// of the entity, or those that it connected before if there was none. Nothing else of it changes.
pub proof fn last_change_of_a_joint_counts(
    graph: Map<JointId, JointGraphEdge>,
    held: Map<Entity, JointId>,
    joints: Seq<ChangedJoint>,
    entity: Entity,
)
    requires
        forall|e: Entity| #[trigger]
            held.contains_key(e) ==> graph.contains_key(held[e]) && graph[held[e]].entity == e,
        held.contains_key(entity),
    ensures
        ({
            let after = moved_joints(graph, held, joints);
            let id = held[entity];
            &&& after.dom() == graph.dom()
            &&& forall|e: Entity| #[trigger]
                held.contains_key(e) ==> after[held[e]].entity == e
            &&& after[id].id == graph[id].id
            &&& after[id].collision_disabled == graph[id].collision_disabled
            &&& forall|i: int|
                0 <= i < joints.len() && (#[trigger] joints[i]).entity == entity && (forall|k: int|
                    i < k < joints.len() ==> (#[trigger] joints[k]).entity != entity)
                    ==> after[id].body1 == joints[i].body1 && after[id].body2 == joints[i].body2
            &&& (forall|k: int| 0 <= k < joints.len() ==> (#[trigger] joints[k]).entity != entity)
                ==> after[id] == graph[id]
        }),
    decreases joints.len(),
{
    let after = moved_joints(graph, held, joints);
    let id = held[entity];
    if joints.len() > 0 {
        let rest = joints.drop_last();
        let last = joints.last();
        let before = moved_joints(graph, held, rest);
        last_change_of_a_joint_counts(graph, held, rest, entity);
        changed_joints_connect_the_new_bodies(before, held, last);
        assert(after.dom() =~= graph.dom());
        assert forall|e: Entity| #[trigger] held.contains_key(e) implies after[held[e]].entity
            == e by {
            assert(before[held[e]].entity == e);
            assert(before.dom().contains(held[e]));
            if held.contains_key(last.entity) && held[e] == held[last.entity] {
            } else {
                assert(after[held[e]] == before[held[e]]);
            }
        }
        if last.entity != entity {
            assert(graph[id].entity == entity);
            if held.contains_key(last.entity) {
                assert(graph[held[last.entity]].entity == last.entity);
                assert(held[last.entity] != id);
            }
            assert(before.dom().contains(id));
            assert(after[id] == before[id]);
        }
        assert forall|i: int|
            0 <= i < joints.len() && (#[trigger] joints[i]).entity == entity && (forall|k: int|
                i < k < joints.len() ==> (#[trigger] joints[k]).entity != entity) implies after[id].body1
            == joints[i].body1 && after[id].body2 == joints[i].body2 by {
            if i < rest.len() {
                assert(joints[joints.len() - 1].entity != entity);
                assert(rest[i].entity == entity);
                assert forall|k: int| i < k < rest.len() implies (#[trigger] rest[k]).entity
                    != entity by {
                    assert(joints[k].entity != entity);
                }
            }
        }
        if forall|k: int| 0 <= k < joints.len() ==> (#[trigger] joints[k]).entity != entity {
            assert(joints[joints.len() - 1].entity != entity);
            assert forall|k: int| 0 <= k < rest.len() implies (#[trigger] rest[k]).entity
                != entity by {
                assert(joints[k].entity != entity);
            }
        }
    }
}

// Contacts between bodies that may not collide.

/// The places of the contacts that are with a body, in their order.
proof fn lemma_with_body(edges: Seq<ContactEdge>, body: Entity) -> (places: Seq<int>)
    ensures
        places.len() == contacts_with_body(edges, body).len(),
        forall|k: int, l: int|
            0 <= k < l < places.len() ==> #[trigger] places[k] < #[trigger] places[l],
        forall|i: int| #[trigger]
            places.contains(i) <==> 0 <= i < edges.len() && (edges[i].body1 == Some(body)
                || edges[i].body2 == Some(body)),
        forall|k: int|
            0 <= k < places.len() ==> #[trigger] contacts_with_body(edges, body)[k]
                == edges[places[k]].id,
    decreases edges.len(),
{
    if edges.len() == 0 {
        Seq::empty()
    } else {
        let before = edges.drop_last();
        let rest = lemma_with_body(before, body);
        let last = edges.len() - 1;
        let taken = edges[last].body1 == Some(body) || edges[last].body2 == Some(body);
        let places = if taken {
            rest.push(last)
        } else {
            rest
        };
        assert forall|i: int| #[trigger]
            places.contains(i) <==> rest.contains(i) || (taken && i == last) by {
            if rest.contains(i) {
                let k = choose|k: int| 0 <= k < rest.len() && rest[k] == i;
                assert(places[k] == i);
            } else if taken && i == last {
                assert(places[rest.len() as int] == i);
            }
        }
        assert forall|k: int| 0 <= k < rest.len() implies edges[#[trigger] rest[k]]
            == before[rest[k]] && rest[k] < last by {
            assert(rest.contains(rest[k]));
        }
        places
    }
}

/// The contacts of a collider with a body are those of its contact pairs in which the body is that of
/// one of the two colliders, each once and by ascending identifier.
pub proof fn contacts_of_a_collider_with_a_body(
    graph: Map<ContactId, ContactEdge>,
    collider: Entity,
    body: Entity,
)
    requires
        forall|c: ContactId| #[trigger] graph.contains_key(c) ==> graph[c].id == c,
    ensures
        ({
            let ids = contacts_with_body(edges_with(graph, collider), body);
            &&& forall|c: ContactId| #[trigger]
                ids.contains(c) <==> graph.contains_key(c) && (graph[c].collider1 == collider
                    || graph[c].collider2 == collider) && (graph[c].body1 == Some(body)
                    || graph[c].body2 == Some(body))
            &&& forall|i: int, j: int|
                0 <= i < j < ids.len() ==> (#[trigger] ids[i]).0 < (#[trigger] ids[j]).0
        }),
{
    contacts_of_a_collider_are_listed(graph, collider);
    let edges = edges_with(graph, collider);
    let ids = contacts_with_body(edges, body);
    let places = lemma_with_body(edges, body);
    assert forall|k: int| 0 <= k < places.len() implies 0 <= #[trigger] places[k] < edges.len() by {
        assert(places.contains(places[k]));
    }
    assert forall|c: ContactId| #[trigger] ids.contains(c) <==> graph.contains_key(c) && (
    graph[c].collider1 == collider || graph[c].collider2 == collider) && (graph[c].body1 == Some(
        body,
    ) || graph[c].body2 == Some(body)) by {
        if ids.contains(c) {
            let k = choose|k: int| 0 <= k < ids.len() && ids[k] == c;
            assert(places.contains(places[k]));
            assert(edges.contains(edges[places[k]]));
        }
        if graph.contains_key(c) && (graph[c].collider1 == collider || graph[c].collider2
            == collider) && (graph[c].body1 == Some(body) || graph[c].body2 == Some(body)) {
            assert(edges.contains(graph[c]));
            let i = choose|i: int| 0 <= i < edges.len() && edges[i] == graph[c];
            assert(places.contains(i));
            let k = choose|k: int| 0 <= k < places.len() && places[k] == i;
            assert(ids[k] == c);
        }
    }
    assert forall|i: int, j: int| 0 <= i < j < ids.len() implies (#[trigger] ids[i]).0 < (
    #[trigger] ids[j]).0 by {
        assert(places[i] < places[j]);
    }
}

/// The contacts of colliders come in the order of the colliders.
pub proof fn contacts_come_in_the_order_of_colliders(
    graph: Map<ContactId, ContactEdge>,
    colliders: Seq<Entity>,
    collider: Entity,
    body: Entity,
)
    ensures
        contacts_of_colliders(graph, Seq::empty(), body) == Seq::<ContactId>::empty(),
        contacts_of_colliders(graph, colliders.push(collider), body) == contacts_of_colliders(
            graph,
            colliders,
            body,
        ) + contacts_with_body(edges_with(graph, collider), body),
{
    assert(colliders.push(collider).drop_last() =~= colliders);
    assert(contacts_of_colliders(graph, Seq::empty(), body) =~= Seq::<ContactId>::empty());
}

/// A contact is one of colliders with a body exactly if one of the colliders is one of its two, and
/// the body is that of one of its two.
pub proof fn contacts_of_colliders_with_a_body(
    graph: Map<ContactId, ContactEdge>,
    colliders: Seq<Entity>,
    body: Entity,
)
    requires
        forall|c: ContactId| #[trigger] graph.contains_key(c) ==> graph[c].id == c,
    ensures
        forall|c: ContactId| #[trigger]
            contacts_of_colliders(graph, colliders, body).contains(c) <==> graph.contains_key(c) && (
            colliders.contains(graph[c].collider1) || colliders.contains(graph[c].collider2)) && (
            graph[c].body1 == Some(body) || graph[c].body2 == Some(body)),
    decreases colliders.len(),
{
    let all = contacts_of_colliders(graph, colliders, body);
    if colliders.len() > 0 {
        let rest = colliders.drop_last();
        let last = colliders.last();
        let before = contacts_of_colliders(graph, rest, body);
        let own = contacts_with_body(edges_with(graph, last), body);
        contacts_of_colliders_with_a_body(graph, rest, body);
        contacts_of_a_collider_with_a_body(graph, last, body);
        assert forall|e: Entity| #[trigger] colliders.contains(e) <==> rest.contains(e) || e
            == last by {
            if rest.contains(e) {
                let n = choose|n: int| 0 <= n < rest.len() && rest[n] == e;
                assert(colliders[n] == e);
            }
            if colliders.contains(e) {
                let n = choose|n: int| 0 <= n < colliders.len() && colliders[n] == e;
                if n < rest.len() {
                    assert(rest[n] == e);
                }
            }
        }
        assert forall|c: ContactId| #[trigger] all.contains(c) <==> before.contains(c)
            || own.contains(c) by {
            if before.contains(c) {
                let n = choose|n: int| 0 <= n < before.len() && before[n] == c;
                assert(all[n] == c);
            }
            if own.contains(c) {
                let n = choose|n: int| 0 <= n < own.len() && own[n] == c;
                assert(all[before.len() + n] == c);
            }
            if all.contains(c) {
                let n = choose|n: int| 0 <= n < all.len() && all[n] == c;
                if n < before.len() {
                    assert(before[n] == c);
                } else {
                    assert(own[n - before.len()] == c);
                }
            }
        }
    }
}

/// The contacts between two bodies that both have colliders are those of a collider of the one with
/// fewer, or of the second one if they have as many, in which the other body is that of one of the two
/// colliders. Without colliders there are none.
pub proof fn contacts_between_bodies(
    graph: Map<ContactId, ContactEdge>,
    colliders: Map<Entity, Seq<Entity>>,
    body1: Entity,
    body2: Entity,
)
    requires
        forall|c: ContactId| #[trigger] graph.contains_key(c) ==> graph[c].id == c,
    ensures
        ({
            let ids = contacts_between(graph, colliders, body1, body2);
            let both = colliders.contains_key(body1) && colliders.contains_key(body2);
            let first = colliders[body1].len() < colliders[body2].len();
            let own = if first {
                colliders[body1]
            } else {
                colliders[body2]
            };
            let other = if first {
                body2
            } else {
                body1
            };
            &&& !both ==> ids.len() == 0
            &&& both ==> forall|c: ContactId| #[trigger]
                ids.contains(c) <==> graph.contains_key(c) && (own.contains(graph[c].collider1)
                    || own.contains(graph[c].collider2)) && (graph[c].body1 == Some(other)
                    || graph[c].body2 == Some(other))
        }),
{
    if colliders.contains_key(body1) && colliders.contains_key(body2) {
        contacts_of_colliders_with_a_body(graph, colliders[body1], body2);
        contacts_of_colliders_with_a_body(graph, colliders[body2], body1);
    }
}

/// Where contacts name the bodies of their colliders, the contacts between two bodies are exactly
/// those that name both.
pub proof fn contacts_between_bodies_name_both(
    graph: Map<ContactId, ContactEdge>,
    colliders: Map<Entity, Seq<Entity>>,
    body1: Entity,
    body2: Entity,
)
    requires
        forall|c: ContactId| #[trigger] graph.contains_key(c) ==> graph[c].id == c,
        colliders.contains_key(body1),
        colliders.contains_key(body2),
        body1 != body2,
        forall|c: ContactId| #[trigger]
            graph.contains_key(c) ==> {
                &&& graph[c].body1 == Some(body1) <==> colliders[body1].contains(graph[c].collider1)
                &&& graph[c].body2 == Some(body1) <==> colliders[body1].contains(graph[c].collider2)
                &&& graph[c].body1 == Some(body2) <==> colliders[body2].contains(graph[c].collider1)
                &&& graph[c].body2 == Some(body2) <==> colliders[body2].contains(graph[c].collider2)
            },
    ensures
        forall|c: ContactId| #[trigger]
            contacts_between(graph, colliders, body1, body2).contains(c) <==> graph.contains_key(c)
                && ((graph[c].body1 == Some(body1) && graph[c].body2 == Some(body2)) || (
            graph[c].body1 == Some(body2) && graph[c].body2 == Some(body1))),
{
    contacts_between_bodies(graph, colliders, body1, body2);
}

/// One change is recorded for each contact between two bodies, with the contact and the bodies.
pub proof fn contacts_between_bodies_stop(ids: Seq<ContactId>, body1: Entity, body2: Entity)
    ensures
        stops_between(ids, body1, body2).len() == ids.len(),
        forall|i: int|
            0 <= i < ids.len() ==> #[trigger] stops_between(ids, body1, body2)[i] == (
            ContactStatusChange::StoppedGeneratingConstraints {
                contact_id: ids[i],
                body1,
                body2,
            }),
{
}

} // verus!
