use avian_core::body_colliders::BodyColliders;
use avian_core::contact_graph::{ContactEdge, ContactGraph, PairKey};
use avian_core::entity::{ContactId, Entity, JointId};
use avian_core::joint_graph::{JointGraph, JointGraphEdge};
use avian_core::joints::{
    add_joint_to_graph, change_joint_entities, on_add_joint, on_change_joint_entities,
    on_disable_joint_collision, on_remove_joint, remove_joint_from_graph, ChangedJoint,
    JointComponentId, JointGraphChange,
};
use avian_core::narrow_phase::{
    remove_body, remove_collider, trigger_collision_events, CollisionEvent, CollisionListeners,
    ContactStatusChange,
};

fn e(i: u32) -> Entity {
    Entity::from_raw(i)
}

fn edge(c1: u32, c2: u32, touching: bool) -> ContactEdge {
    ContactEdge {
        id: ContactId(0),
        collider1: e(c1),
        collider2: e(c2),
        body1: Some(e(c1 - 100)),
        body2: Some(e(c2 - 100)),
        is_touching: touching,
        generates_constraints: touching,
        contact_events: true,
        is_sleeping: false,
    }
}

#[test]
fn pair_keys_have_no_order() {
    assert_eq!(PairKey::new(1, 2), PairKey::new(2, 1));
    assert_eq!(PairKey::new(1, 2).0, (1u64 << 32) | 2);
    assert_ne!(PairKey::new(1, 2), PairKey::new(1, 3));
}

#[test]
fn contact_pairs_by_collider() {
    let mut graph = ContactGraph::new();
    let a = graph.add_edge(edge(101, 102, true));
    let b = graph.add_edge(edge(103, 101, false));
    let c = graph.add_edge(edge(102, 103, false));
    assert_eq!((a, b, c), (ContactId(0), ContactId(1), ContactId(2)));
    let ids: Vec<ContactId> = graph.contact_edges_with(e(101)).iter().map(|e| e.id).collect();
    assert_eq!(ids.len(), 2);
    assert!(ids.contains(&a) && ids.contains(&b));
    assert!(graph.contact_edges_with(e(104)).is_empty());
    assert_eq!(graph.get_edge_by_id(b).unwrap().other_collider(e(101)), e(103));
    assert_eq!(graph.get_edge_by_id(b).unwrap().other_body(e(101)), Some(e(3)));
    assert_eq!(graph.remove_edge_by_id(PairKey::new(101, 102), a).unwrap().collider2, e(102));
    assert!(graph.get_edge_by_id(a).is_none());
    assert!(graph.remove_edge_by_id(PairKey::new(101, 102), a).is_none());
}

#[test]
fn removed_collider_ends_its_contacts() {
    let mut graph = ContactGraph::new();
    let touching = graph.add_edge(edge(101, 102, true));
    graph.add_edge(edge(103, 101, false));
    let other = graph.add_edge(edge(102, 103, true));
    let removal = remove_collider(e(101), &mut graph);
    // Only the pair that touched is reported.
    assert_eq!(
        removal.ended,
        vec![CollisionEvent {
            collider1: e(101),
            collider2: e(102),
            body1: Some(e(1)),
            body2: Some(e(2)),
        }]
    );
    assert_eq!(removal.parted, vec![e(102)]);
    assert_eq!(
        removal.changes,
        vec![ContactStatusChange::StoppedGeneratingConstraints {
            contact_id: touching,
            body1: e(1),
            body2: e(2),
        }]
    );
    assert!(graph.contact_edges_with(e(101)).is_empty());
    assert!(graph.get_edge_by_id(other).is_some());
}

#[test]
fn silent_contacts_end_without_an_event() {
    let mut graph = ContactGraph::new();
    graph.add_edge(ContactEdge { contact_events: false, body2: None, ..edge(101, 102, true) });
    let removal = remove_collider(e(102), &mut graph);
    assert!(removal.ended.is_empty());
    assert_eq!(removal.parted, vec![e(101)]);
    assert!(removal.changes.is_empty());
}

#[test]
fn removed_body_takes_its_colliders_along() {
    let mut graph = ContactGraph::new();
    graph.add_edge(edge(101, 102, true));
    graph.add_edge(edge(103, 104, true));
    let kept = graph.add_edge(edge(102, 104, true));
    let mut colliders = BodyColliders::new();
    colliders.insert(e(1), vec![e(101), e(103)]);
    let removal = remove_body(e(1), &colliders, &mut graph);
    assert_eq!(removal.ended.len(), 2);
    assert_eq!(removal.parted, vec![(e(101), e(102)), (e(103), e(104))]);
    assert_eq!(removal.changes.len(), 2);
    assert!(graph.contact_edges_with(e(101)).is_empty());
    assert!(graph.contact_edges_with(e(103)).is_empty());
    assert!(graph.get_edge_by_id(kept).is_some());
    // A body without colliders changes nothing.
    let removal = remove_body(e(9), &colliders, &mut graph);
    assert!(removal.ended.is_empty() && removal.changes.is_empty());
}

#[test]
fn events_are_for_those_who_listen() {
    let mut listeners = CollisionListeners::new();
    listeners.insert(e(101), true);
    listeners.insert(e(102), false);
    listeners.insert(e(103), true);
    let event = |a: u32, b: u32| CollisionEvent {
        collider1: e(a),
        collider2: e(b),
        body1: Some(e(a - 100)),
        body2: None,
    };
    let started = vec![event(101, 102), event(101, 103), event(101, 109)];
    let ended = vec![event(102, 103)];
    let (started, ended) = trigger_collision_events(&started, &ended, &listeners);
    assert_eq!(started, vec![event(101, 102), event(101, 103), event(101, 103).flip()]);
    assert_eq!(
        ended,
        vec![CollisionEvent {
            collider1: e(103),
            collider2: e(102),
            body1: None,
            body2: Some(e(2)),
        }]
    );
    assert_eq!(listeners.get(e(102)), Some(false));
    assert_eq!(listeners.get(e(109)), None);
}

#[test]
fn joints_by_entity_and_body() {
    let mut graph = JointGraph::new();
    let id = graph.add_joint(JointGraphEdge::new(e(50), e(1), e(2), false));
    let other = graph.add_joint(JointGraphEdge::new(e(51), e(2), e(3), true));
    assert_eq!((id, other), (JointId(0), JointId(1)));
    assert_eq!(graph.bodies_of(e(50)), Some((e(1), e(2))));
    assert_eq!(graph.bodies_of(e(52)), None);
    assert!(graph.get(e(51)).unwrap().collision_disabled);
    assert_eq!(graph.joints_of(e(2)).len(), 2);
    assert_eq!(graph.joints_of(e(3)).len(), 1);
    assert_eq!(graph.get_by_id(id).unwrap().entity, e(50));
    assert_eq!(graph.remove_joint(e(50)).unwrap().id, id);
    assert!(graph.remove_joint(e(50)).is_none());
    assert!(graph.get(e(50)).is_none());
}

#[test]
fn entities_hold_one_joint() {
    let mut joint = JointComponentId::new();
    assert_eq!(joint.id(), None);
    assert_eq!(on_add_joint(&mut joint, 4), None);
    // Another kind of joint replaces the first one.
    assert_eq!(on_add_joint(&mut joint, 5), Some(4));
    assert!(!on_remove_joint(&mut joint, 4));
    assert_eq!(joint.id(), Some(5));
    assert!(on_remove_joint(&mut joint, 5));
    assert_eq!(joint.id(), None);
}

#[test]
fn joints_enter_and_leave_the_graph() {
    let mut graph = JointGraph::new();
    let change = add_joint_to_graph(e(50), e(1), e(2), true, &mut graph);
    assert_eq!(change, JointGraphChange::Added(JointId(0)));
    assert!(graph.get(e(50)).unwrap().collision_disabled);
    assert_eq!(
        remove_joint_from_graph(e(50), &mut graph),
        Some(JointGraphChange::Removed(JointId(0)))
    );
    assert_eq!(remove_joint_from_graph(e(50), &mut graph), None);
}

#[test]
fn changed_joints_move() {
    let mut graph = JointGraph::new();
    add_joint_to_graph(e(50), e(1), e(2), true, &mut graph);
    let same = ChangedJoint { entity: e(50), body1: e(1), body2: e(2) };
    assert!(change_joint_entities(same, &mut graph).is_empty());
    let moved = ChangedJoint { entity: e(50), body1: e(1), body2: e(3) };
    let unknown = ChangedJoint { entity: e(60), body1: e(1), body2: e(3) };
    let changes = on_change_joint_entities(&vec![same, unknown, moved], &mut graph);
    assert_eq!(
        changes,
        vec![JointGraphChange::Removed(JointId(0)), JointGraphChange::Added(JointId(0))]
    );
    assert_eq!(graph.bodies_of(e(50)), Some((e(1), e(3))));
    assert!(graph.get(e(50)).unwrap().collision_disabled);
}

#[test]
fn jointed_bodies_stop_colliding() {
    let mut contacts = ContactGraph::new();
    let between = contacts.add_edge(edge(101, 102, true));
    let other = contacts.add_edge(edge(101, 103, true));
    let of_bodies = ContactEdge { collider1: e(2), collider2: e(1), ..edge(101, 102, true) };
    contacts.add_edge(ContactEdge { body1: None, body2: None, ..of_bodies });
    let mut colliders = BodyColliders::new();
    for i in 1..4 {
        colliders.insert(e(i), vec![e(100 + i)]);
    }
    let mut joints = JointGraph::new();
    add_joint_to_graph(e(50), e(1), e(2), true, &mut joints);
    assert!(on_disable_joint_collision(e(60), &colliders, &joints, &mut contacts).is_empty());
    let changes = on_disable_joint_collision(e(50), &colliders, &joints, &mut contacts);
    assert_eq!(
        changes,
        vec![ContactStatusChange::StoppedGeneratingConstraints {
            contact_id: between,
            body1: e(1),
            body2: e(2),
        }]
    );
    assert!(contacts.get_edge_by_id(between).is_none());
    assert!(contacts.get_edge_by_id(other).is_some());
    // The key that is forgotten is that of the bodies.
    assert!(!contacts.contains_key(PairKey::new(1, 2)));
    assert!(contacts.contains_key(PairKey::new(101, 102)));
    assert!(contacts.contains_key(PairKey::new(101, 103)));
}

#[test]
fn removed_bodies_leave_no_keys() {
    let mut contacts = ContactGraph::new();
    contacts.add_edge(edge(101, 102, true));
    contacts.add_edge(edge(102, 103, false));
    contacts.add_edge(edge(103, 104, true));
    assert_eq!(contacts.slot_count(), 3);
    let mut colliders = BodyColliders::new();
    colliders.insert(e(2), vec![e(101), e(102)]);
    remove_body(e(2), &colliders, &mut contacts);
    assert!(!contacts.contains_key(PairKey::new(101, 102)));
    assert!(!contacts.contains_key(PairKey::new(102, 103)));
    assert!(contacts.contains_key(PairKey::new(104, 103)));
    assert_eq!(contacts.slot_count(), 3);
}

#[test]
fn colliders_are_attached_once() {
    let mut colliders = BodyColliders::new();
    for i in [10, 11, 12, 10] {
        colliders.attach(e(1), e(i));
    }
    colliders.attach(e(2), e(20));
    assert_eq!(*colliders.get(e(1)).unwrap(), vec![e(11), e(12), e(10)]);
    colliders.detach(e(1), e(12));
    colliders.detach(e(1), e(99));
    assert_eq!(*colliders.get(e(1)).unwrap(), vec![e(11), e(10)]);
    // A body without colliders is not listed.
    colliders.detach(e(2), e(20));
    assert!(colliders.get(e(2)).is_none());
    colliders.detach(e(3), e(30));
    assert!(colliders.get(e(3)).is_none());
}
