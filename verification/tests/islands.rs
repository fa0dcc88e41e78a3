use avian_core::body_colliders::BodyColliders;
use avian_core::contact_graph::{ContactEdge, ContactGraph};
use avian_core::entity::{ContactId, Entity, JointId};
use avian_core::islands::island::PhysicsIsland;
use avian_core::islands::manager::PhysicsIslands;
use avian_core::islands::node::{BodyIslandNode, BodyIslands, IslandId, IslandNode};
use avian_core::joint_graph::{JointGraph, JointGraphEdge};

struct World {
    islands: PhysicsIslands,
    bodies: BodyIslands,
    colliders: BodyColliders,
    contacts: ContactGraph,
    joints: JointGraph,
}

fn body(i: u32) -> Entity {
    Entity::from_raw(i)
}

fn collider(i: u32) -> Entity {
    Entity::from_raw(100 + i)
}

/// A world with a number of bodies, each with one collider.
fn world(n: u32) -> World {
    let mut world = World {
        islands: PhysicsIslands::new(),
        bodies: BodyIslands::new(),
        colliders: BodyColliders::new(),
        contacts: ContactGraph::new(),
        joints: JointGraph::new(),
    };
    for i in 0..n {
        BodyIslandNode::on_add(body(i), &mut world.islands, &mut world.bodies);
        world.colliders.insert(body(i), vec![collider(i)]);
    }
    world
}

impl World {
    fn contact(&mut self, a: u32, b: u32) -> ContactId {
        let id = self.contacts.add_edge(ContactEdge {
            id: ContactId(0),
            collider1: collider(a),
            collider2: collider(b),
            body1: Some(body(a)),
            body2: Some(body(b)),
            is_touching: true,
            generates_constraints: true,
            contact_events: false,
            is_sleeping: false,
        });
        assert!(self.islands.add_contact(id, &mut self.bodies, &self.contacts).is_some());
        id
    }

    fn joint(&mut self, entity: u32, a: u32, b: u32) -> JointId {
        let edge = JointGraphEdge::new(Entity::from_raw(entity), body(a), body(b), false);
        let id = self.joints.add_joint(edge);
        assert!(self.islands.add_joint(id, &mut self.bodies, &self.joints).is_some());
        id
    }

    fn island(&self, i: u32) -> IslandId {
        self.bodies.get(body(i)).unwrap().0.island_id
    }

    fn split(&mut self, island: IslandId) {
        self.islands.split_island(
            island,
            &mut self.bodies,
            &self.colliders,
            &self.contacts,
            &self.joints,
        );
    }

    fn valid(&self) -> bool {
        self.islands.iter().iter().all(|island| {
            island.validate(&self.bodies, self.islands.contact_nodes(), self.islands.joint_nodes())
        })
    }
}

#[test]
fn no_islands() {
    let islands = PhysicsIslands::new();
    assert!(islands.is_empty());
    assert_eq!(islands.len(), 0);
    assert_eq!(islands.next_id(), IslandId(0));
    assert_eq!(islands.split_candidate(), None);
    assert!(islands.get(IslandId(0)).is_none());
    assert!(islands.iter().is_empty());
}

#[test]
fn each_body_starts_in_its_own_island() {
    let w = world(3);
    assert_eq!(w.islands.len(), 3);
    for i in 0..3 {
        assert_eq!(w.island(i), IslandId(i));
        let island = w.islands.get(IslandId(i)).unwrap();
        assert_eq!(island.id(), IslandId(i));
        assert_eq!(island.body_count(), 1);
        assert_eq!(island.contact_count(), 0);
        assert_eq!(island.joint_count(), 0);
        assert_eq!(island.constraints_removed(), 0);
        assert!(!island.is_sleeping());
        assert_eq!(island.head_body, Some(body(i)));
        assert_eq!(island.tail_body, Some(body(i)));
    }
    assert!(w.valid());
}

#[test]
fn created_island_is_set_up_first() {
    let mut islands = PhysicsIslands::new();
    let id = islands.create_island_with(|island: &mut PhysicsIsland| island.sleep_timer = 5);
    assert_eq!(id, IslandId(0));
    assert_eq!(islands.get(id).unwrap().sleep_timer, 5);
    islands.get_mut(id).unwrap().is_sleeping = true;
    assert!(islands.get(id).unwrap().is_sleeping());
    assert!(islands.get_mut(IslandId(9)).is_none());
    assert_eq!(islands.remove_island(id).sleep_timer, 5);
    assert!(islands.is_empty());
}

#[test]
fn identifiers_are_used_again() {
    let mut islands = PhysicsIslands::new();
    let a = islands.create_island_with(|_: &mut PhysicsIsland| {});
    let b = islands.create_island_with(|_: &mut PhysicsIsland| {});
    assert_eq!((a, b), (IslandId(0), IslandId(1)));
    islands.remove_island(a);
    assert_eq!(islands.next_id(), a);
    assert_eq!(islands.create_island_with(|_: &mut PhysicsIsland| {}), a);
}

#[test]
fn removing_the_candidate_forgets_it() {
    let mut islands = PhysicsIslands::new();
    let a = islands.create_island_with(|_: &mut PhysicsIsland| {});
    islands.set_split_candidate(Some(a), 7);
    assert_eq!(islands.split_candidate(), Some(a));
    assert_eq!(islands.split_candidate_sleep_timer(), 7);
    islands.remove_island_if_empty(a);
    assert_eq!(islands.split_candidate(), None);
    // There is no such island any more.
    islands.remove_island_if_empty(a);
    assert!(islands.is_empty());
}

#[test]
fn islands_with_members_are_kept() {
    let mut w = world(1);
    w.islands.remove_island_if_empty(IslandId(0));
    assert_eq!(w.islands.len(), 1);
}

#[test]
fn contact_merges_islands() {
    let mut w = world(3);
    let id = w.contact(0, 1);
    assert_eq!(w.islands.len(), 2);
    assert_eq!(w.island(0), w.island(1));
    assert_ne!(w.island(0), w.island(2));
    let island = w.islands.get(w.island(0)).unwrap();
    assert_eq!(island.body_count(), 2);
    assert_eq!(island.contact_count(), 1);
    assert_eq!(w.islands.contact_node(id).unwrap().island_id(), w.island(0));
    assert!(w.islands.contact_node(ContactId(5)).is_none());
    assert!(w.valid());
}

#[test]
fn smaller_island_is_absorbed() {
    let mut w = world(3);
    w.contact(1, 2);
    let large = w.island(1);
    // The first body is alone, so its island is the one that goes.
    w.contact(0, 1);
    assert_eq!(w.island(0), large);
    let island = w.islands.get(large).unwrap();
    assert_eq!(island.body_count(), 3);
    assert_eq!(island.contact_count(), 2);
    assert_eq!(w.islands.len(), 1);
    assert!(w.valid());
}

#[test]
fn merging_one_island_with_itself_changes_nothing() {
    let mut w = world(2);
    w.contact(0, 1);
    let before = w.islands.iter();
    let id = w.islands.merge_islands(body(0), body(1), &mut w.bodies);
    assert_eq!(id, w.island(0));
    assert_eq!(w.islands.iter(), before);
}

#[test]
fn merging_one_island_with_itself_keeps_the_marks() {
    let mut w = world(3);
    w.contact(0, 1);
    let bridge = w.contact(1, 2);
    let id = w.island(0);
    w.islands.remove_contact(bridge, &w.bodies);
    w.split(id);
    let before = w.bodies.get(body(0)).unwrap().0;
    assert!(before.is_visited);
    w.islands.merge_islands(body(0), body(1), &mut w.bodies);
    assert_eq!(w.bodies.get(body(0)).unwrap().0, before);
}

#[test]
fn merging_with_a_fixed_body_changes_nothing() {
    let mut w = world(1);
    // The other body has no island.
    assert_eq!(w.islands.merge_islands(body(0), body(7), &mut w.bodies), IslandId(0));
    assert_eq!(w.islands.merge_islands(body(7), body(0), &mut w.bodies), IslandId(0));
    assert_eq!(w.islands.len(), 1);
}

#[test]
fn merged_island_sleeps_if_the_absorbed_one_does() {
    let mut w = world(2);
    w.islands.get_mut(IslandId(1)).unwrap().is_sleeping = true;
    let kept = w.islands.merge_islands(body(0), body(1), &mut w.bodies);
    assert!(w.islands.get(kept).unwrap().is_sleeping());
}

#[test]
fn contact_without_a_body_is_in_no_island() {
    let mut w = world(1);
    let id = w.contacts.add_edge(ContactEdge {
        id: ContactId(0),
        collider1: collider(0),
        collider2: collider(9),
        body1: Some(body(0)),
        body2: None,
        is_touching: true,
        generates_constraints: false,
        contact_events: false,
        is_sleeping: false,
    });
    assert!(w.islands.add_contact(id, &mut w.bodies, &w.contacts).is_none());
    assert!(w.islands.contact_node(id).is_none());
}

#[test]
fn joint_merges_islands() {
    let mut w = world(2);
    let id = w.joint(50, 0, 1);
    assert_eq!(w.island(0), w.island(1));
    let island = w.islands.get(w.island(0)).unwrap();
    assert_eq!(island.joint_count(), 1);
    assert_eq!(w.islands.joint_node(id).unwrap().island_id(), w.island(0));
    assert!(w.valid());
}

#[test]
fn removing_a_contact_counts_it() {
    let mut w = world(2);
    let id = w.contact(0, 1);
    let island = w.islands.remove_contact(id, &w.bodies);
    assert_eq!(island.contact_count(), 0);
    assert_eq!(island.constraints_removed(), 1);
    assert_eq!(island.body_count(), 2);
    assert!(w.islands.contact_node(id).is_none());
    // The bodies stay together until the island is split.
    assert_eq!(w.island(0), w.island(1));
    assert!(w.valid());
}

#[test]
fn removing_undoes_adding_a_contact() {
    let mut w = world(3);
    w.contact(0, 1);
    let nodes = [w.bodies.get(body(0)), w.bodies.get(body(1)), w.bodies.get(body(2))];
    let before = w.islands.iter();
    let id = w.contact(1, 0);
    w.islands.remove_contact(id, &w.bodies);
    let mut after = w.islands.iter();
    let k = w.islands.iter().iter().position(|i| i.id() == w.island(0)).unwrap();
    assert_eq!(after[k].constraints_removed, before[k].constraints_removed + 1);
    after[k].constraints_removed = before[k].constraints_removed;
    assert_eq!(after, before);
    assert_eq!(nodes, [w.bodies.get(body(0)), w.bodies.get(body(1)), w.bodies.get(body(2))]);
}

#[test]
fn removing_a_joint_counts_it() {
    let mut w = world(2);
    let id = w.joint(50, 0, 1);
    let island = w.islands.remove_joint(id, &w.bodies).unwrap();
    assert_eq!(island.joint_count(), 0);
    assert_eq!(island.constraints_removed(), 1);
    assert!(w.islands.joint_node(id).is_none());
    assert!(w.valid());
}

#[test]
fn removing_members_from_the_middle() {
    let mut w = world(4);
    let ids = [w.contact(0, 1), w.contact(1, 2), w.contact(2, 3)];
    w.islands.remove_contact(ids[1], &w.bodies);
    assert!(w.valid());
    w.islands.remove_contact(ids[0], &w.bodies);
    assert!(w.valid());
    let island = w.islands.remove_contact(ids[2], &w.bodies);
    assert_eq!(island.contact_count(), 0);
    assert_eq!(island.head_contact, None);
    assert_eq!(island.tail_contact, None);
    assert_eq!(island.constraints_removed(), 3);
}

#[test]
fn removed_body_leaves_its_island() {
    let mut w = world(2);
    w.contact(0, 1);
    let id = w.island(0);
    BodyIslandNode::on_remove(body(0), &mut w.islands, &mut w.bodies);
    assert!(w.bodies.get(body(0)).is_none());
    assert_eq!(w.islands.get(id).unwrap().body_count(), 1);
    // The contact is still to be removed, so the island outlives its last body.
    BodyIslandNode::on_remove(body(1), &mut w.islands, &mut w.bodies);
    assert_eq!(w.islands.get(id).unwrap().body_count(), 0);
    assert_eq!(w.islands.len(), 1);
    w.islands.remove_contact(ContactId(0), &w.bodies);
    w.islands.remove_island_if_empty(id);
    assert!(w.islands.is_empty());
}

#[test]
fn removing_undoes_adding_a_body() {
    let mut w = world(2);
    let before = w.islands.iter();
    BodyIslandNode::on_add(body(5), &mut w.islands, &mut w.bodies);
    assert_eq!(w.islands.len(), 3);
    BodyIslandNode::on_remove(body(5), &mut w.islands, &mut w.bodies);
    assert_eq!(w.islands.iter(), before);
    assert!(w.bodies.get(body(5)).is_none());
}

#[test]
fn split_separates_what_does_not_hang_together() {
    let mut w = world(4);
    w.contact(0, 1);
    let bridge = w.contact(1, 2);
    w.joint(50, 2, 3);
    assert_eq!(w.islands.len(), 1);
    let id = w.island(0);
    w.islands.remove_contact(bridge, &w.bodies);
    w.contacts.remove_edge_by_id(
        avian_core::contact_graph::PairKey::new(101, 102),
        bridge,
    );
    w.split(id);
    assert_eq!(w.islands.len(), 2);
    assert_eq!(w.island(0), w.island(1));
    assert_eq!(w.island(2), w.island(3));
    assert_ne!(w.island(0), w.island(2));
    let (a, b) = (w.islands.get(w.island(0)).unwrap(), w.islands.get(w.island(2)).unwrap());
    assert_eq!((a.body_count(), a.contact_count(), a.joint_count()), (2, 1, 0));
    assert_eq!((b.body_count(), b.contact_count(), b.joint_count()), (2, 0, 1));
    assert_eq!(a.constraints_removed(), 0);
    assert_eq!(b.constraints_removed(), 0);
    assert!(w.valid());
}

#[test]
fn split_reads_one_island_only() {
    // A joint of another island is left without bodies.
    let mut w = world(4);
    let left = w.joint(50, 0, 1);
    let joint = w.joint(51, 2, 3);
    for i in 0..2 {
        BodyIslandNode::on_remove(body(i), &mut w.islands, &mut w.bodies);
    }
    w.islands.remove_joint(joint, &w.bodies);
    w.joints.remove_joint(Entity::from_raw(51));
    let id = w.island(2);
    let left_in = w.islands.joint_node(left).unwrap().island_id;
    assert!(!w.islands.is_splittable(left_in, &w.bodies, &w.colliders, &w.contacts, &w.joints));
    assert!(w.islands.is_splittable(id, &w.bodies, &w.colliders, &w.contacts, &w.joints));
    w.split(id);
    assert_ne!(w.island(2), w.island(3));
    assert_eq!(w.islands.joint_node(left).unwrap().island_id, left_in);
    assert!(w.valid());
}

#[test]
fn split_is_tried() {
    let mut w = world(3);
    w.contact(0, 1);
    let bridge = w.contact(1, 2);
    let id = w.island(0);
    let try_split = |w: &mut World, id: IslandId| {
        w.islands.try_split_island(id, &mut w.bodies, &w.colliders, &w.contacts, &w.joints)
    };
    // There is nothing to split yet.
    assert!(try_split(&mut w, id));
    assert_eq!(w.islands.len(), 1);
    assert!(!try_split(&mut w, IslandId(9)));
    w.islands.remove_contact(bridge, &w.bodies);
    // A contact that is linked, but gone from the graph.
    let contacts = std::mem::replace(&mut w.contacts, ContactGraph::new());
    assert!(!try_split(&mut w, id));
    w.contacts = contacts;
    // A contact that is not found through the collider of its body.
    w.colliders.insert(body(0), vec![]);
    assert!(!try_split(&mut w, id));
    // A collider that is listed twice.
    w.colliders.insert(body(0), vec![collider(0), collider(0)]);
    assert!(!try_split(&mut w, id));
    // A collider that two bodies list.
    w.colliders.insert(body(0), vec![collider(0), collider(1)]);
    assert!(!try_split(&mut w, id));
    assert_eq!(w.islands.len(), 1);
    assert_eq!(w.islands.get(id).unwrap().constraints_removed(), 1);
    w.colliders.insert(body(0), vec![collider(0)]);
    assert!(try_split(&mut w, id));
    assert_eq!(w.islands.len(), 2);
    assert_eq!(w.island(0), w.island(1));
    assert_ne!(w.island(0), w.island(2));
    assert!(w.islands.slot_count() <= 6);
    assert!(w.valid());
}

#[test]
fn body_that_joins_late_stops_a_split() {
    // A contact is linked to the island of one body; the other body gets an island later.
    let mut w = world(2);
    let id = w.contacts.add_edge(ContactEdge {
        id: ContactId(0),
        collider1: collider(0),
        collider2: collider(2),
        body1: Some(body(0)),
        body2: Some(body(2)),
        is_touching: true,
        generates_constraints: true,
        contact_events: false,
        is_sleeping: false,
    });
    assert!(w.islands.add_contact(id, &mut w.bodies, &w.contacts).is_some());
    w.colliders.insert(body(2), vec![collider(2)]);
    let splittable = |w: &World, island: IslandId| {
        w.islands.is_splittable(island, &w.bodies, &w.colliders, &w.contacts, &w.joints)
    };
    assert!(splittable(&w, w.island(0)));
    BodyIslandNode::on_add(body(2), &mut w.islands, &mut w.bodies);
    assert!(!splittable(&w, w.island(0)));
    assert!(!splittable(&w, w.island(2)));
    assert!(splittable(&w, w.island(1)));
}

#[test]
fn split_keeps_counts() {
    let mut w = world(6);
    for i in 0..3 {
        w.contact(i, i + 1);
    }
    w.joint(50, 4, 5);
    let bridge = w.joint(51, 3, 4);
    let id = w.island(0);
    w.islands.remove_joint(bridge, &w.bodies);
    w.joints.remove_joint(Entity::from_raw(51));
    let counts = |island: &PhysicsIsland| {
        [island.body_count(), island.contact_count(), island.joint_count()]
    };
    let before = counts(w.islands.get(id).unwrap());
    assert_eq!(before, [6, 3, 1]);
    w.split(id);
    let parts = w.islands.iter();
    assert_eq!(parts.len(), 2);
    for i in 0..3 {
        assert_eq!(parts.iter().map(|part| counts(part)[i]).sum::<u32>(), before[i]);
    }
}

#[test]
fn split_keeps_what_hangs_together() {
    let mut w = world(3);
    w.contact(0, 1);
    w.contact(1, 2);
    let extra = w.contact(2, 0);
    let id = w.island(0);
    w.islands.remove_contact(extra, &w.bodies);
    w.contacts.remove_edge_by_id(
        avian_core::contact_graph::PairKey::new(100, 102),
        extra,
    );
    w.split(id);
    assert_eq!(w.islands.len(), 1);
    assert_eq!(w.islands.get(w.island(0)).unwrap().body_count(), 3);
    assert_eq!(w.islands.get(w.island(0)).unwrap().contact_count(), 2);
    assert!(w.valid());
}

#[test]
fn split_needs_removed_constraints() {
    let mut w = world(2);
    w.contact(0, 1);
    let before = w.islands.iter();
    w.split(w.island(0));
    assert_eq!(w.islands.iter(), before);
}

#[test]
fn sleeping_islands_are_not_split() {
    let mut w = world(2);
    let contact = w.contact(0, 1);
    let id = w.island(0);
    w.islands.remove_contact(contact, &w.bodies);
    w.islands.get_mut(id).unwrap().is_sleeping = true;
    w.split(id);
    assert_eq!(w.islands.len(), 1);
}

#[test]
fn only_the_candidate_is_split() {
    let mut w = world(4);
    let (a, b) = (w.contact(0, 1), w.contact(2, 3));
    w.islands.remove_contact(a, &w.bodies);
    w.islands.remove_contact(b, &w.bodies);
    w.contacts = ContactGraph::new();
    w.islands.set_split_candidate(Some(w.island(2)), 0);
    w.islands.split_candidate_island(&mut w.bodies, &w.colliders, &w.contacts, &w.joints);
    assert_eq!(w.islands.len(), 3);
    assert_eq!(w.island(0), w.island(1));
    assert_ne!(w.island(2), w.island(3));
    assert_eq!(w.islands.split_candidate(), None);
    // There is nothing left to split.
    w.islands.split_candidate_island(&mut w.bodies, &w.colliders, &w.contacts, &w.joints);
    assert_eq!(w.islands.len(), 3);
    assert!(w.valid());
}

#[test]
fn damaged_islands_are_not_valid() {
    let mut w = world(2);
    w.contact(0, 1);
    let id = w.island(0);
    assert!(w.valid());
    let island = w.islands.get_mut(id).unwrap();
    island.body_count = 3;
    assert!(!w.islands.get(id).unwrap().validate_bodies(&w.bodies));
    w.islands.get_mut(id).unwrap().body_count = 2;
    w.islands.get_mut(id).unwrap().head_contact = None;
    assert!(!w.islands.get(id).unwrap().validate_contacts(w.islands.contact_nodes()));
    w.islands.get_mut(id).unwrap().joint_count = 1;
    assert!(!w.islands.get(id).unwrap().validate_joints(w.islands.joint_nodes()));
    assert!(!w.valid());
}

#[test]
fn nodes_start_unlinked() {
    let node = IslandNode::<Entity>::new(IslandId(3));
    assert_eq!(node.island_id(), IslandId(3));
    assert_eq!((node.prev, node.next, node.is_visited), (None, None, false));
    assert_eq!(IslandNode::<Entity>::default().island_id(), IslandId::placeholder());
    assert_eq!(IslandNode::<Entity>::placeholder(), IslandNode::default());
    assert_eq!(BodyIslandNode::default().0.island_id(), IslandId(u32::MAX));
    assert_eq!(BodyIslandNode::new(IslandId(2)).0, IslandNode::new(IslandId(2)));
}

#[test]
fn identifiers_as_text() {
    assert_eq!(IslandId(0).label(), "IslandId(0)");
    assert_eq!(IslandId(7).label(), "IslandId(7)");
    assert_eq!(IslandId(1203).label(), "IslandId(1203)");
    assert_eq!(IslandId::placeholder().label(), "IslandId(4294967295)");
}

#[test]
fn long_chain_is_merged_and_split() {
    let mut w = world(20);
    let ids: Vec<ContactId> = (0..19).map(|i| w.contact(i, i + 1)).collect();
    assert_eq!(w.islands.len(), 1);
    let id = w.island(0);
    // Every other link breaks.
    for (i, contact) in ids.iter().enumerate() {
        if i % 2 == 1 {
            w.islands.remove_contact(*contact, &w.bodies);
            let (a, b) = (100 + i as u32, 101 + i as u32);
            w.contacts.remove_edge_by_id(avian_core::contact_graph::PairKey::new(a, b), *contact);
        }
    }
    assert_eq!(w.islands.get(id).unwrap().constraints_removed(), 9);
    w.split(id);
    assert_eq!(w.islands.len(), 10);
    for i in 0..10 {
        assert_eq!(w.island(2 * i), w.island(2 * i + 1));
        assert_eq!(w.islands.get(w.island(2 * i)).unwrap().body_count(), 2);
    }
    assert!(w.valid());
}

#[test]
fn removing_undoes_adding_a_joint() {
    let mut w = world(3);
    w.joint(50, 0, 1);
    let before = w.islands.iter();
    let id = w.joint(51, 1, 0);
    w.islands.remove_joint(id, &w.bodies);
    let mut after = w.islands.iter();
    let k = after.iter().position(|i| i.id() == w.island(0)).unwrap();
    after[k].constraints_removed = before[k].constraints_removed;
    assert_eq!(after, before);
}

#[test]
fn constraints_are_in_the_island_of_their_bodies() {
    let mut w = world(6);
    let contacts = [(0, 1), (2, 3), (1, 2)].map(|(a, b)| (w.contact(a, b), a, b));
    let joints = [(3, 4), (4, 5)].map(|(a, b)| (w.joint(50 + a, a, b), a, b));
    let fits = |w: &World| {
        contacts.iter().all(|&(id, a, b)| match w.islands.contact_node(id) {
            Some(node) => node.island_id() == w.island(a) && node.island_id() == w.island(b),
            None => true,
        }) && joints.iter().all(|&(id, a, b)| match w.islands.joint_node(id) {
            Some(node) => node.island_id() == w.island(a) && node.island_id() == w.island(b),
            None => true,
        })
    };
    assert!(fits(&w));
    let id = w.island(0);
    w.islands.remove_contact(contacts[2].0, &w.bodies);
    w.contacts.remove_edge_by_id(
        avian_core::contact_graph::PairKey::new(101, 102),
        contacts[2].0,
    );
    assert!(fits(&w));
    w.split(id);
    assert!(fits(&w));
    assert_eq!(w.islands.len(), 2);
    assert_eq!(w.islands.get(w.island(5)).unwrap().body_count(), 4);
    assert!(w.islands.iter().iter().all(|island| island.constraints_removed() == 0));
}

#[test]
fn every_body_is_in_one_island() {
    let mut w = world(5);
    w.contact(0, 1);
    w.contact(3, 4);
    let count: u32 = w.islands.iter().iter().map(|island| island.body_count()).sum();
    assert_eq!(count, 5);
    for i in 0..5 {
        assert!(w.islands.get(w.island(i)).is_some());
    }
}

#[test]
fn merged_counters_add_up() {
    let mut w = world(4);
    let (a, b) = (w.contact(0, 1), w.contact(2, 3));
    w.islands.remove_contact(a, &w.bodies);
    w.islands.remove_contact(b, &w.bodies);
    w.islands.get_mut(w.island(0)).unwrap().sleep_timer = 1;
    w.islands.get_mut(w.island(2)).unwrap().sleep_timer = 9;
    w.islands.get_mut(w.island(2)).unwrap().is_sleeping = true;
    w.islands.set_split_candidate(Some(w.island(2)), 9);
    let kept = w.islands.merge_islands(body(0), body(2), &mut w.bodies);
    let island = w.islands.get(kept).unwrap();
    assert_eq!(kept, w.island(0));
    assert_eq!(island.constraints_removed(), 2);
    assert_eq!(island.sleep_timer, 9);
    assert!(island.is_sleeping());
    // The island that was to be split is gone.
    assert_eq!(w.islands.split_candidate(), None);
}

#[test]
fn merged_island_keeps_the_larger_timer() {
    for (kept, absorbed, expected) in
        [(1.0f32, -5.0f32, 1.0), (-5.0, 1.0, 1.0), (-5.0, -2.0, -2.0), (f32::NAN, 2.0, 2.0)]
    {
        let mut w = world(2);
        w.islands.get_mut(w.island(0)).unwrap().sleep_timer = kept.to_bits();
        w.islands.get_mut(w.island(1)).unwrap().sleep_timer = absorbed.to_bits();
        w.islands.get_mut(w.island(1)).unwrap().is_sleeping = true;
        let id = w.islands.merge_islands(body(0), body(1), &mut w.bodies);
        assert_eq!(f32::from_bits(w.islands.get(id).unwrap().sleep_timer), expected);
    }
}
