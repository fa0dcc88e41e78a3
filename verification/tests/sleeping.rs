use avian_core::body_colliders::BodyColliders;
use avian_core::contact_graph::{ContactEdge, ContactGraph, PairKey};
use avian_core::entity::{ContactId, Entity};
use avian_core::islands::manager::PhysicsIslands;
use avian_core::islands::node::{BodyIslandNode, BodyIslands, IslandId};
use avian_core::islands::sleeping::{
    sleep_islands, sleep_on_add_sleeping, update_sleeping_states, wake_all_islands,
    wake_islands_with_sleeping_disabled, wake_on_changed, wake_on_enable_rigid_body,
    wake_on_remove_sleeping, wake_on_replace_rigid_body, AwakeIslandBitVec, BodyChange,
    BodyCommandError, SleepBody, SleepCandidate, SleepIslands, WakeBody, WakeIslands,
};
use avian_core::joint_graph::JointGraph;
use avian_core::ticks::ComponentChange;

struct World {
    islands: PhysicsIslands,
    bodies: BodyIslands,
    colliders: BodyColliders,
    contacts: ContactGraph,
    joints: JointGraph,
}

fn body(i: u32) -> Entity {
    Entity::from_raw(i)
}

fn collider(i: u32) -> Entity {
    Entity::from_raw(100 + i)
}

fn world(n: u32) -> World {
    let mut world = World {
        islands: PhysicsIslands::new(),
        bodies: BodyIslands::new(),
        colliders: BodyColliders::new(),
        contacts: ContactGraph::new(),
        joints: JointGraph::new(),
    };
    for i in 0..n {
        BodyIslandNode::on_add(body(i), &mut world.islands, &mut world.bodies);
        world.colliders.insert(body(i), vec![collider(i)]);
    }
    world
}

impl World {
    fn pair(&mut self, a: u32, b: u32) -> ContactId {
        self.contacts.add_edge(ContactEdge {
            id: ContactId(0),
            collider1: collider(a),
            collider2: collider(b),
            body1: Some(body(a)),
            body2: Some(body(b)),
            is_touching: true,
            generates_constraints: true,
            contact_events: false,
            is_sleeping: false,
        })
    }

    fn contact(&mut self, a: u32, b: u32) -> ContactId {
        let id = self.pair(a, b);
        self.islands.add_contact(id, &mut self.bodies, &self.contacts);
        id
    }

    fn island(&self, i: u32) -> IslandId {
        self.bodies.get(body(i)).unwrap().0.island_id
    }

    fn sleeps(&self, i: u32) -> bool {
        self.islands.get(self.island(i)).unwrap().is_sleeping()
    }

    fn pair_sleeps(&self, id: ContactId) -> bool {
        self.contacts.get_edge_by_id(id).unwrap().is_sleeping
    }

    fn sleep(&mut self, ids: Vec<IslandId>) -> Vec<Entity> {
        SleepIslands(ids)
            .apply(&mut self.islands, &self.bodies, &self.colliders, &mut self.contacts)
            .bodies
    }

    fn wake(&mut self, ids: Vec<IslandId>) -> Vec<Entity> {
        WakeIslands(ids)
            .apply(&mut self.islands, &self.bodies, &self.colliders, &mut self.contacts)
            .bodies
    }
}

#[test]
fn islands_sleep_as_a_whole() {
    let mut w = world(3);
    let id = w.contact(0, 1);
    let mut bodies = w.sleep(vec![w.island(0)]);
    bodies.sort_by_key(|b| b.index_u32());
    assert_eq!(bodies, vec![body(0), body(1)]);
    assert!(w.sleeps(0) && w.sleeps(1) && !w.sleeps(2));
    assert!(w.pair_sleeps(id));
}

#[test]
fn sleeping_twice_changes_nothing() {
    let mut w = world(2);
    w.contact(0, 1);
    w.sleep(vec![w.island(0)]);
    assert!(w.sleep(vec![w.island(0)]).is_empty());
    assert!(w.sleeps(0));
}

#[test]
fn islands_that_do_not_exist_are_passed_over() {
    let mut w = world(1);
    assert!(w.sleep(vec![IslandId(9)]).is_empty());
    assert!(w.wake(vec![IslandId(9)]).is_empty());
    assert!(!w.sleeps(0));
}

#[test]
fn waking_undoes_sleeping() {
    let mut w = world(2);
    let id = w.contact(0, 1);
    let before = w.islands.iter();
    w.sleep(vec![w.island(0)]);
    let mut bodies = w.wake(vec![w.island(0)]);
    bodies.sort_by_key(|b| b.index_u32());
    assert_eq!(bodies, vec![body(0), body(1)]);
    assert_eq!(w.islands.iter(), before);
    assert!(!w.pair_sleeps(id));
}

#[test]
fn pairs_sleep_once_both_bodies_do() {
    let mut w = world(2);
    // The bodies are in different islands.
    let id = w.pair(0, 1);
    w.sleep(vec![w.island(0)]);
    assert!(!w.pair_sleeps(id));
    w.sleep(vec![w.island(1)]);
    assert!(w.pair_sleeps(id));
    // One body is enough to wake the pair up.
    w.wake(vec![w.island(1)]);
    assert!(!w.pair_sleeps(id));
}

#[test]
fn pairs_with_fixed_bodies_sleep_with_the_other_body() {
    let mut w = world(1);
    w.colliders.insert(body(1), vec![collider(1)]);
    let id = w.pair(0, 1);
    w.sleep(vec![w.island(0)]);
    assert!(w.pair_sleeps(id));
}

#[test]
fn sleep_body_command() {
    let mut w = world(2);
    w.contact(0, 1);
    let outcome = SleepBody(body(1))
        .apply(true, &mut w.islands, &mut w.bodies, &w.colliders, &mut w.contacts, &w.joints)
        .unwrap();
    assert_eq!(outcome.bodies.len(), 2);
    assert_eq!(outcome.contacts.len(), 1);
    assert!(w.sleeps(0));
}

#[test]
fn sleep_body_command_splits_first() {
    let mut w = world(2);
    let contact = w.contact(0, 1);
    w.islands.remove_contact(contact, &w.bodies);
    w.contacts.remove_edge_by_id(PairKey::new(100, 101), contact);
    let outcome = SleepBody(body(0))
        .apply(true, &mut w.islands, &mut w.bodies, &w.colliders, &mut w.contacts, &w.joints)
        .unwrap();
    assert_eq!(outcome.bodies, vec![body(0)]);
    assert_ne!(w.island(0), w.island(1));
    assert!(w.sleeps(0) && !w.sleeps(1));
}

#[test]
fn sleep_body_command_keeps_the_candidate_unless_it_is_split() {
    let mut w = world(3);
    let contact = w.contact(0, 1);
    w.islands.remove_contact(contact, &w.bodies);
    w.contacts.remove_edge_by_id(PairKey::new(100, 101), contact);
    w.islands.set_split_candidate(Some(w.island(0)), 7);
    let sleep = |w: &mut World, i: u32| {
        SleepBody(body(i))
            .apply(true, &mut w.islands, &mut w.bodies, &w.colliders, &mut w.contacts, &w.joints)
            .unwrap();
    };
    sleep(&mut w, 2);
    assert_eq!(w.islands.split_candidate(), Some(w.island(0)));
    sleep(&mut w, 0);
    assert_eq!(w.islands.split_candidate(), None);
    assert_eq!(w.islands.split_candidate_sleep_timer(), 7);
}

#[test]
fn commands_need_an_entity() {
    let mut w = world(1);
    assert_eq!(
        SleepBody(body(0))
            .apply(false, &mut w.islands, &mut w.bodies, &w.colliders, &mut w.contacts, &w.joints)
            .err(),
        Some(BodyCommandError::NoEntity)
    );
    assert_eq!(
        WakeBody(body(0))
            .apply(false, &mut w.islands, &w.bodies, &w.colliders, &mut w.contacts)
            .err(),
        Some(BodyCommandError::NoEntity)
    );
}

#[test]
fn commands_need_an_island() {
    let mut w = world(1);
    assert_eq!(
        SleepBody(body(7))
            .apply(true, &mut w.islands, &mut w.bodies, &w.colliders, &mut w.contacts, &w.joints)
            .err(),
        Some(BodyCommandError::NoIsland)
    );
    assert_eq!(
        WakeBody(body(7))
            .apply(true, &mut w.islands, &w.bodies, &w.colliders, &mut w.contacts)
            .err(),
        Some(BodyCommandError::NoIsland)
    );
}

#[test]
fn wake_body_command() {
    let mut w = world(2);
    w.contact(0, 1);
    w.sleep(vec![w.island(0)]);
    let outcome = WakeBody(body(1))
        .apply(true, &mut w.islands, &w.bodies, &w.colliders, &mut w.contacts)
        .unwrap();
    assert_eq!(outcome.bodies.len(), 2);
    assert!(!w.sleeps(0));
    // An island that is awake stays so.
    let outcome = WakeBody(body(1))
        .apply(true, &mut w.islands, &w.bodies, &w.colliders, &mut w.contacts)
        .unwrap();
    assert!(outcome.bodies.is_empty());
}

#[test]
fn marking_bodies_asks_for_commands() {
    let mut w = world(1);
    assert_eq!(
        sleep_on_add_sleeping(body(0), Some(&w.islands), &w.bodies),
        Some(SleepBody(body(0)))
    );
    assert_eq!(wake_on_remove_sleeping(body(0), Some(&w.islands), &w.bodies), None);
    w.sleep(vec![IslandId(0)]);
    assert_eq!(sleep_on_add_sleeping(body(0), Some(&w.islands), &w.bodies), None);
    assert_eq!(
        wake_on_remove_sleeping(body(0), Some(&w.islands), &w.bodies),
        Some(WakeBody(body(0)))
    );
    assert_eq!(sleep_on_add_sleeping(body(9), Some(&w.islands), &w.bodies), None);
    assert_eq!(sleep_on_add_sleeping(body(0), None, &w.bodies), Some(SleepBody(body(0))));
    assert_eq!(wake_on_replace_rigid_body(body(0), &w.bodies).unwrap().0, vec![IslandId(0)]);
    assert!(wake_on_replace_rigid_body(body(9), &w.bodies).is_none());
}

#[test]
fn enabled_bodies_wake_their_island() {
    let outcome = wake_on_enable_rigid_body(IslandId(4), 1.5f32.to_bits(), true);
    assert!(outcome.remove_sleeping);
    assert_eq!(outcome.sleep_timer, 0);
    assert_eq!(outcome.wake.unwrap().0, vec![IslandId(4)]);
    let outcome = wake_on_enable_rigid_body(IslandId(4), 0, false);
    assert!(!outcome.remove_sleeping);
    assert!(outcome.wake.is_none());
    // A timer that is not running is left alone.
    for timer in [-5.0f32, -0.0, f32::NAN] {
        let outcome = wake_on_enable_rigid_body(IslandId(4), timer.to_bits(), false);
        assert!(outcome.wake.is_none());
        assert_eq!(outcome.sleep_timer, timer.to_bits());
    }
}

#[test]
fn negative_timers_choose_no_candidate() {
    let mut w = world(2);
    for i in 0..2 {
        w.islands.get_mut(IslandId(i)).unwrap().constraints_removed = 1;
    }
    let mut awake = AwakeIslandBitVec::new();
    let bodies = vec![candidate(0, -5.0, true), candidate(1, -0.0, true)];
    update_sleeping_states(&mut awake, &mut w.islands, &bodies);
    assert_eq!(w.islands.split_candidate(), None);
    let bodies = vec![candidate(0, 0.25, true), candidate(1, -5.0, true)];
    update_sleeping_states(&mut awake, &mut w.islands, &bodies);
    assert_eq!(w.islands.split_candidate(), Some(IslandId(0)));
}

fn candidate(island: u32, timer: f32, wants_sleep: bool) -> SleepCandidate {
    SleepCandidate { island_id: IslandId(island), sleep_timer: timer.to_bits(), wants_sleep }
}

#[test]
fn one_restless_body_keeps_its_island_awake() {
    let mut w = world(3);
    let mut awake = AwakeIslandBitVec::new();
    let bodies =
        vec![candidate(0, 1.0, true), candidate(0, 0.0, false), candidate(1, 1.0, true)];
    update_sleeping_states(&mut awake, &mut w.islands, &bodies);
    assert!(awake.0.get(0));
    assert!(!awake.0.get(1));
    assert_eq!(w.islands.split_candidate(), None);
    let (sleep, wake) = sleep_islands(&mut awake, &w.islands);
    assert_eq!(sleep.0, vec![IslandId(1), IslandId(2)]);
    assert!(wake.0.is_empty());
    // The next step starts over.
    assert_eq!(awake.0.count_ones(), 0);
}

#[test]
fn sleepiest_island_is_split_first() {
    let mut w = world(3);
    for i in 0..3 {
        w.islands.get_mut(IslandId(i)).unwrap().constraints_removed = 1;
    }
    let mut awake = AwakeIslandBitVec::new();
    let bodies = vec![
        candidate(0, 0.5, true),
        candidate(1, 2.0, true),
        candidate(2, 1.0, true),
        candidate(2, 9.0, false),
    ];
    update_sleeping_states(&mut awake, &mut w.islands, &bodies);
    assert_eq!(w.islands.split_candidate(), Some(IslandId(1)));
    assert_eq!(w.islands.split_candidate_sleep_timer(), 2.0f32.to_bits());
    // Islands that need splitting do not fall asleep yet.
    let (sleep, _) = sleep_islands(&mut awake, &w.islands);
    assert!(sleep.0.is_empty());
}

#[test]
fn roused_islands_wake_up() {
    let mut w = world(2);
    w.sleep(vec![IslandId(0), IslandId(1)]);
    let mut awake = AwakeIslandBitVec::new();
    awake.keep_awake(IslandId(1));
    let (sleep, wake) = sleep_islands(&mut awake, &w.islands);
    assert!(sleep.0.is_empty());
    assert_eq!(wake.0, vec![IslandId(1)]);
}

#[test]
fn bodies_that_may_not_sleep_reset_their_timers() {
    let mut awake = AwakeIslandBitVec::new();
    let mut bodies = vec![candidate(3, 1.0, true), candidate(70, 2.0, false)];
    wake_islands_with_sleeping_disabled(&mut awake, &mut bodies);
    assert_eq!(awake.0.ones(), vec![3, 70]);
    assert!(bodies.iter().all(|b| b.sleep_timer == 0));
    assert!(bodies[0].wants_sleep && !bodies[1].wants_sleep);
}

#[test]
fn all_sleeping_islands_wake_up_with_gravity() {
    let mut w = world(3);
    assert!(wake_all_islands(&w.islands).is_none());
    w.sleep(vec![IslandId(0), IslandId(2)]);
    assert_eq!(wake_all_islands(&w.islands).unwrap().0, vec![IslandId(0), IslandId(2)]);
}

fn change(island: u32, position: ComponentChange, timer: ComponentChange) -> BodyChange {
    let still = ComponentChange { is_changed: false, last_changed: 0 };
    BodyChange {
        island_id: IslandId(island),
        position,
        rotation: still,
        linear_velocity: still,
        angular_velocity: still,
        sleep_timer: timer,
    }
}

#[test]
fn changes_after_the_last_step_wake_islands() {
    let still = ComponentChange { is_changed: false, last_changed: 0 };
    let by_user = ComponentChange { is_changed: true, last_changed: 12 };
    let by_physics = ComponentChange { is_changed: true, last_changed: 9 };
    let mut awake = AwakeIslandBitVec::new();
    let changes = vec![
        change(0, by_user, still),
        change(1, by_physics, still),
        change(2, still, by_user),
        change(3, still, still),
    ];
    wake_on_changed(&mut awake, &changes, &vec![IslandId(8)], 10, 15);
    assert_eq!(awake.0.ones(), vec![0, 2, 8]);
}
