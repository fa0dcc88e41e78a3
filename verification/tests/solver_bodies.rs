use avian_core::entity::Entity;
use avian_core::rigid_body::{
    island_node_action, island_node_change, solver_body_action, solver_body_flags, BodyEvent, BodyState, PartAction,
    RigidBody, SolverBodyFlags,
};
use avian_core::solver_bodies::{
    remove_solver_body, update_solver_body, SolverBodies, SolverBodyIndex, SolverBodyIndices,
};

struct App {
    bodies: SolverBodies<u32>,
    indices: SolverBodyIndices,
    states: Vec<BodyState>,
}

fn create_app() -> App {
    App { bodies: SolverBodies::new(), indices: SolverBodyIndices::new(), states: Vec::new() }
}

impl App {
    fn spawn(&mut self, rigid_body: RigidBody) -> Entity {
        let entity = Entity::from_raw(self.states.len() as u32);
        self.states.push(BodyState {
            rigid_body: Some(rigid_body),
            disabled: false,
            body_disabled: false,
            sleeping: false,
        });
        self.observe(entity, BodyEvent::InsertBody);
        entity
    }

    fn observe(&mut self, entity: Entity, event: BodyEvent) -> PartAction {
        update_solver_body(
            entity,
            event,
            self.states[entity.index_u32() as usize],
            entity.index_u32(),
            &mut self.bodies,
            &mut self.indices,
        )
    }
}

fn has_solver_body(app: &App, entity: Entity) -> bool {
    app.bodies.contains_entity(entity) && app.indices.get(entity).is_some()
}

#[test]
fn add_remove_solver_bodies() {
    let mut app = create_app();

    // Create a dynamic, kinematic, and static rigid body.
    let entity1 = app.spawn(RigidBody::Dynamic);
    let entity2 = app.spawn(RigidBody::Kinematic);
    let entity3 = app.spawn(RigidBody::Static);

    // The dynamic and kinematic rigid bodies should have solver bodies.
    assert!(has_solver_body(&app, entity1));
    assert!(has_solver_body(&app, entity2));
    assert!(!has_solver_body(&app, entity3));

    // Disable the dynamic rigid body.
    app.states[0].body_disabled = true;
    app.observe(entity1, BodyEvent::DisableBody);

    // The entity should no longer have a solver body.
    assert!(!has_solver_body(&app, entity1));

    // Enable the dynamic rigid body. The body still is marked as disabled at this point.
    app.observe(entity1, BodyEvent::EnableBody);
    app.states[0].body_disabled = false;

    // The dynamic rigid body should have a solver body again.
    assert!(has_solver_body(&app, entity1));
}

#[test]
fn places_follow_removals() {
    let mut app = create_app();
    let entities: Vec<Entity> = (0..4).map(|_| app.spawn(RigidBody::Dynamic)).collect();
    assert_eq!(app.bodies.len(), 4);
    remove_solver_body(entities[1], &mut app.bodies, &mut app.indices);
    assert_eq!(app.bodies.len(), 3);
    // The last body took the free place.
    assert_eq!(app.indices.get(entities[3]), Some(SolverBodyIndex(1)));
    assert_eq!(app.bodies.get(SolverBodyIndex(1)), Some(&3));
    assert_eq!(app.indices.get(entities[1]), None);
    assert_eq!(app.indices.get(entities[2]), Some(SolverBodyIndex(2)));
    // Nothing happens to an entity without a solver body.
    remove_solver_body(entities[1], &mut app.bodies, &mut app.indices);
    assert_eq!(app.bodies.len(), 3);
    // The last one leaves no hole.
    remove_solver_body(entities[2], &mut app.bodies, &mut app.indices);
    assert_eq!(app.bodies.entities, vec![entities[0], entities[3]]);
}

#[test]
fn removing_undoes_adding_a_solver_body() {
    let mut app = create_app();
    app.spawn(RigidBody::Dynamic);
    let before = app.bodies.entities.clone();
    let entity = app.spawn(RigidBody::Kinematic);
    remove_solver_body(entity, &mut app.bodies, &mut app.indices);
    assert_eq!(app.bodies.entities, before);
    assert_eq!(app.bodies.bodies, vec![0]);
    assert_eq!(app.indices.get(entity), None);
}

#[test]
fn swap_remove_names_the_moved_body() {
    let mut bodies: SolverBodies<u8> = SolverBodies::new();
    let (a, b) = (Entity::from_raw(1), Entity::from_raw(2));
    assert_eq!(bodies.push(a, 10), SolverBodyIndex(0));
    assert_eq!(bodies.push(b, 20), SolverBodyIndex(1));
    assert_eq!(bodies.swap_remove(SolverBodyIndex(0)), Some(b));
    assert_eq!(bodies.swap_remove(SolverBodyIndex(0)), None);
    assert!(SolverBodyIndex(0).is_valid());
    assert!(!SolverBodyIndex(u32::MAX).is_valid());
    assert!(bodies.get(SolverBodyIndex(0)).is_none());
}

fn state(rigid_body: RigidBody) -> BodyState {
    BodyState {
        rigid_body: Some(rigid_body),
        disabled: false,
        body_disabled: false,
        sleeping: false,
    }
}

#[test]
fn sleeping_and_disabled_bodies_have_no_solver_body() {
    let dynamic = state(RigidBody::Dynamic);
    let asleep = BodyState { sleeping: true, ..dynamic };
    let disabled = BodyState { body_disabled: true, ..dynamic };
    assert_eq!(solver_body_action(BodyEvent::Sleep, asleep, true), PartAction::Remove);
    assert_eq!(solver_body_action(BodyEvent::DisableEntity, dynamic, true), PartAction::Remove);
    assert_eq!(solver_body_action(BodyEvent::RemoveBody, dynamic, true), PartAction::Remove);
    assert_eq!(solver_body_action(BodyEvent::RemoveBody, dynamic, false), PartAction::Keep);
    // A body that sleeps does not get one when it is enabled, nor a disabled one when it wakes up.
    assert_eq!(solver_body_action(BodyEvent::EnableBody, asleep, false), PartAction::Keep);
    assert_eq!(solver_body_action(BodyEvent::Wake, disabled, false), PartAction::Keep);
    assert_eq!(solver_body_action(BodyEvent::Wake, asleep, false), PartAction::Add);
    assert_eq!(solver_body_action(BodyEvent::Wake, asleep, true), PartAction::Keep);
    assert_eq!(
        solver_body_action(BodyEvent::InsertBody, state(RigidBody::Static), true),
        PartAction::Remove
    );
}

#[test]
fn island_nodes_are_for_bodies_that_move() {
    let dynamic = state(RigidBody::Dynamic);
    assert_eq!(island_node_action(BodyEvent::EnableBody, dynamic), PartAction::Add);
    assert_eq!(
        island_node_action(BodyEvent::EnableEntity, BodyState { disabled: true, ..dynamic }),
        PartAction::Add
    );
    // A new body gets its node together with its solver body.
    assert_eq!(island_node_action(BodyEvent::InsertBody, dynamic), PartAction::Keep);
    assert_eq!(island_node_action(BodyEvent::DisableBody, dynamic), PartAction::Remove);
    assert_eq!(island_node_action(BodyEvent::Sleep, dynamic), PartAction::Keep);
    assert_eq!(
        island_node_action(BodyEvent::InsertBody, state(RigidBody::Static)),
        PartAction::Remove
    );
    assert_eq!(
        island_node_action(BodyEvent::RemoveBody, state(RigidBody::Kinematic)),
        PartAction::Remove
    );
    assert_eq!(
        island_node_action(BodyEvent::EnableEntity, state(RigidBody::Static)),
        PartAction::Keep
    );
}

#[test]
fn flags_of_solver_bodies() {
    assert_eq!(
        solver_body_flags(RigidBody::Kinematic, 5, true, true, false, false),
        SolverBodyFlags {
            locked_axes: 5,
            is_kinematic: true,
            custom_position_integration: true,
            gyroscopic_motion: true,
        }
    );
    // No gyroscopic motion for locked rotation, the same inertia around all axes, or in a plane.
    assert!(!solver_body_flags(RigidBody::Dynamic, 0, false, true, true, false).gyroscopic_motion);
    assert!(!solver_body_flags(RigidBody::Dynamic, 0, false, true, false, true).gyroscopic_motion);
    assert!(!solver_body_flags(RigidBody::Dynamic, 0, false, false, false, false).gyroscopic_motion);
}

#[test]
fn kinds_of_bodies() {
    assert!(RigidBody::Dynamic.is_dynamic() && !RigidBody::Dynamic.is_static());
    assert!(RigidBody::Static.is_static() && !RigidBody::Static.is_kinematic());
    assert!(RigidBody::Kinematic.is_kinematic() && !RigidBody::Kinematic.is_dynamic());
}

#[test]
fn solver_bodies_bring_island_nodes() {
    let events = [
        BodyEvent::InsertBody,
        BodyEvent::RemoveBody,
        BodyEvent::EnableEntity,
        BodyEvent::EnableBody,
        BodyEvent::DisableEntity,
        BodyEvent::DisableBody,
        BodyEvent::Wake,
        BodyEvent::Sleep,
    ];
    let after = |had: bool, action: PartAction| match action {
        PartAction::Keep => had,
        PartAction::Add => true,
        PartAction::Remove => false,
    };
    for rigid_body in [RigidBody::Dynamic, RigidBody::Kinematic, RigidBody::Static] {
        for event in events {
            for (has_body, has_node) in [(false, false), (false, true), (true, true)] {
                let action = solver_body_action(event, state(rigid_body), has_body);
                let gained = action == PartAction::Add;
                let change = island_node_change(event, state(rigid_body), gained, has_node);
                assert!(!after(has_body, action) || after(has_node, change));
            }
        }
    }
    let dynamic = state(RigidBody::Dynamic);
    assert_eq!(island_node_change(BodyEvent::InsertBody, dynamic, true, false), PartAction::Add);
    assert_eq!(island_node_change(BodyEvent::EnableBody, dynamic, true, true), PartAction::Keep);
    assert_eq!(
        island_node_change(BodyEvent::DisableBody, dynamic, false, true),
        PartAction::Remove
    );
    assert_eq!(
        island_node_change(BodyEvent::DisableBody, dynamic, false, false),
        PartAction::Keep
    );
}

#[test]
fn active_bodies_have_solver_bodies() {
    let active = state(RigidBody::Dynamic);
    let action = |event, state, has| solver_body_action(event, state, has);
    // What takes a body out of the simulation, and what brings it back.
    let disabled = BodyState { disabled: true, ..active };
    assert_eq!(action(BodyEvent::DisableEntity, disabled, true), PartAction::Remove);
    assert_eq!(action(BodyEvent::EnableEntity, disabled, false), PartAction::Add);
    let asleep = BodyState { sleeping: true, ..active };
    assert_eq!(action(BodyEvent::Sleep, asleep, true), PartAction::Remove);
    assert_eq!(action(BodyEvent::Wake, asleep, false), PartAction::Add);
    // One of two reasons goes.
    let both = BodyState { sleeping: true, ..disabled };
    assert_eq!(action(BodyEvent::EnableEntity, both, false), PartAction::Keep);
    assert_eq!(action(BodyEvent::Wake, both, false), PartAction::Keep);
    // Another kind of body.
    let fixed = state(RigidBody::Static);
    assert_eq!(action(BodyEvent::InsertBody, fixed, true), PartAction::Remove);
    assert_eq!(action(BodyEvent::InsertBody, active, false), PartAction::Add);
    assert_eq!(action(BodyEvent::RemoveBody, active, true), PartAction::Remove);
}
