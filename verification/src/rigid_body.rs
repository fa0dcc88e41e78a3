//! Rigid bodies, and what becomes of their solver bodies and island nodes as they change.

use vstd::prelude::*;

verus! {

/// The kind of a rigid body.
#[derive(Clone, Copy, Debug, PartialEq, Eq, Structural)]
pub enum RigidBody {
    /// Moved by forces.
    Dynamic,
    /// Never moved.
    Static,
    /// Moved by the user only.
    Kinematic,
}

impl RigidBody {
    /// Whether the body is moved by forces.
    pub fn is_dynamic(&self) -> (dynamic: bool)
        ensures
            dynamic == (self is Dynamic),
    {
        matches!(self, RigidBody::Dynamic)
    }

    /// Whether the body is never moved.
    pub fn is_static(&self) -> (fixed: bool)
        ensures
            fixed == (self is Static),
    {
        matches!(self, RigidBody::Static)
    }

    /// Whether the body is moved by the user only.
    pub fn is_kinematic(&self) -> (kinematic: bool)
        ensures
            kinematic == (self is Kinematic),
    {
        matches!(self, RigidBody::Kinematic)
    }
}

/// What an entity has of the components that decide whether it takes part in the simulation.
#[derive(Clone, Copy, Debug, PartialEq, Eq)]
pub struct BodyState {
    /// The kind of body, if the entity is one.
    pub rigid_body: Option<RigidBody>,
    /// Whether the entity is disabled.
    pub disabled: bool,
    /// Whether the body is disabled.
    pub body_disabled: bool,
    /// Whether the body sleeps.
    pub sleeping: bool,
}

/// What happened to an entity.
#[derive(Clone, Copy, Debug, PartialEq, Eq, Structural)]
pub enum BodyEvent {
    /// The entity became a body, or a body of another kind.
    InsertBody,
    /// The entity is no body any more.
    RemoveBody,
    /// The entity is to be enabled. It still counts as disabled.
    EnableEntity,
    /// The body is to be enabled. It still counts as disabled.
    EnableBody,
    /// The entity was disabled.
    DisableEntity,
    /// The body was disabled.
    DisableBody,
    /// The body is to wake up. It still counts as sleeping.
    Wake,
    /// The body was put to sleep.
    Sleep,
}

/// What is to be done with a part of an entity.
#[derive(Clone, Copy, Debug, PartialEq, Eq, Structural)]
pub enum PartAction {
    /// Nothing.
    Keep,
    /// The part is to be added.
    Add,
    /// The part is to be removed.
    Remove,
}

/// Whether an entity is a body that can move.
pub open spec fn is_movable(state: BodyState) -> bool {
    state.rigid_body is Some && !(state.rigid_body->0 is Static)
}

/// Whether an entity is a body that does not move.
pub open spec fn is_fixed(state: BodyState) -> bool {
    state.rigid_body is Some && state.rigid_body->0 is Static
}

/// What is to be done with the solver body of an entity. A solver body is created for each movable
/// body when it is created, enabled, woken up, or becomes movable. It is removed when the body is
/// removed, disabled, put to sleep, or becomes static.
pub open spec fn solver_body_action_of(
    event: BodyEvent,
    state: BodyState,
    has_solver_body: bool,
) -> PartAction {
    match event {
        BodyEvent::InsertBody => if state.disabled || state.body_disabled || state.sleeping {
            PartAction::Keep
        } else if is_fixed(state) && has_solver_body {
            PartAction::Remove
        } else if is_movable(state) && !has_solver_body {
            PartAction::Add
        } else {
            PartAction::Keep
        },
        BodyEvent::EnableBody => if is_movable(state) && !has_solver_body && !state.disabled
            && !state.sleeping {
            PartAction::Add
        } else {
            PartAction::Keep
        },
        BodyEvent::EnableEntity => if is_movable(state) && !has_solver_body && !state.body_disabled
            && !state.sleeping {
            PartAction::Add
        } else {
            PartAction::Keep
        },
        BodyEvent::Wake => if is_movable(state) && !has_solver_body && !state.disabled
            && !state.body_disabled {
            PartAction::Add
        } else {
            PartAction::Keep
        },
        BodyEvent::RemoveBody
        | BodyEvent::DisableEntity
        | BodyEvent::DisableBody
        | BodyEvent::Sleep => if has_solver_body {
            PartAction::Remove
        } else {
            PartAction::Keep
        },
    }
}

/// What is to be done with the solver body of an entity.
pub fn solver_body_action(
    event: BodyEvent,
    state: BodyState,
    has_solver_body: bool,
) -> (action: PartAction)
    ensures
        action == solver_body_action_of(event, state, has_solver_body),
{
    let (movable, fixed) = match state.rigid_body {
        Some(body) => (!body.is_static(), body.is_static()),
        None => (false, false),
    };
    let add = match event {
        BodyEvent::InsertBody => {
            if state.disabled || state.body_disabled || state.sleeping {
                return PartAction::Keep;
            }
            if fixed && has_solver_body {
                return PartAction::Remove;
            }
            movable
        },
        BodyEvent::EnableBody => movable && !state.disabled && !state.sleeping,
        BodyEvent::EnableEntity => movable && !state.body_disabled && !state.sleeping,
        BodyEvent::Wake => movable && !state.disabled && !state.body_disabled,
        BodyEvent::RemoveBody
        | BodyEvent::DisableEntity
        | BodyEvent::DisableBody
        | BodyEvent::Sleep => {
            if has_solver_body {
                return PartAction::Remove;
            }
            false
        },
    };
    if add && !has_solver_body {
        PartAction::Add
    } else {
        PartAction::Keep
    }
}

/// What is to be done with the island node of an entity. A movable body that is enabled is given
/// one. It is removed when the body is removed, disabled, or becomes static. (A new body gets its
/// node together with its solver body.)
pub open spec fn island_node_action_of(event: BodyEvent, state: BodyState) -> PartAction {
    match event {
        BodyEvent::EnableBody => if is_movable(state) && !state.disabled {
            PartAction::Add
        } else {
            PartAction::Keep
        },
        BodyEvent::EnableEntity => if is_movable(state) && state.disabled && !state.body_disabled {
            PartAction::Add
        } else {
            PartAction::Keep
        },
        BodyEvent::RemoveBody => PartAction::Remove,
        BodyEvent::DisableEntity | BodyEvent::DisableBody => if state.rigid_body is Some {
            PartAction::Remove
        } else {
            PartAction::Keep
        },
        BodyEvent::InsertBody => if is_fixed(state) && !state.disabled {
            PartAction::Remove
        } else {
            PartAction::Keep
        },
        BodyEvent::Wake | BodyEvent::Sleep => PartAction::Keep,
    }
}

/// What is to be done with the island node of an entity.
pub fn island_node_action(event: BodyEvent, state: BodyState) -> (action: PartAction)
    ensures
        action == island_node_action_of(event, state),
{
    let (movable, fixed) = match state.rigid_body {
        Some(body) => (body.is_dynamic() || body.is_kinematic(), body.is_static()),
        None => (false, false),
    };
    match event {
        BodyEvent::EnableBody => {
            if movable && !state.disabled {
                PartAction::Add
            } else {
                PartAction::Keep
            }
        },
        BodyEvent::EnableEntity => {
            if movable && state.disabled && !state.body_disabled {
                PartAction::Add
            } else {
                PartAction::Keep
            }
        },
        BodyEvent::RemoveBody => PartAction::Remove,
        BodyEvent::DisableEntity | BodyEvent::DisableBody => {
            if state.rigid_body.is_some() {
                PartAction::Remove
            } else {
                PartAction::Keep
            }
        },
        BodyEvent::InsertBody => {
            if fixed && !state.disabled {
                PartAction::Remove
            } else {
                PartAction::Keep
            }
        },
        BodyEvent::Wake | BodyEvent::Sleep => PartAction::Keep,
    }
}

/// What is to be done with the island node of an entity, once it is known whether it gained a solver
/// body, and whether it has a node: every solver body brings a node along.
pub open spec fn island_node_change_of(
    event: BodyEvent,
    state: BodyState,
    gained_solver_body: bool,
    has_node: bool,
) -> PartAction {
    let action = island_node_action_of(event, state);
    if has_node {
        if action is Remove {
            PartAction::Remove
        } else {
            PartAction::Keep
        }
    } else if gained_solver_body || action is Add {
        PartAction::Add
    } else {
        PartAction::Keep
    }
}

/// What is to be done with the island node of an entity, once it is known whether it gained a solver
/// body, and whether it has a node.
pub fn island_node_change(
    event: BodyEvent,
    state: BodyState,
    gained_solver_body: bool,
    has_node: bool,
) -> (action: PartAction)
    ensures
        action == island_node_change_of(event, state, gained_solver_body, has_node),
{
    match island_node_action(event, state) {
        PartAction::Remove => if has_node {
            PartAction::Remove
        } else if gained_solver_body {
            PartAction::Add
        } else {
            PartAction::Keep
        },
        PartAction::Add => if has_node {
            PartAction::Keep
        } else {
            PartAction::Add
        },
        PartAction::Keep => if gained_solver_body && !has_node {
            PartAction::Add
        } else {
            PartAction::Keep
        },
    }
}

/// Whether a body moves and nothing keeps it from taking part in the simulation.
pub open spec fn is_active(state: BodyState) -> bool {
    is_movable(state) && !state.disabled && !state.body_disabled && !state.sleeping
}

/// An active body that is inserted has a solver body and an island node afterwards.
pub proof fn inserted_bodies_take_part(state: BodyState, has_solver_body: bool, has_node: bool)
    requires
        is_active(state),
        has_solver_body ==> has_node,
    ensures
        ({
            let body = solver_body_action_of(BodyEvent::InsertBody, state, has_solver_body);
            let node = island_node_change_of(
                BodyEvent::InsertBody,
                state,
                body is Add,
                has_node,
            );
            &&& body == if has_solver_body {
                PartAction::Keep
            } else {
                PartAction::Add
            }
            &&& node == if has_node {
                PartAction::Keep
            } else {
                PartAction::Add
            }
        }),
{
}

/// Whether an entity has a part once something was done with it.
pub open spec fn has_after(had: bool, action: PartAction) -> bool {
    match action {
        PartAction::Keep => had,
        PartAction::Add => true,
        PartAction::Remove => false,
    }
}

/// Whether what happened to an entity shows in its state: a mark that was put on it, or is to be
/// taken from it, is there.
pub open spec fn shows_event(event: BodyEvent, state: BodyState) -> bool {
    match event {
        BodyEvent::InsertBody => state.rigid_body is Some,
        BodyEvent::RemoveBody => true,
        BodyEvent::EnableEntity | BodyEvent::DisableEntity => state.disabled,
        BodyEvent::EnableBody | BodyEvent::DisableBody => state.body_disabled,
        BodyEvent::Wake | BodyEvent::Sleep => state.sleeping,
    }
}

/// The state of an entity before something happened to it. The kind that it had before a body was
/// inserted is given.
pub open spec fn state_before(
    event: BodyEvent,
    state: BodyState,
    kind: Option<RigidBody>,
) -> BodyState {
    match event {
        BodyEvent::InsertBody => BodyState { rigid_body: kind, ..state },
        BodyEvent::DisableEntity => BodyState { disabled: false, ..state },
        BodyEvent::DisableBody => BodyState { body_disabled: false, ..state },
        BodyEvent::Sleep => BodyState { sleeping: false, ..state },
        _ => state,
    }
}

/// The state that what happened to an entity leaves.
pub open spec fn state_after(event: BodyEvent, state: BodyState) -> BodyState {
    match event {
        BodyEvent::RemoveBody => BodyState { rigid_body: None, ..state },
        BodyEvent::EnableEntity => BodyState { disabled: false, ..state },
        BodyEvent::EnableBody => BodyState { body_disabled: false, ..state },
        BodyEvent::Wake => BodyState { sleeping: false, ..state },
        _ => state,
    }
}

/// An entity has a solver body exactly if it is active: whatever happens to it keeps it so.
pub proof fn active_bodies_have_solver_bodies(
    event: BodyEvent,
    state: BodyState,
    kind: Option<RigidBody>,
    has_solver_body: bool,
)
    requires
        shows_event(event, state),
        has_solver_body == is_active(state_before(event, state, kind)),
    ensures
        has_after(has_solver_body, solver_body_action_of(event, state, has_solver_body))
            == is_active(state_after(event, state)),
{
}

/// Every solver body has an island node, whatever happens to the body. (A body that is replaced while
/// it is disabled or asleep has no solver body.)
pub proof fn solver_bodies_have_nodes(
    event: BodyEvent,
    state: BodyState,
    has_solver_body: bool,
    has_node: bool,
)
    requires
        has_solver_body ==> has_node,
        event is InsertBody && has_solver_body ==> !state.body_disabled && !state.sleeping,
    ensures
        ({
            let body = solver_body_action_of(event, state, has_solver_body);
            let node = island_node_change_of(event, state, body is Add, has_node);
            has_after(has_solver_body, body) ==> has_after(has_node, node)
        }),
{
}

/// An entity that is no body, or a static one, never gains a solver body or an island node.
pub proof fn nothing_is_added_to_fixed_bodies(
    event: BodyEvent,
    state: BodyState,
    has_solver_body: bool,
)
    requires
        !is_movable(state),
    ensures
        !(solver_body_action_of(event, state, has_solver_body) is Add),
        !(island_node_action_of(event, state) is Add),
{
}

/// Flags of a solver body.
#[derive(Clone, Copy, Debug, PartialEq, Eq)]
pub struct SolverBodyFlags {
    /// The axes along and around which the body may not move.
    pub locked_axes: u8,
    pub is_kinematic: bool,
    pub custom_position_integration: bool,
    /// Whether the gyroscopic motion of the body is computed.
    pub gyroscopic_motion: bool,
}

/// The flags of the solver body of a rigid body. Gyroscopic motion is computed only in three
/// dimensions, if the body can rotate around some axis, and its inertia is not the same around all.
pub fn solver_body_flags(
    body: RigidBody,
    locked_axes: u8,
    custom_position_integration: bool,
    three_dimensional: bool,
    rotation_locked: bool,
    isotropic: bool,
) -> (flags: SolverBodyFlags)
    ensures
        flags == (SolverBodyFlags {
            locked_axes,
            is_kinematic: body is Kinematic,
            custom_position_integration,
            gyroscopic_motion: three_dimensional && !rotation_locked && !isotropic,
        }),
{
    SolverBodyFlags {
        locked_axes,
        is_kinematic: body.is_kinematic(),
        custom_position_integration,
        gyroscopic_motion: three_dimensional && !rotation_locked && !isotropic,
    }
}

/// A solver body is added to a body that has none, and is dynamic or kinematic, when the last thing
/// goes that keeps the body from taking part: it is inserted with no mark, or the only mark that it has
/// is taken away. It is removed from a body that has one when a mark is put on the body, when the body
/// is removed, or when it becomes static with no mark.
pub proof fn solver_bodies_come_and_go_with_marks(
    event: BodyEvent,
    state: BodyState,
    has_solver_body: bool,
)
    ensures
        ({
            let action = solver_body_action_of(event, state, has_solver_body);
            let moves = state.rigid_body == Some(RigidBody::Dynamic) || state.rigid_body == Some(
                RigidBody::Kinematic,
            );
            let fixed = state.rigid_body == Some(RigidBody::Static);
            &&& action is Add <==> !has_solver_body && moves && {
                ||| event is InsertBody && !state.disabled && !state.body_disabled
                    && !state.sleeping
                ||| event is EnableBody && !state.disabled && !state.sleeping
                ||| event is EnableEntity && !state.body_disabled && !state.sleeping
                ||| event is Wake && !state.disabled && !state.body_disabled
            }
            &&& action is Remove <==> has_solver_body && {
                ||| event is RemoveBody
                ||| event is DisableEntity
                ||| event is DisableBody
                ||| event is Sleep
                ||| event is InsertBody && fixed && !state.disabled && !state.body_disabled
                    && !state.sleeping
            }
        }),
{
}

/// An island node is to be added to a dynamic or kinematic body when the body, or its entity, is
/// enabled and the other one is not disabled. It is to be removed when the body is removed, when a body
/// or its entity is disabled, and when the body becomes static while its entity is enabled.
pub proof fn nodes_come_and_go_with_marks(event: BodyEvent, state: BodyState)
    ensures
        ({
            let action = island_node_action_of(event, state);
            let moves = state.rigid_body == Some(RigidBody::Dynamic) || state.rigid_body == Some(
                RigidBody::Kinematic,
            );
            let fixed = state.rigid_body == Some(RigidBody::Static);
            &&& action is Add <==> moves && {
                ||| event is EnableBody && !state.disabled
                ||| event is EnableEntity && state.disabled && !state.body_disabled
            }
            &&& action is Remove <==> {
                ||| event is RemoveBody
                ||| event is DisableEntity && state.rigid_body is Some
                ||| event is DisableBody && state.rigid_body is Some
                ||| event is InsertBody && fixed && !state.disabled
            }
        }),
{
}

/// A body without a node is given one if it gained a solver body, or if what happened asks for one.
/// A body with a node loses it if what happened asks for that. Nothing else is done.
pub proof fn nodes_follow_solver_bodies(
    event: BodyEvent,
    state: BodyState,
    gained_solver_body: bool,
    has_node: bool,
)
    ensures
        ({
            let change = island_node_change_of(event, state, gained_solver_body, has_node);
            let action = island_node_action_of(event, state);
            &&& change is Add <==> !has_node && (gained_solver_body || action is Add)
            &&& change is Remove <==> has_node && action is Remove
        }),
{
}

} // verus!
