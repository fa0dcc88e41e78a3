//! What becomes of the proxy of a collider when something happens to the collider or its body.

use vstd::prelude::*;

verus! {

/// What happened to a collider.
#[derive(Clone, Copy, Debug, PartialEq, Eq, Structural)]
pub enum ColliderEvent {
    /// The collider was added, or attached to a body.
    Insert,
    /// The collider is to be removed.
    Remove,
    /// The collider is to be detached from its body.
    Detach,
    /// The entity is to be enabled. It still counts as disabled.
    EnableEntity,
    /// The collider is to be enabled. It still counts as disabled.
    EnableCollider,
    /// The entity was disabled.
    DisableEntity,
    /// The collider was disabled.
    DisableCollider,
    /// The body of the collider became a body of another kind.
    ChangeBodyKind,
    /// Something changed that the proxy keeps a record of: whether the collider is a sensor, its
    /// layers, its collision hooks, or whether its body is disabled.
    ChangeProperty,
}

/// What is to be done with the proxy of a collider.
#[derive(Clone, Copy, Debug, PartialEq, Eq, Structural)]
pub enum TreeAction {
    /// Nothing.
    Keep,
    /// The collider is to be added to the tree that it belongs to, and removed from any other.
    Add,
    /// The collider is to be removed from its tree.
    Remove,
    /// The collider is to be moved to the tree of colliders without a body.
    MoveToStandalone,
    /// The collider is to be moved to the tree of the kind of its body.
    FollowBody,
    /// The proxy of the collider is to be updated.
    Update,
}

/// What is to be done with the proxy of a collider. A collider is in a tree as long as neither it
/// nor its entity is disabled; what happens to it meanwhile is made up for when it is enabled. A
/// collider that is removed leaves its tree in any case.
pub open spec fn collider_action_of(
    event: ColliderEvent,
    disabled: bool,
    collider_disabled: bool,
) -> TreeAction {
    match event {
        ColliderEvent::Remove => TreeAction::Remove,
        ColliderEvent::EnableEntity => if collider_disabled {
            TreeAction::Keep
        } else {
            TreeAction::Add
        },
        ColliderEvent::EnableCollider => if disabled {
            TreeAction::Keep
        } else {
            TreeAction::Add
        },
        ColliderEvent::DisableEntity => if collider_disabled {
            TreeAction::Keep
        } else {
            TreeAction::Remove
        },
        ColliderEvent::DisableCollider => if disabled {
            TreeAction::Keep
        } else {
            TreeAction::Remove
        },
        ColliderEvent::Insert
        | ColliderEvent::Detach
        | ColliderEvent::ChangeBodyKind
        | ColliderEvent::ChangeProperty => if disabled || collider_disabled {
            TreeAction::Keep
        } else {
            match event {
                ColliderEvent::Insert => TreeAction::Add,
                ColliderEvent::Detach => TreeAction::MoveToStandalone,
                ColliderEvent::ChangeBodyKind => TreeAction::FollowBody,
                _ => TreeAction::Update,
            }
        },
    }
}

/// What is to be done with the proxy of a collider.
pub fn collider_action(
    event: ColliderEvent,
    disabled: bool,
    collider_disabled: bool,
) -> (action: TreeAction)
    ensures
        action == collider_action_of(event, disabled, collider_disabled),
{
    let (ignored, action) = match event {
        ColliderEvent::Insert => (disabled || collider_disabled, TreeAction::Add),
        ColliderEvent::Remove => (false, TreeAction::Remove),
        ColliderEvent::Detach => (disabled || collider_disabled, TreeAction::MoveToStandalone),
        ColliderEvent::EnableEntity => (collider_disabled, TreeAction::Add),
        ColliderEvent::EnableCollider => (disabled, TreeAction::Add),
        ColliderEvent::DisableEntity => (collider_disabled, TreeAction::Remove),
        ColliderEvent::DisableCollider => (disabled, TreeAction::Remove),
        ColliderEvent::ChangeBodyKind => (disabled || collider_disabled, TreeAction::FollowBody),
        ColliderEvent::ChangeProperty => (disabled || collider_disabled, TreeAction::Update),
    };
    if ignored {
        TreeAction::Keep
    } else {
        action
    }
}

/// What happened to the marker of a disabled body.
#[derive(Clone, Copy, Debug, PartialEq, Eq, Structural)]
pub enum BodyMarkerEvent {
    /// The marker was inserted, or replaced by another one.
    Insert,
    /// The marker is to be removed. It still counts as there.
    Remove,
}

/// The flag for a disabled body that the proxies of the colliders of a body get: set when the body
/// is disabled, and unset when it is enabled.
pub fn body_disabled_flag(event: BodyMarkerEvent) -> (body_disabled: bool)
    ensures
        body_disabled == (event is Insert),
{
    matches!(event, BodyMarkerEvent::Insert)
}

/// Whether a collider and its entity are enabled, once something happened to the collider.
pub open spec fn is_enabled_after(
    event: ColliderEvent,
    disabled: bool,
    collider_disabled: bool,
) -> bool {
    match event {
        ColliderEvent::EnableEntity => !collider_disabled,
        ColliderEvent::EnableCollider => !disabled,
        ColliderEvent::DisableEntity | ColliderEvent::DisableCollider => false,
        _ => !disabled && !collider_disabled,
    }
}

/// Whether a collider is in a tree, once something was done with its proxy.
pub open spec fn is_in_tree_after(was_in_tree: bool, action: TreeAction) -> bool {
    match action {
        TreeAction::Add => true,
        TreeAction::Remove => false,
        _ => was_in_tree,
    }
}

/// Whether a collider and its entity were enabled, before something happened to the collider.
pub open spec fn was_enabled_before(
    event: ColliderEvent,
    disabled: bool,
    collider_disabled: bool,
) -> bool {
    match event {
        ColliderEvent::DisableEntity => !collider_disabled,
        ColliderEvent::DisableCollider => !disabled,
        _ => !disabled && !collider_disabled,
    }
}

/// A collider that is there is in a tree exactly if neither it nor its entity is disabled: what
/// happens to it keeps it so.
pub proof fn enabled_colliders_are_in_trees(
    event: ColliderEvent,
    disabled: bool,
    collider_disabled: bool,
)
    requires
        !(event is Remove),
        event is EnableEntity ==> disabled,
        event is EnableCollider ==> collider_disabled,
    ensures
        is_in_tree_after(
            was_enabled_before(event, disabled, collider_disabled),
            collider_action_of(event, disabled, collider_disabled),
        ) == is_enabled_after(event, disabled, collider_disabled),
{
}

/// A collider that is inserted is in a tree afterwards, unless it or its entity is disabled.
pub proof fn inserted_colliders_are_in_trees(disabled: bool, collider_disabled: bool)
    ensures
        is_in_tree_after(
            false,
            collider_action_of(ColliderEvent::Insert, disabled, collider_disabled),
        ) == (!disabled && !collider_disabled),
{
}

/// A collider that is removed is in no tree afterwards.
pub proof fn removed_colliders_are_in_no_tree(
    disabled: bool,
    collider_disabled: bool,
    was_in_tree: bool,
)
    ensures
        !is_in_tree_after(
            was_in_tree,
            collider_action_of(ColliderEvent::Remove, disabled, collider_disabled),
        ),
{
}

} // verus!
