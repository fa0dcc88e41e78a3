//! The proxies that stand for colliders in the collider trees.

use vstd::prelude::*;

use crate::entity::Entity;
use crate::rigid_body::RigidBody;

verus! {

/// The tree that a collider belongs to, by the kind of its body.
#[derive(Clone, Copy, Debug, PartialEq, Eq, Structural)]
pub enum ColliderTreeType {
    Dynamic,
    Kinematic,
    Static,
    /// For colliders without a body.
    Standalone,
}

/// The tree for the colliders of a body of the given kind.
pub open spec fn tree_type_of(body: Option<RigidBody>) -> ColliderTreeType {
    match body {
        Some(RigidBody::Dynamic) => ColliderTreeType::Dynamic,
        Some(RigidBody::Kinematic) => ColliderTreeType::Kinematic,
        Some(RigidBody::Static) => ColliderTreeType::Static,
        None => ColliderTreeType::Standalone,
    }
}

/// The number that stands for a tree in a key.
pub open spec fn tree_number(tree_type: ColliderTreeType) -> u64 {
    match tree_type {
        ColliderTreeType::Dynamic => 0,
        ColliderTreeType::Kinematic => 1,
        ColliderTreeType::Static => 2,
        ColliderTreeType::Standalone => 3,
    }
}

impl ColliderTreeType {
    /// The tree for the colliders of a body of the given kind, or of none.
    pub fn from_body(body: Option<RigidBody>) -> (tree_type: Self)
        ensures
            tree_type == tree_type_of(body),
    {
        match body {
            Some(RigidBody::Dynamic) => ColliderTreeType::Dynamic,
            Some(RigidBody::Kinematic) => ColliderTreeType::Kinematic,
            Some(RigidBody::Static) => ColliderTreeType::Static,
            None => ColliderTreeType::Standalone,
        }
    }
}

/// The place of a proxy in its tree.
#[derive(Clone, Copy, Debug, PartialEq, Eq, Structural)]
pub struct ProxyId(pub u32);

/// The place of a proxy, and the tree that it is in.
#[derive(Clone, Copy, Debug, PartialEq, Eq, Structural)]
pub struct ColliderTreeProxyKey {
    pub id: ProxyId,
    pub tree_type: ColliderTreeType,
}

/// The number of the proxy that stands for "not in a tree yet".
pub const PLACEHOLDER_PROXY: u32 = 0xffff_ffff;

/// The number that stands for a key.
pub open spec fn key_number(key: ColliderTreeProxyKey) -> u64 {
    (key.id.0 * 4 + tree_number(key.tree_type)) as u64
}

/// The key of a collider that is not in a tree yet.
pub open spec fn placeholder_key() -> ColliderTreeProxyKey {
    ColliderTreeProxyKey { id: ProxyId(PLACEHOLDER_PROXY), tree_type: ColliderTreeType::Standalone }
}

impl ColliderTreeProxyKey {
    /// The key of a proxy in a tree.
    pub fn new(id: ProxyId, tree_type: ColliderTreeType) -> (key: Self)
        ensures
            key == (ColliderTreeProxyKey { id, tree_type }),
    {
        ColliderTreeProxyKey { id, tree_type }
    }

    /// The key of a collider that is not in a tree yet.
    pub fn placeholder() -> (key: Self)
        ensures
            key == placeholder_key(),
    {
        ColliderTreeProxyKey {
            id: ProxyId(PLACEHOLDER_PROXY),
            tree_type: ColliderTreeType::Standalone,
        }
    }

    /// The place of the proxy in its tree.
    pub fn id(&self) -> (id: ProxyId)
        ensures
            id == self.id,
    {
        self.id
    }

    /// The tree that the proxy is in.
    pub fn tree_type(&self) -> (tree_type: ColliderTreeType)
        ensures
            tree_type == self.tree_type,
    {
        self.tree_type
    }

    /// The number that stands for the key.
    pub fn number(&self) -> (number: u64)
        ensures
            number == key_number(*self),
    {
        let tree: u64 = match self.tree_type {
            ColliderTreeType::Dynamic => 0,
            ColliderTreeType::Kinematic => 1,
            ColliderTreeType::Static => 2,
            ColliderTreeType::Standalone => 3,
        };
        self.id.0 as u64 * 4 + tree
    }
}

/// Two keys are the same if the numbers that stand for them are.
pub proof fn key_number_injective(a: ColliderTreeProxyKey, b: ColliderTreeProxyKey)
    requires
        key_number(a) == key_number(b),
    ensures
        a == b,
{
}

/// The layers that a collider is in, and those that it interacts with.
#[derive(Clone, Copy, Debug, PartialEq, Eq, Structural)]
pub struct CollisionLayers {
    pub memberships: u32,
    pub filters: u32,
}

/// What the broad phase needs to know of a collider.
#[derive(Clone, Copy, Debug, PartialEq, Eq, Structural)]
pub struct ColliderTreeProxyFlags {
    pub sensor: bool,
    pub body_disabled: bool,
    pub contact_events: bool,
    /// Whether a user-defined filter decides about pairs with the collider.
    pub custom_filter: bool,
}

/// A collider in a tree.
#[derive(Clone, Copy, Debug, PartialEq, Eq, Structural)]
pub struct ColliderTreeProxy {
    pub collider: Entity,
    /// The body of the collider, if it has one.
    pub body: Option<Entity>,
    pub layers: CollisionLayers,
    pub flags: ColliderTreeProxyFlags,
}

} // verus!
