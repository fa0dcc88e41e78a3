//! How the bounding boxes of colliders are brought up to date.

use vstd::prelude::*;

use crate::collider_tree::proxy::ColliderTreeType;
use crate::collider_tree::tree::ColliderTrees;
use crate::ticks::ColliderChange;

verus! {

/// How far the bounding box of a collider is enlarged.
#[derive(Clone, Copy, Debug, PartialEq, Eq, Structural)]
pub enum AabbMargin {
    /// By a margin relative to the size of the collider, so that it can move without an update of
    /// its tree.
    SizeRelative,
    /// By the contact tolerance only, so that the box stays tight.
    ContactTolerance,
}

/// How far the bounding boxes of the colliders in a tree are enlarged.
pub open spec fn margin_of(tree_type: ColliderTreeType) -> AabbMargin {
    match tree_type {
        ColliderTreeType::Dynamic | ColliderTreeType::Kinematic => AabbMargin::SizeRelative,
        ColliderTreeType::Static | ColliderTreeType::Standalone => AabbMargin::ContactTolerance,
    }
}

/// How far the bounding boxes of the colliders in a tree are enlarged: those of dynamic and
/// kinematic bodies by a margin relative to their size, others by the contact tolerance.
pub fn aabb_margin(tree_type: ColliderTreeType) -> (margin: AabbMargin)
    ensures
        margin == margin_of(tree_type),
{
    match tree_type {
        ColliderTreeType::Dynamic | ColliderTreeType::Kinematic => AabbMargin::SizeRelative,
        ColliderTreeType::Static | ColliderTreeType::Standalone => AabbMargin::ContactTolerance,
    }
}

/// How the bounding box of a collider is brought up to date.
#[derive(Clone, Copy, Debug, PartialEq, Eq, Structural)]
pub struct AabbPlan {
    /// Whether the box covers the way that the collider takes in the next step.
    pub swept: bool,
    /// Whether the margin relative to the size of the collider is computed anew.
    pub update_margin: bool,
    pub margin: AabbMargin,
}

/// How the bounding box of a collider of a solver body is brought up to date after a step: it covers
/// the next step if the body has speculative collision. Solver bodies can move, so their boxes are
/// enlarged by a margin relative to their size.
pub fn solver_body_aabb(speculative_ccd: bool, shape_changed: bool) -> (plan: AabbPlan)
    ensures
        plan == (AabbPlan {
            swept: speculative_ccd,
            update_margin: shape_changed,
            margin: AabbMargin::SizeRelative,
        }),
{
    AabbPlan {
        swept: speculative_ccd,
        update_margin: shape_changed,
        margin: AabbMargin::SizeRelative,
    }
}

/// How the bounding box of a collider that a user may have moved is brought up to date, if it can
/// have changed at all.
pub fn moved_collider_aabb(change: ColliderChange, tree_type: ColliderTreeType) -> (plan: Option<
    AabbPlan,
>)
    ensures
        plan == if change.aabb {
            Some(
                AabbPlan { swept: false, update_margin: change.shape, margin: margin_of(tree_type) },
            )
        } else {
            None
        },
{
    if !change.aabb {
        return None;
    }
    Some(AabbPlan { swept: false, update_margin: change.shape, margin: aabb_margin(tree_type) })
}

/// Upper bounds on the numbers of proxies of the trees, for sizing bit vectors.
#[derive(Clone, Copy, Debug, PartialEq, Eq, Structural)]
pub struct TreeCapacities {
    pub dynamic: usize,
    pub kinematic: usize,
    pub fixed: usize,
    pub standalone: usize,
}

impl TreeCapacities {
    /// The bound for a tree.
    pub open spec fn of_type(&self, tree_type: ColliderTreeType) -> usize {
        match tree_type {
            ColliderTreeType::Dynamic => self.dynamic,
            ColliderTreeType::Kinematic => self.kinematic,
            ColliderTreeType::Static => self.fixed,
            ColliderTreeType::Standalone => self.standalone,
        }
    }

    /// The bounds for the given trees.
    pub fn of(trees: &ColliderTrees) -> (capacities: Self)
        ensures
            forall|tree_type: ColliderTreeType| #[trigger]
                capacities.of_type(tree_type) == trees.tree(tree_type).slots(),
    {
        TreeCapacities {
            dynamic: trees.dynamic_tree.capacity(),
            kinematic: trees.kinematic_tree.capacity(),
            fixed: trees.static_tree.capacity(),
            standalone: trees.standalone_tree.capacity(),
        }
    }

    /// The bound for a tree.
    pub fn for_type(&self, tree_type: ColliderTreeType) -> (capacity: usize)
        ensures
            capacity == self.of_type(tree_type),
    {
        match tree_type {
            ColliderTreeType::Dynamic => self.dynamic,
            ColliderTreeType::Kinematic => self.kinematic,
            ColliderTreeType::Static => self.fixed,
            ColliderTreeType::Standalone => self.standalone,
        }
    }
}

} // verus!
