//! Size metrics of a rigid body and its colliders.

use vstd::prelude::*;

use crate::float_bits::{is_above, is_nan, is_nan_bits, key_of, order_key, INFINITY_BITS};

verus! {

/// Size metrics of a rigid body and its colliders, as bit patterns of single-precision numbers.
#[derive(Clone, Copy, Debug, PartialEq, Eq, Structural)]
pub struct BodySizeMetrics {
    /// The least thickness of the colliders: how far the body can move in one step before it might
    /// tunnel through others.
    pub ccd_thickness: u32,
    /// The greatest distance from the center of mass to the surface of a collider.
    pub sweep_radius: u32,
}

impl Default for BodySizeMetrics {
    /// The metrics of a body without colliders: it is infinitely thick, and reaches nowhere.
    fn default() -> (metrics: Self)
        ensures
            metrics.ccd_thickness == INFINITY_BITS,
            metrics.sweep_radius == 0,
    {
        BodySizeMetrics { ccd_thickness: INFINITY_BITS, sweep_radius: 0 }
    }
}

/// What the metrics of a body need to know of a collider, as bit patterns of single-precision
/// numbers.
#[derive(Clone, Copy, Debug, PartialEq, Eq, Structural)]
pub struct ColliderSize {
    pub ccd_thickness: u32,
    /// The greatest distance from the center of mass of the body to the surface of the collider.
    pub distance_to_com: u32,
}

/// Whether a thickness is the least of those of the colliders, or infinite without any. What is not a
/// number does not count.
pub open spec fn is_least_thickness(thickness: u32, colliders: Seq<ColliderSize>) -> bool {
    &&& thickness == INFINITY_BITS || exists|i: int|
        0 <= i < colliders.len() && !is_nan_bits(thickness) && (
        #[trigger] colliders[i]).ccd_thickness == thickness
    &&& order_key(thickness) <= order_key(INFINITY_BITS)
    &&& forall|i: int|
        0 <= i < colliders.len() && !is_nan_bits((#[trigger] colliders[i]).ccd_thickness)
            ==> order_key(thickness) <= order_key(colliders[i].ccd_thickness)
}

/// Whether a radius is the greatest distance of the colliders, or zero without any. What is not a
/// number does not count.
pub open spec fn is_greatest_distance(radius: u32, colliders: Seq<ColliderSize>) -> bool {
    &&& radius == 0 || exists|i: int|
        0 <= i < colliders.len() && !is_nan_bits(radius) && (
        #[trigger] colliders[i]).distance_to_com == radius
    &&& order_key(0) <= order_key(radius)
    &&& forall|i: int|
        0 <= i < colliders.len() && !is_nan_bits((#[trigger] colliders[i]).distance_to_com)
            ==> order_key(colliders[i].distance_to_com) <= order_key(radius)
}

/// Whether the metrics of a body need an update: its center of mass or one of its colliders changed.
pub fn needs_update(com_changed: bool, colliders_changed: &Vec<bool>) -> (needs: bool)
    ensures
        needs == (com_changed || colliders_changed@.contains(true)),
{
    if com_changed {
        return true;
    }
    let mut i: usize = 0;
    while i < colliders_changed.len()
        invariant
            i <= colliders_changed@.len(),
            forall|k: int| 0 <= k < i ==> !(#[trigger] colliders_changed@[k]),
        decreases colliders_changed@.len() - i,
    {
        if colliders_changed[i] {
            assert(colliders_changed@[i as int] == true);
            return true;
        }
        i = i + 1;
    }
    false
}

/// The metrics of a body with the given colliders: the least thickness and the greatest distance.
pub fn size_metrics(colliders: &Vec<ColliderSize>) -> (metrics: BodySizeMetrics)
    ensures
        is_least_thickness(metrics.ccd_thickness, colliders@),
        is_greatest_distance(metrics.sweep_radius, colliders@),
{
    let mut metrics = BodySizeMetrics::default();
    let mut i: usize = 0;
    while i < colliders.len()
        invariant
            i <= colliders@.len(),
            is_least_thickness(metrics.ccd_thickness, colliders@.take(i as int)),
            is_greatest_distance(metrics.sweep_radius, colliders@.take(i as int)),
        decreases colliders@.len() - i,
    {
        let ghost before = metrics;
        let collider = colliders[i];
        if !is_nan(collider.ccd_thickness) && key_of(collider.ccd_thickness) < key_of(
            metrics.ccd_thickness,
        ) {
            metrics.ccd_thickness = collider.ccd_thickness;
        }
        if !is_nan(collider.distance_to_com) && key_of(metrics.sweep_radius) < key_of(
            collider.distance_to_com,
        ) {
            metrics.sweep_radius = collider.distance_to_com;
        }
        proof {
            let done = colliders@.take(i as int);
            let next = colliders@.take(i + 1);
            assert(next[i as int] == collider);
            assert(forall|k: int| 0 <= k < i ==> #[trigger] next[k] == done[k]);
            if metrics.ccd_thickness == before.ccd_thickness && before.ccd_thickness
                != INFINITY_BITS {
                let k = choose|k: int|
                    0 <= k < done.len() && !is_nan_bits(before.ccd_thickness) && (
                    #[trigger] done[k]).ccd_thickness == before.ccd_thickness;
                assert(next[k].ccd_thickness == before.ccd_thickness);
            }
            if metrics.sweep_radius == before.sweep_radius && before.sweep_radius != 0 {
                let k = choose|k: int|
                    0 <= k < done.len() && !is_nan_bits(before.sweep_radius) && (
                    #[trigger] done[k]).distance_to_com == before.sweep_radius;
                assert(next[k].distance_to_com == before.sweep_radius);
            }
        }
        i = i + 1;
    }
    assert(colliders@.take(i as int) =~= colliders@);
    metrics
}

/// The metrics do not depend on the order of the colliders.
pub proof fn metrics_are_unordered(
    a: BodySizeMetrics,
    b: BodySizeMetrics,
    s: Seq<ColliderSize>,
    t: Seq<ColliderSize>,
)
    requires
        is_least_thickness(a.ccd_thickness, s),
        is_greatest_distance(a.sweep_radius, s),
        is_least_thickness(b.ccd_thickness, t),
        is_greatest_distance(b.sweep_radius, t),
        s.to_multiset() == t.to_multiset(),
    ensures
        a == b,
{
    s.to_multiset_ensures();
    t.to_multiset_ensures();
    lemma_same_members(s, t);
    lemma_same_members(t, s);
    assert(order_key(a.ccd_thickness) <= order_key(b.ccd_thickness)) by {
        lemma_least_below(a, b, s, t);
    }
    assert(order_key(b.ccd_thickness) <= order_key(a.ccd_thickness)) by {
        lemma_least_below(b, a, t, s);
    }
    assert(order_key(a.sweep_radius) >= order_key(b.sweep_radius)) by {
        lemma_greatest_above(a, b, s, t);
    }
    assert(order_key(b.sweep_radius) >= order_key(a.sweep_radius)) by {
        lemma_greatest_above(b, a, t, s);
    }
    crate::float_bits::order_key_injective(a.ccd_thickness, b.ccd_thickness);
    crate::float_bits::order_key_injective(a.sweep_radius, b.sweep_radius);
}

proof fn lemma_same_members(s: Seq<ColliderSize>, t: Seq<ColliderSize>)
    requires
        s.to_multiset() == t.to_multiset(),
    ensures
        forall|c: ColliderSize| s.contains(c) ==> t.contains(c),
{
    s.to_multiset_ensures();
    t.to_multiset_ensures();
    assert forall|c: ColliderSize| s.contains(c) implies t.contains(c) by {
        assert(s.to_multiset().count(c) > 0);
        assert(t.to_multiset().count(c) > 0);
    }
}

proof fn lemma_least_below(
    a: BodySizeMetrics,
    b: BodySizeMetrics,
    s: Seq<ColliderSize>,
    t: Seq<ColliderSize>,
)
    requires
        is_least_thickness(a.ccd_thickness, s),
        is_least_thickness(b.ccd_thickness, t),
        forall|c: ColliderSize| t.contains(c) ==> s.contains(c),
    ensures
        order_key(a.ccd_thickness) <= order_key(b.ccd_thickness),
{
    if b.ccd_thickness != INFINITY_BITS {
        let k = choose|k: int|
            0 <= k < t.len() && !is_nan_bits(b.ccd_thickness) && (#[trigger] t[k]).ccd_thickness
                == b.ccd_thickness;
        assert(t.contains(t[k]));
        let i = s.index_of(t[k]);
        assert(s[i] == t[k]);
    }
}

proof fn lemma_greatest_above(
    a: BodySizeMetrics,
    b: BodySizeMetrics,
    s: Seq<ColliderSize>,
    t: Seq<ColliderSize>,
)
    requires
        is_greatest_distance(a.sweep_radius, s),
        is_greatest_distance(b.sweep_radius, t),
        forall|c: ColliderSize| t.contains(c) ==> s.contains(c),
    ensures
        order_key(a.sweep_radius) >= order_key(b.sweep_radius),
{
    if b.sweep_radius != 0 {
        let k = choose|k: int|
            0 <= k < t.len() && !is_nan_bits(b.sweep_radius) && (#[trigger] t[k]).distance_to_com
                == b.sweep_radius;
        assert(t.contains(t[k]));
        let i = s.index_of(t[k]);
        assert(s[i] == t[k]);
    }
}

/// No collider of a body is thinner than the thickness of the body, which is that of one of them, or
/// infinite. No collider reaches beyond the radius of the body, which is the distance of one of them,
/// or zero.
pub proof fn metrics_bound_the_colliders(
    metrics: BodySizeMetrics,
    colliders: Seq<ColliderSize>,
    i: int,
)
    requires
        is_least_thickness(metrics.ccd_thickness, colliders),
        is_greatest_distance(metrics.sweep_radius, colliders),
        0 <= i < colliders.len(),
    ensures
        !is_above(metrics.ccd_thickness, colliders[i].ccd_thickness),
        !is_above(colliders[i].distance_to_com, metrics.sweep_radius),
        metrics.ccd_thickness == 0x7f80_0000 || exists|k: int|
            0 <= k < colliders.len() && (#[trigger] colliders[k]).ccd_thickness
                == metrics.ccd_thickness,
        metrics.sweep_radius == 0 || exists|k: int|
            0 <= k < colliders.len() && (#[trigger] colliders[k]).distance_to_com
                == metrics.sweep_radius,
        !is_above(metrics.ccd_thickness, 0x7f80_0000),
        !is_above(0, metrics.sweep_radius),
        !is_nan_bits(metrics.ccd_thickness),
        !is_nan_bits(metrics.sweep_radius),
{
    crate::float_bits::numbers_end_at_infinity(0x7f80_0000);
    crate::float_bits::numbers_end_at_infinity(0);
    if metrics.ccd_thickness != INFINITY_BITS {
        let k = choose|k: int|
            0 <= k < colliders.len() && !is_nan_bits(metrics.ccd_thickness) && (
            #[trigger] colliders[k]).ccd_thickness == metrics.ccd_thickness;
        assert(colliders[k].ccd_thickness == metrics.ccd_thickness);
    }
    if metrics.sweep_radius != 0 {
        let k = choose|k: int|
            0 <= k < colliders.len() && !is_nan_bits(metrics.sweep_radius) && (
            #[trigger] colliders[k]).distance_to_com == metrics.sweep_radius;
        assert(colliders[k].distance_to_com == metrics.sweep_radius);
    }
    assert(colliders[i].ccd_thickness == colliders[i].ccd_thickness);
}

/// A body without colliders is infinitely thick, and reaches nowhere.
pub proof fn metrics_without_colliders(metrics: BodySizeMetrics)
    requires
        is_least_thickness(metrics.ccd_thickness, Seq::empty()),
        is_greatest_distance(metrics.sweep_radius, Seq::empty()),
    ensures
        metrics.ccd_thickness == 0x7f80_0000,
        metrics.sweep_radius == 0,
{
}

} // verus!
