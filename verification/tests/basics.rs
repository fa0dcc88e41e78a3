use avian_core::bit_vec::BitVec;
use avian_core::body_size_metrics::{needs_update, size_metrics, BodySizeMetrics, ColliderSize};
use avian_core::entity::Entity;
use avian_core::float_bits::{exceeds, is_nan, key_of, larger};
use avian_core::shapes::polygon_edges;
use avian_core::stable_vec::StableVec;
use avian_core::ticks::{collider_change, is_changed_after_tick, ColliderChange, ComponentChange};

#[test]
fn bits_are_set_and_combined() {
    let mut bits = BitVec::new(100);
    assert_eq!(bits.count_ones(), 0);
    bits.set(0);
    bits.set(63);
    bits.set(64);
    bits.set(127);
    assert!(bits.get(63) && !bits.get(62) && !bits.get(1000));
    assert_eq!(bits.ones(), vec![0, 63, 64, 127]);
    let mut other = BitVec::new(1);
    other.set_and_grow(300);
    bits.or(&other);
    assert_eq!(bits.ones(), vec![0, 63, 64, 127, 300]);
    assert_eq!(bits.count_ones(), 5);
    bits.set_bit_count_and_clear(10);
    assert!(bits.ones().is_empty());
}

#[test]
fn indices_are_stable() {
    let mut vec = StableVec::new();
    assert!(vec.is_empty());
    assert_eq!(vec.push('a'), 0);
    assert_eq!(vec.push('b'), 1);
    assert_eq!(vec.push('c'), 2);
    assert_eq!(vec.remove(1), 'b');
    assert_eq!(vec.get(2), Some(&'c'));
    assert_eq!(vec.get(1), None);
    assert_eq!((vec.len(), vec.slot_count()), (2, 3));
    assert_eq!(vec.next_push_index(), 1);
    assert_eq!(vec.push('d'), 1);
    vec.set(0, 'x');
    *vec.get_mut(1).unwrap() = 'y';
    assert_eq!((vec.get(0), vec.get(1)), (Some(&'x'), Some(&'y')));
    assert!(vec.get_mut(3).is_none());
}

#[test]
fn entities_have_different_numbers() {
    let a = Entity { index: 1, generation: 0 };
    let b = Entity { index: 1, generation: 1 };
    assert_ne!(a.to_bits(), b.to_bits());
    assert_eq!(Entity::from_raw(1), a);
    assert_eq!(b.index_u32(), 1);
}

#[test]
fn changes_are_newer_than_the_last_step() {
    let change = |is_changed, last_changed| ComponentChange { is_changed, last_changed };
    assert!(is_changed_after_tick(change(true, 12), 10, 15));
    assert!(!is_changed_after_tick(change(true, 10), 10, 15));
    assert!(!is_changed_after_tick(change(true, 9), 10, 15));
    assert!(!is_changed_after_tick(change(false, 12), 10, 15));
    // Ticks wrap around.
    assert!(is_changed_after_tick(change(true, 2), u32::MAX, 5));
    assert!(!is_changed_after_tick(change(true, u32::MAX - 1), 2, 5));
    // Nothing is newer than the current tick, and the current tick is newer than any other.
    assert!(!is_changed_after_tick(change(true, 7), 15, 15));
    assert!(is_changed_after_tick(change(true, 15), 14, 15));
}

#[test]
fn old_changes_are_not_told_apart() {
    let change = ComponentChange { is_changed: true, last_changed: 2 };
    assert!(!is_changed_after_tick(change, 1, u32::MAX));
}

#[test]
fn colliders_change_with_their_parts() {
    assert_eq!(collider_change(5, 5, 5, 10, 15), ColliderChange { aabb: false, shape: false });
    assert_eq!(collider_change(12, 5, 5, 10, 15), ColliderChange { aabb: true, shape: false });
    assert_eq!(collider_change(5, 12, 5, 10, 15), ColliderChange { aabb: true, shape: false });
    assert_eq!(collider_change(5, 5, 12, 10, 15), ColliderChange { aabb: true, shape: true });
}

#[test]
fn keys_order_numbers() {
    let numbers = [
        f32::NEG_INFINITY,
        -2.5,
        -1e-40,
        0.0,
        1e-40,
        0.5,
        1.0,
        3.0e10,
        f32::INFINITY,
    ];
    for pair in numbers.windows(2) {
        assert!(key_of(pair[0].to_bits()) < key_of(pair[1].to_bits()));
        assert!(!is_nan(pair[0].to_bits()));
    }
    assert!(is_nan(f32::NAN.to_bits()));
    assert!(is_nan((-f32::NAN).to_bits()));
    assert!(!is_nan(f32::INFINITY.to_bits()));
}

#[test]
fn numbers_are_compared_as_numbers() {
    let numbers =
        [f32::NEG_INFINITY, -2.5, -0.0, 0.0, 1e-40, 0.5, f32::INFINITY, f32::NAN, -f32::NAN];
    for a in numbers {
        for b in numbers {
            assert_eq!(exceeds(a.to_bits(), b.to_bits()), a > b);
            let larger = f32::from_bits(larger(a.to_bits(), b.to_bits()));
            assert!(larger == a.max(b) || (a.is_nan() && b.is_nan() && larger.is_nan()));
        }
    }
}

fn size(thickness: f32, distance: f32) -> ColliderSize {
    ColliderSize { ccd_thickness: thickness.to_bits(), distance_to_com: distance.to_bits() }
}

fn metrics(thickness: f32, radius: f32) -> BodySizeMetrics {
    BodySizeMetrics { ccd_thickness: thickness.to_bits(), sweep_radius: radius.to_bits() }
}

#[test]
fn metrics_of_bodies() {
    assert_eq!(BodySizeMetrics::default(), metrics(f32::INFINITY, 0.0));
    assert_eq!(size_metrics(&vec![]), BodySizeMetrics::default());
    assert_eq!(
        size_metrics(&vec![size(0.5, 2.0), size(0.25, 1.0), size(3.0, 0.5)]),
        metrics(0.25, 2.0)
    );
    // What is not a number does not count.
    assert_eq!(
        size_metrics(&vec![size(f32::NAN, f32::NAN), size(1.0, 1.0)]),
        metrics(1.0, 1.0)
    );
    assert_eq!(size_metrics(&vec![size(-1.0, -1.0)]), metrics(-1.0, 0.0));
}

#[test]
fn metrics_do_not_depend_on_the_order() {
    let (a, b) = (size(0.5, 2.0), size(0.25, 7.0));
    assert_eq!(size_metrics(&vec![a, b]), size_metrics(&vec![b, a]));
}

#[test]
fn metrics_follow_changes() {
    assert!(needs_update(true, &vec![]));
    assert!(!needs_update(false, &vec![]));
    assert!(!needs_update(false, &vec![false, false]));
    assert!(needs_update(false, &vec![false, true]));
}

#[test]
fn edges_of_polygons() {
    assert_eq!(polygon_edges(4), vec![[0, 1], [1, 2], [2, 3]]);
    assert!(polygon_edges(1).is_empty());
}
