use avian_core::bit_vec::BitVec;
use avian_core::collider_tree::aabbs::{
    aabb_margin, moved_collider_aabb, solver_body_aabb, AabbMargin, AabbPlan, TreeCapacities,
};
use avian_core::collider_tree::enlarged::{
    bits_are_places, update_tree_for_moved_proxies, EnlargedProxies, EnlargedProxiesBitVec,
};
use avian_core::collider_tree::events::{
    body_disabled_flag, collider_action, BodyMarkerEvent, ColliderEvent, TreeAction,
};
use avian_core::collider_tree::moved::MovedProxies;
use avian_core::collider_tree::proxy::{
    ColliderTreeProxyKey, ColliderTreeType, CollisionLayers, ProxyId,
};
use avian_core::collider_tree::tree::{ColliderTree, ColliderTrees};
use avian_core::collider_tree::update::{
    add_to_tree, clear_moved_proxies, move_colliders_of_body, move_to_standalone,
    remove_from_tree, set_body_disabled, set_custom_filter, set_layers, set_sensor, update_tree,
    BodyCollider, BodyInfo, ColliderInfo, MovedProxy, TreeUpdate,
};
use avian_core::entity::Entity;
use avian_core::rigid_body::RigidBody;
use avian_core::ticks::ColliderChange;

fn key(id: u32, tree_type: ColliderTreeType) -> ColliderTreeProxyKey {
    ColliderTreeProxyKey::new(ProxyId(id), tree_type)
}

fn dynamic(id: u32) -> ColliderTreeProxyKey {
    key(id, ColliderTreeType::Dynamic)
}

fn info(collider: u32, body: Option<u32>) -> ColliderInfo {
    ColliderInfo {
        collider: Entity::from_raw(collider),
        body: body.map(Entity::from_raw),
        layers: CollisionLayers { memberships: 1, filters: u32::MAX },
        is_sensor: false,
        contact_events: true,
        filter_pairs: false,
    }
}

fn body(rigid_body: RigidBody) -> Option<BodyInfo> {
    Some(BodyInfo { rigid_body, disabled: false })
}

struct Trees {
    trees: ColliderTrees,
    moved: MovedProxies,
}

fn no_trees() -> Trees {
    Trees { trees: ColliderTrees::new(), moved: MovedProxies::new() }
}

impl Trees {
    fn add(
        &mut self,
        info: ColliderInfo,
        body: Option<BodyInfo>,
        key: &mut ColliderTreeProxyKey,
    ) -> TreeUpdate {
        add_to_tree(info, false, body, key, &mut self.trees, &mut self.moved)
    }
}

#[test]
fn moved_proxies_keep_their_order() {
    let mut moved = MovedProxies::default();
    assert!(moved.insert(dynamic(3)));
    assert!(moved.insert(dynamic(1)));
    assert!(moved.insert(key(3, ColliderTreeType::Static)));
    // A key is recorded once.
    assert!(!moved.insert(dynamic(3)));
    assert_eq!(
        *moved.proxies(),
        vec![dynamic(3), dynamic(1), key(3, ColliderTreeType::Static)]
    );
    assert!(moved.contains(dynamic(1)));
    assert!(!moved.contains(dynamic(2)));
    assert!(!moved.contains(key(1, ColliderTreeType::Kinematic)));
}

#[test]
fn last_moved_proxy_takes_the_free_place() {
    let mut moved = MovedProxies::new();
    for i in 0..4 {
        moved.insert(dynamic(i));
    }
    moved.remove(&dynamic(1));
    assert_eq!(*moved.proxies(), vec![dynamic(0), dynamic(3), dynamic(2)]);
    // The one that was moved is still found.
    moved.remove(&dynamic(3));
    assert_eq!(*moved.proxies(), vec![dynamic(0), dynamic(2)]);
    moved.remove(&dynamic(9));
    assert_eq!(*moved.proxies(), vec![dynamic(0), dynamic(2)]);
    moved.remove(&dynamic(2));
    moved.remove(&dynamic(0));
    assert!(moved.proxies().is_empty());
    assert!(!moved.contains(dynamic(0)));
}

#[test]
fn removing_undoes_inserting_a_moved_proxy() {
    let mut moved = MovedProxies::new();
    moved.insert(dynamic(0));
    moved.insert(dynamic(1));
    let before = moved.proxies().clone();
    moved.insert(dynamic(7));
    moved.remove(&dynamic(7));
    assert_eq!(*moved.proxies(), before);
}

#[test]
fn cleared_moved_proxies_can_be_inserted_again() {
    let mut moved = MovedProxies::new();
    moved.insert(dynamic(0));
    moved.clear();
    assert!(moved.proxies().is_empty());
    assert!(!moved.contains(dynamic(0)));
    assert!(moved.insert(dynamic(0)));
}

#[test]
fn trees_by_kind_of_body() {
    assert_eq!(ColliderTreeType::from_body(Some(RigidBody::Dynamic)), ColliderTreeType::Dynamic);
    assert_eq!(
        ColliderTreeType::from_body(Some(RigidBody::Kinematic)),
        ColliderTreeType::Kinematic
    );
    assert_eq!(ColliderTreeType::from_body(Some(RigidBody::Static)), ColliderTreeType::Static);
    assert_eq!(ColliderTreeType::from_body(None), ColliderTreeType::Standalone);
    assert_eq!(aabb_margin(ColliderTreeType::Dynamic), AabbMargin::SizeRelative);
    assert_eq!(aabb_margin(ColliderTreeType::Kinematic), AabbMargin::SizeRelative);
    assert_eq!(aabb_margin(ColliderTreeType::Static), AabbMargin::ContactTolerance);
    assert_eq!(aabb_margin(ColliderTreeType::Standalone), AabbMargin::ContactTolerance);
}

#[test]
fn keys_have_different_numbers() {
    assert_eq!(dynamic(0).number(), 0);
    assert_eq!(key(2, ColliderTreeType::Static).number(), 10);
    assert_ne!(dynamic(1).number(), key(0, ColliderTreeType::Standalone).number());
    assert_eq!(key(2, ColliderTreeType::Static).id(), ProxyId(2));
    assert_eq!(key(2, ColliderTreeType::Static).tree_type(), ColliderTreeType::Static);
}

#[test]
fn collider_joins_the_tree_of_its_body() {
    let mut t = no_trees();
    let mut k = ColliderTreeProxyKey::placeholder();
    let update = t.add(info(10, Some(1)), body(RigidBody::Dynamic), &mut k);
    assert_eq!(k, dynamic(0));
    assert_eq!(update, TreeUpdate::Added { removed: None, added: k });
    let proxy = t.trees.get_proxy(k).unwrap();
    assert_eq!(proxy.collider, Entity::from_raw(10));
    assert_eq!(proxy.body, Some(Entity::from_raw(1)));
    assert!(proxy.flags.contact_events && !proxy.flags.sensor && !proxy.flags.body_disabled);
    assert_eq!(*t.moved.proxies(), vec![k]);
    assert_eq!(*t.trees.tree_for_type(ColliderTreeType::Dynamic).moved_proxies(), vec![ProxyId(0)]);
}

#[test]
fn collider_of_a_missing_body_is_standalone() {
    let mut t = no_trees();
    let mut k = ColliderTreeProxyKey::placeholder();
    t.add(info(10, Some(1)), None, &mut k);
    assert_eq!(k, key(0, ColliderTreeType::Standalone));
    assert_eq!(t.trees.get_proxy(k).unwrap().body, Some(Entity::from_raw(1)));
    let mut k = ColliderTreeProxyKey::placeholder();
    // Without a body, that of another entity does not count.
    t.add(info(11, None), body(RigidBody::Dynamic), &mut k);
    assert_eq!(k, key(1, ColliderTreeType::Standalone));
}

#[test]
fn collider_on_a_body_waits_to_be_attached() {
    let mut t = no_trees();
    let mut k = ColliderTreeProxyKey::placeholder();
    let update = add_to_tree(info(1, None), true, None, &mut k, &mut t.trees, &mut t.moved);
    assert_eq!(update, TreeUpdate::Unchanged);
    assert_eq!(k, ColliderTreeProxyKey::placeholder());
    assert!(t.moved.proxies().is_empty());
}

#[test]
fn collider_in_the_right_tree_stays_there() {
    let mut t = no_trees();
    let mut k = ColliderTreeProxyKey::placeholder();
    t.add(info(10, Some(1)), body(RigidBody::Dynamic), &mut k);
    clear_moved_proxies(&mut t.moved, &mut t.trees);
    let sensor = ColliderInfo { is_sensor: true, ..info(10, Some(1)) };
    let disabled = Some(BodyInfo { rigid_body: RigidBody::Dynamic, disabled: true });
    let update = t.add(sensor, disabled, &mut k);
    assert_eq!(update, TreeUpdate::Resized(dynamic(0)));
    let proxy = t.trees.get_proxy(k).unwrap();
    assert!(proxy.flags.sensor && proxy.flags.body_disabled);
    assert_eq!(*t.moved.proxies(), vec![dynamic(0)]);
    assert_eq!(t.trees.tree_for_type(ColliderTreeType::Dynamic).len(), 1);
}

#[test]
fn collider_moves_between_trees() {
    let mut t = no_trees();
    let mut k = ColliderTreeProxyKey::placeholder();
    t.add(info(10, Some(1)), body(RigidBody::Dynamic), &mut k);
    let update = t.add(info(10, Some(1)), body(RigidBody::Static), &mut k);
    let now = key(0, ColliderTreeType::Static);
    assert_eq!(update, TreeUpdate::Added { removed: Some(dynamic(0)), added: now });
    assert_eq!(k, now);
    assert!(t.trees.get_proxy(dynamic(0)).is_none());
    assert!(t.trees.get_proxy(now).is_some());
    assert_eq!(*t.moved.proxies(), vec![now]);
}

#[test]
fn removing_undoes_adding_a_collider() {
    let mut t = no_trees();
    let mut first = ColliderTreeProxyKey::placeholder();
    t.add(info(9, Some(1)), body(RigidBody::Dynamic), &mut first);
    let mut k = ColliderTreeProxyKey::placeholder();
    t.add(info(10, Some(1)), body(RigidBody::Dynamic), &mut k);
    assert_eq!(remove_from_tree(&mut k, &mut t.trees, &mut t.moved), Some(dynamic(1)));
    assert_eq!(k, ColliderTreeProxyKey::placeholder());
    assert_eq!(t.trees.tree_for_type(ColliderTreeType::Dynamic).len(), 1);
    assert_eq!(*t.moved.proxies(), vec![first]);
    // Nothing happens the second time.
    assert_eq!(remove_from_tree(&mut k, &mut t.trees, &mut t.moved), None);
}

#[test]
fn detached_collider_becomes_standalone() {
    let mut t = no_trees();
    let mut k = ColliderTreeProxyKey::placeholder();
    t.add(info(10, Some(1)), body(RigidBody::Dynamic), &mut k);
    let moved = move_to_standalone(info(10, Some(1)), k, &mut t.trees, &mut t.moved).unwrap();
    assert_eq!(moved, (dynamic(0), key(0, ColliderTreeType::Standalone)));
    let proxy = t.trees.get_proxy(moved.1).unwrap();
    assert_eq!(proxy.body, None);
    assert!(!proxy.flags.body_disabled);
    assert_eq!(*t.moved.proxies(), vec![moved.1]);
    assert_eq!(*t.trees.standalone_tree.moved_proxies(), vec![moved.1.id]);
    // The collider still holds the key of its old proxy, which is not there any more.
    assert_eq!(k, dynamic(0));
    assert!(move_to_standalone(info(10, Some(1)), k, &mut t.trees, &mut t.moved).is_none());
    assert_eq!(t.trees.standalone_tree.len(), 1);
}

#[test]
fn colliders_follow_the_kind_of_their_body() {
    let mut t = no_trees();
    let mut keys = [ColliderTreeProxyKey::placeholder(); 2];
    for (i, k) in keys.iter_mut().enumerate() {
        t.add(info(10 + i as u32, Some(1)), body(RigidBody::Dynamic), k);
    }
    let mut colliders: Vec<Option<BodyCollider>> = vec![
        Some(BodyCollider { info: info(10, Some(1)), proxy_key: keys[0] }),
        None,
        Some(BodyCollider { info: info(11, Some(1)), proxy_key: keys[1] }),
    ];
    move_colliders_of_body(
        Entity::from_raw(1),
        RigidBody::Kinematic,
        true,
        &mut colliders,
        &mut t.trees,
        &mut t.moved,
    );
    assert_eq!(colliders[0].unwrap().proxy_key, key(0, ColliderTreeType::Kinematic));
    assert!(colliders[1].is_none());
    assert_eq!(colliders[2].unwrap().proxy_key, key(1, ColliderTreeType::Kinematic));
    assert_eq!(t.trees.tree_for_type(ColliderTreeType::Dynamic).len(), 0);
    let proxy = t.trees.get_proxy(colliders[2].unwrap().proxy_key).unwrap();
    assert_eq!(proxy.collider, Entity::from_raw(11));
    assert!(proxy.flags.body_disabled);
    assert_eq!(t.moved.proxies().len(), 2);
    // Now they are in the right tree.
    let before = colliders.clone();
    move_colliders_of_body(
        Entity::from_raw(1),
        RigidBody::Kinematic,
        false,
        &mut colliders,
        &mut t.trees,
        &mut t.moved,
    );
    assert_eq!(colliders, before);
}

#[test]
fn colliders_in_the_right_tree_are_passed_over() {
    let mut t = no_trees();
    let mut keys = [ColliderTreeProxyKey::placeholder(); 3];
    let kinds = [RigidBody::Dynamic, RigidBody::Static, RigidBody::Dynamic];
    for (i, k) in keys.iter_mut().enumerate() {
        t.add(info(10 + i as u32, Some(1)), body(kinds[i]), k);
    }
    let mut colliders: Vec<Option<BodyCollider>> = (0..3)
        .map(|i| Some(BodyCollider { info: info(10 + i, Some(1)), proxy_key: keys[i as usize] }))
        .collect();
    move_colliders_of_body(
        Entity::from_raw(1),
        RigidBody::Static,
        false,
        &mut colliders,
        &mut t.trees,
        &mut t.moved,
    );
    let after: Vec<ColliderTreeProxyKey> =
        colliders.iter().map(|collider| collider.unwrap().proxy_key).collect();
    assert_eq!(
        after,
        vec![
            key(1, ColliderTreeType::Static),
            key(0, ColliderTreeType::Static),
            key(2, ColliderTreeType::Static),
        ]
    );
    assert_eq!(t.trees.dynamic_tree.len(), 0);
    assert_eq!(t.trees.static_tree.len(), 3);
    assert_eq!(*t.trees.static_tree.moved_proxies(), vec![ProxyId(0), ProxyId(1), ProxyId(2)]);
}

#[test]
fn disabled_colliders_are_in_no_tree() {
    let enabled = |event| collider_action(event, false, false);
    assert_eq!(enabled(ColliderEvent::Insert), TreeAction::Add);
    assert_eq!(enabled(ColliderEvent::Remove), TreeAction::Remove);
    assert_eq!(enabled(ColliderEvent::Detach), TreeAction::MoveToStandalone);
    assert_eq!(enabled(ColliderEvent::ChangeBodyKind), TreeAction::FollowBody);
    assert_eq!(enabled(ColliderEvent::ChangeProperty), TreeAction::Update);
    for (disabled, collider_disabled) in [(true, false), (false, true), (true, true)] {
        let action = |event| collider_action(event, disabled, collider_disabled);
        assert_eq!(action(ColliderEvent::Insert), TreeAction::Keep);
        assert_eq!(action(ColliderEvent::Remove), TreeAction::Remove);
        assert_eq!(action(ColliderEvent::Detach), TreeAction::Keep);
        assert_eq!(action(ColliderEvent::ChangeBodyKind), TreeAction::Keep);
        assert_eq!(action(ColliderEvent::ChangeProperty), TreeAction::Keep);
    }
}

#[test]
fn colliders_are_enabled_once_nothing_disables_them() {
    // Only the entity was disabled, or only the collider.
    assert_eq!(collider_action(ColliderEvent::EnableEntity, true, false), TreeAction::Add);
    assert_eq!(collider_action(ColliderEvent::EnableCollider, false, true), TreeAction::Add);
    assert_eq!(collider_action(ColliderEvent::DisableEntity, true, false), TreeAction::Remove);
    assert_eq!(collider_action(ColliderEvent::DisableCollider, false, true), TreeAction::Remove);
    // Both were.
    for event in [
        ColliderEvent::EnableEntity,
        ColliderEvent::EnableCollider,
        ColliderEvent::DisableEntity,
        ColliderEvent::DisableCollider,
    ] {
        assert_eq!(collider_action(event, true, true), TreeAction::Keep);
    }
}

#[test]
fn flag_of_disabled_bodies_is_set_and_unset() {
    let mut t = no_trees();
    let mut k = ColliderTreeProxyKey::placeholder();
    t.add(info(10, Some(1)), body(RigidBody::Dynamic), &mut k);
    set_body_disabled(&mut t.trees, &vec![k], body_disabled_flag(BodyMarkerEvent::Insert));
    assert!(t.trees.get_proxy(k).unwrap().flags.body_disabled);
    set_body_disabled(&mut t.trees, &vec![k], body_disabled_flag(BodyMarkerEvent::Remove));
    assert!(!t.trees.get_proxy(k).unwrap().flags.body_disabled);
}

#[test]
fn flags_and_layers_are_updated() {
    let mut t = no_trees();
    let mut k = ColliderTreeProxyKey::placeholder();
    t.add(info(10, Some(1)), body(RigidBody::Dynamic), &mut k);
    set_sensor(&mut t.trees, k, true);
    assert!(t.trees.get_proxy(k).unwrap().flags.sensor);
    set_sensor(&mut t.trees, k, false);
    assert!(!t.trees.get_proxy(k).unwrap().flags.sensor);
    let layers = CollisionLayers { memberships: 4, filters: 2 };
    set_layers(&mut t.trees, k, layers);
    assert_eq!(t.trees.get_proxy(k).unwrap().layers, layers);
    set_custom_filter(&mut t.trees, k, true);
    assert!(t.trees.get_proxy(k).unwrap().flags.custom_filter);
    set_body_disabled(&mut t.trees, &vec![dynamic(8), k], true);
    assert!(t.trees.get_proxy(k).unwrap().flags.body_disabled);
    // The rest stays as it is.
    assert!(t.trees.get_proxy(k).unwrap().flags.contact_events);
    set_sensor(&mut t.trees, dynamic(8), true);
    assert!(t.trees.get_proxy(dynamic(8)).is_none());
}

#[test]
fn moved_proxies_of_a_tree_are_recorded_once() {
    let mut t = no_trees();
    for i in 0..70 {
        let mut k = ColliderTreeProxyKey::placeholder();
        t.add(info(i, Some(1)), body(RigidBody::Dynamic), &mut k);
    }
    clear_moved_proxies(&mut t.moved, &mut t.trees);
    t.moved.insert(dynamic(2));
    let mut bits = BitVec::new(70);
    bits.set(69);
    bits.set(2);
    bits.set(5);
    let tree = t.trees.tree_for_type_mut(ColliderTreeType::Dynamic);
    let proxies = update_tree(ColliderTreeType::Dynamic, tree, &bits, &mut t.moved);
    let expected: Vec<MovedProxy> = [2, 5, 69]
        .iter()
        .map(|&i| MovedProxy { id: ProxyId(i), collider: Entity::from_raw(i) })
        .collect();
    assert_eq!(proxies, expected);
    assert_eq!(*t.moved.proxies(), vec![dynamic(2), dynamic(5), dynamic(69)]);
    assert_eq!(*tree.moved_proxies(), vec![ProxyId(5), ProxyId(69)]);
}

#[test]
fn moved_proxies_are_forgotten() {
    let mut t = no_trees();
    let mut k = ColliderTreeProxyKey::placeholder();
    t.add(info(10, None), None, &mut k);
    clear_moved_proxies(&mut t.moved, &mut t.trees);
    assert!(t.moved.proxies().is_empty());
    assert!(t.trees.tree_for_type(ColliderTreeType::Standalone).moved_proxies().is_empty());
    assert!(t.trees.get_proxy(k).is_some());
}

#[test]
fn records_of_threads_are_combined() {
    let mut bits = EnlargedProxiesBitVec::default();
    bits.clear_and_set_capacity(100);
    bits.mark(100, ProxyId(3));
    bits.mark(100, ProxyId(64));
    assert_eq!(bits.global().count_ones(), 0);
    bits.combine_thread_local();
    assert_eq!(bits.global().ones(), vec![3, 64]);
    // What was recorded before is gone.
    bits.clear_and_set_capacity(100);
    bits.combine_thread_local();
    assert_eq!(bits.global().count_ones(), 0);
    // Places beyond the capacity are recorded too.
    bits.mark(0, ProxyId(5));
    bits.mark(0, ProxyId(500));
    bits.mark(0, ProxyId(5));
    bits.combine_thread_local();
    assert_eq!(bits.global().ones(), vec![5, 500]);
}

#[test]
fn records_need_no_threads() {
    let mut bits = EnlargedProxiesBitVec::new();
    bits.record(ProxyId(70));
    bits.record(ProxyId(3));
    assert_eq!(bits.global().ones(), vec![3, 70]);
    let mut proxies = EnlargedProxies::new();
    proxies.record(dynamic(9));
    assert_eq!(proxies.bit_vec_for_type(ColliderTreeType::Dynamic).global().ones(), vec![9]);
    assert_eq!(proxies.bit_vec_for_type(ColliderTreeType::Static).global().count_ones(), 0);
}

#[test]
fn given_records_are_combined() {
    let mut bits = EnlargedProxiesBitVec::new();
    let (mut a, mut b) = (BitVec::new(10), BitVec::new(200));
    a.set(1);
    b.set(1);
    b.set(199);
    bits.combine(&vec![a, b]);
    assert_eq!(bits.global().ones(), vec![1, 199]);
}

#[test]
fn records_by_tree() {
    let mut proxies = EnlargedProxies::new();
    proxies.bit_vec_for_type_mut(ColliderTreeType::Static).clear_and_set_capacity(10);
    proxies.bit_vec_for_type(ColliderTreeType::Static).mark(10, ProxyId(7));
    for tree_type in [
        ColliderTreeType::Dynamic,
        ColliderTreeType::Kinematic,
        ColliderTreeType::Static,
        ColliderTreeType::Standalone,
    ] {
        proxies.bit_vec_for_type_mut(tree_type).combine_thread_local();
        let expected = if tree_type == ColliderTreeType::Static { vec![7] } else { vec![] };
        assert_eq!(proxies.bit_vec_for_type(tree_type).global().ones(), expected);
    }
}

#[test]
fn tree_follows_the_records_of_threads() {
    let mut t = no_trees();
    for i in 0..3 {
        let mut k = ColliderTreeProxyKey::placeholder();
        t.add(info(i, None), None, &mut k);
    }
    clear_moved_proxies(&mut t.moved, &mut t.trees);
    let mut bits = EnlargedProxiesBitVec::new();
    bits.clear_and_set_capacity(3);
    bits.mark(3, ProxyId(2));
    let tree = &mut t.trees.standalone_tree;
    let update =
        update_tree_for_moved_proxies(ColliderTreeType::Standalone, tree, &mut bits, &mut t.moved)
            .unwrap();
    assert_eq!(update.proxy_count, 3);
    assert_eq!(
        update.proxies,
        vec![MovedProxy { id: ProxyId(2), collider: Entity::from_raw(2) }]
    );
    assert_eq!(*t.moved.proxies(), vec![key(2, ColliderTreeType::Standalone)]);
    // A place without a proxy is refused.
    bits.mark(3, ProxyId(40));
    let update =
        update_tree_for_moved_proxies(ColliderTreeType::Standalone, tree, &mut bits, &mut t.moved);
    assert!(update.is_none());
    assert_eq!(t.moved.proxies().len(), 1);
}

#[test]
fn places_of_a_tree() {
    let mut tree = ColliderTree::new();
    let mut t = no_trees();
    let mut k = ColliderTreeProxyKey::placeholder();
    t.add(info(1, None), None, &mut k);
    let proxy = t.trees.get_proxy(k).unwrap();
    assert_eq!(tree.add_proxy(proxy), ProxyId(0));
    assert_eq!(tree.add_proxy(proxy), ProxyId(1));
    assert_eq!(tree.remove_proxy(ProxyId(0)), Some(proxy));
    assert_eq!(tree.remove_proxy(ProxyId(0)), None);
    assert_eq!(tree.len(), 1);
    assert_eq!(tree.capacity(), 2);
    let mut bits = BitVec::new(2);
    bits.set(1);
    assert!(bits_are_places(&bits, &tree));
    bits.set(0);
    assert!(!bits_are_places(&bits, &tree));
    assert_eq!(tree.add_proxy(proxy), ProxyId(0));
}

#[test]
fn boxes_are_swept_with_speculative_collision() {
    let plan = AabbPlan { swept: false, update_margin: false, margin: AabbMargin::SizeRelative };
    assert_eq!(solver_body_aabb(false, false), plan);
    assert_eq!(solver_body_aabb(true, false), AabbPlan { swept: true, ..plan });
    assert_eq!(solver_body_aabb(false, true), AabbPlan { update_margin: true, ..plan });
}

#[test]
fn boxes_of_unchanged_colliders_stay() {
    let still = ColliderChange { aabb: false, shape: false };
    assert_eq!(moved_collider_aabb(still, ColliderTreeType::Dynamic), None);
    let moved = ColliderChange { aabb: true, shape: false };
    assert_eq!(
        moved_collider_aabb(moved, ColliderTreeType::Static),
        Some(AabbPlan {
            swept: false,
            update_margin: false,
            margin: AabbMargin::ContactTolerance,
        })
    );
    let reshaped = ColliderChange { aabb: true, shape: true };
    assert_eq!(
        moved_collider_aabb(reshaped, ColliderTreeType::Kinematic),
        Some(AabbPlan { swept: false, update_margin: true, margin: AabbMargin::SizeRelative })
    );
}

#[test]
fn records_are_sized_by_the_trees() {
    let mut t = no_trees();
    for i in 0..3 {
        let mut k = ColliderTreeProxyKey::placeholder();
        t.add(info(i, None), None, &mut k);
    }
    let capacities = TreeCapacities::of(&t.trees);
    assert_eq!(capacities.standalone, 3);
    assert_eq!(capacities.for_type(ColliderTreeType::Standalone), 3);
    assert_eq!(capacities.for_type(ColliderTreeType::Dynamic), 0);
    let mut proxies = EnlargedProxies::new();
    proxies.clear_for_all(capacities);
    proxies.mark(capacities, key(1, ColliderTreeType::Standalone));
    proxies.standalone_proxies.combine_thread_local();
    assert_eq!(proxies.standalone_proxies.global().ones(), vec![1]);
    // The records of fixed colliders outlive the update of the solver bodies.
    proxies.clear_for_solver_bodies(capacities);
    assert_eq!(proxies.standalone_proxies.global().ones(), vec![1]);
    proxies.clear_for_all(capacities);
    assert_eq!(proxies.standalone_proxies.global().count_ones(), 0);
}

#[test]
fn every_collider_has_one_proxy() {
    let mut t = no_trees();
    let mut keys = [ColliderTreeProxyKey::placeholder(); 5];
    for (i, k) in keys.iter_mut().enumerate() {
        t.add(info(i as u32, Some(9)), body(RigidBody::Dynamic), k);
    }
    t.add(info(1, Some(9)), body(RigidBody::Static), &mut keys[1]);
    t.add(info(2, Some(9)), body(RigidBody::Dynamic), &mut keys[2]);
    remove_from_tree(&mut keys[3], &mut t.trees, &mut t.moved);
    t.add(info(4, None), None, &mut keys[4]);
    for (i, k) in keys.iter().enumerate() {
        if i == 3 {
            assert_eq!(*k, ColliderTreeProxyKey::placeholder());
            assert!(t.trees.get_proxy(*k).is_none());
        } else {
            assert_eq!(t.trees.get_proxy(*k).unwrap().collider, Entity::from_raw(i as u32));
        }
    }
    let total = t.trees.dynamic_tree.len()
        + t.trees.kinematic_tree.len()
        + t.trees.static_tree.len()
        + t.trees.standalone_tree.len();
    assert_eq!(total, 4);
    // What moved is in a tree.
    for k in t.moved.proxies() {
        assert!(t.trees.get_proxy(*k).is_some());
    }
}
