//! How colliders come into the collider trees, move between them, change, and leave them.

use vstd::prelude::*;

use crate::bit_vec::{ascends_through, BitVec};
use crate::collider_tree::moved::{without_key, MovedProxies};
use crate::collider_tree::proxy::{
    placeholder_key, tree_type_of, ColliderTreeProxy, ColliderTreeProxyFlags, ColliderTreeProxyKey,
    ColliderTreeType, CollisionLayers, ProxyId, PLACEHOLDER_PROXY,
};
use crate::collider_tree::proxy_laws::{inserted_keys_come_last, moved_colliders_show_their_body};
use crate::collider_tree::tree::{ColliderTree, ColliderTrees};
use crate::entity::Entity;
use crate::rigid_body::RigidBody;

verus! {

/// What a collider tree needs to know of a collider.
#[derive(Clone, Copy, Debug, PartialEq, Eq, Structural)]
pub struct ColliderInfo {
    pub collider: Entity,
    /// The body that the collider is attached to, if any.
    pub body: Option<Entity>,
    pub layers: CollisionLayers,
    pub is_sensor: bool,
    pub contact_events: bool,
    /// Whether a user-defined filter decides about pairs with the collider.
    pub filter_pairs: bool,
}

/// What a collider tree needs to know of a body.
#[derive(Clone, Copy, Debug, PartialEq, Eq, Structural)]
pub struct BodyInfo {
    pub rigid_body: RigidBody,
    pub disabled: bool,
}

/// The proxy of a collider.
pub open spec fn proxy_of(info: ColliderInfo, body_disabled: bool) -> ColliderTreeProxy {
    ColliderTreeProxy {
        collider: info.collider,
        body: info.body,
        layers: info.layers,
        flags: ColliderTreeProxyFlags {
            sensor: info.is_sensor,
            body_disabled,
            contact_events: info.contact_events,
            custom_filter: info.filter_pairs,
        },
    }
}

fn make_proxy(info: ColliderInfo, body_disabled: bool) -> (proxy: ColliderTreeProxy)
    ensures
        proxy == proxy_of(info, body_disabled),
{
    ColliderTreeProxy {
        collider: info.collider,
        body: info.body,
        layers: info.layers,
        flags: ColliderTreeProxyFlags {
            sensor: info.is_sensor,
            body_disabled,
            contact_events: info.contact_events,
            custom_filter: info.filter_pairs,
        },
    }
}

/// The tree that a collider belongs to. A body that is not there counts as none.
pub open spec fn target_tree(info: ColliderInfo, body: Option<BodyInfo>) -> ColliderTreeType {
    if info.body is Some && body is Some {
        tree_type_of(Some(body->0.rigid_body))
    } else {
        ColliderTreeType::Standalone
    }
}

/// Whether the body of a collider is disabled.
pub open spec fn is_body_disabled(info: ColliderInfo, body: Option<BodyInfo>) -> bool {
    info.body is Some && body is Some && body->0.disabled
}

/// Keys with one more, unless it is there already.
pub open spec fn with_key(
    keys: Seq<ColliderTreeProxyKey>,
    key: ColliderTreeProxyKey,
) -> Seq<ColliderTreeProxyKey> {
    if keys.contains(key) {
        keys
    } else {
        keys.push(key)
    }
}

/// What a change of a collider did to the proxies, for the hierarchies of bounding boxes to follow.
#[derive(Clone, Copy, Debug, PartialEq, Eq)]
pub enum TreeUpdate {
    /// Nothing changed.
    Unchanged,
    /// The bounding box of a proxy is to be replaced.
    Resized(ColliderTreeProxyKey),
    /// A proxy was added, and before that maybe another one removed.
    Added { removed: Option<ColliderTreeProxyKey>, added: ColliderTreeProxyKey },
}

/// Whether a collider is not to be added to a tree yet: its entity is a body, and it is about to be
/// attached to it.
pub open spec fn awaits_body(
    info: ColliderInfo,
    is_body: bool,
    key: ColliderTreeProxyKey,
) -> bool {
    is_body && info.body is None && key == placeholder_key()
}

/// Whether a collider is in the right tree already.
pub open spec fn stays_in_place(
    info: ColliderInfo,
    body: Option<BodyInfo>,
    key: ColliderTreeProxyKey,
    proxies: Map<ColliderTreeProxyKey, ColliderTreeProxy>,
) -> bool {
    key != placeholder_key() && key.tree_type == target_tree(info, body) && proxies.contains_key(
        key,
    )
}

/// The proxies once that of a collider was replaced by another one.
pub open spec fn proxies_after_adding(
    proxies: Map<ColliderTreeProxyKey, ColliderTreeProxy>,
    key: ColliderTreeProxyKey,
    added: ColliderTreeProxyKey,
    proxy: ColliderTreeProxy,
) -> Map<ColliderTreeProxyKey, ColliderTreeProxy> {
    if key != placeholder_key() {
        proxies.remove(key).insert(added, proxy)
    } else {
        proxies.insert(added, proxy)
    }
}

/// The record of moved proxies once the proxy of a collider was replaced by another one.
pub open spec fn moved_after_adding(
    moved: Seq<ColliderTreeProxyKey>,
    key: ColliderTreeProxyKey,
    added: ColliderTreeProxyKey,
) -> Seq<ColliderTreeProxyKey> {
    if key != placeholder_key() {
        with_key(without_key(moved, key), added)
    } else {
        with_key(moved, added)
    }
}

/// Adds a collider to the tree that it belongs to, or updates it there, and removes it from any
/// other. Called when a collider is added, attached to a body, or enabled.
pub fn add_to_tree(
    info: ColliderInfo,
    is_body: bool,
    body: Option<BodyInfo>,
    proxy_key: &mut ColliderTreeProxyKey,
    trees: &mut ColliderTrees,
    moved_proxies: &mut MovedProxies,
) -> (update: TreeUpdate)
    requires
        old(trees).wf(),
        old(trees).tree(target_tree(info, body)).slots() < PLACEHOLDER_PROXY,
        old(moved_proxies).wf(),
        old(moved_proxies)@.len() < u32::MAX,
    ensures
        final(trees).wf(),
        final(moved_proxies).wf(),
        ({
            let key = *old(proxy_key);
            let target = target_tree(info, body);
            let proxy = proxy_of(info, is_body_disabled(info, body));
            let proxies = old(trees)@;
            let moved = old(moved_proxies)@;
            if awaits_body(info, is_body, key) {
                &&& update == TreeUpdate::Unchanged
                &&& *final(proxy_key) == key
                &&& *final(trees) == *old(trees)
                &&& *final(moved_proxies) == *old(moved_proxies)
            } else if stays_in_place(info, body, key, proxies) {
                &&& update == TreeUpdate::Resized(key)
                &&& *final(proxy_key) == key
                &&& final(trees)@ == proxies.insert(key, proxy)
                &&& final(trees).tree(target).moved() == old(trees).tree(target).moved().push(key.id)
                &&& final(moved_proxies)@ == with_key(moved, key)
                &&& final(trees).tree(target).slots() == old(trees).tree(target).slots()
            } else {
                let added = old(trees).next_key(target);
                &&& !proxies.contains_key(added)
                &&& added != placeholder_key()
                &&& update == TreeUpdate::Added {
                    removed: if key != placeholder_key() && proxies.contains_key(key) {
                        Some(key)
                    } else {
                        None
                    },
                    added,
                }
                &&& *final(proxy_key) == added
                &&& final(trees)@ == proxies_after_adding(proxies, key, added, proxy)
                &&& final(trees).tree(target).moved() == old(trees).tree(target).moved().push(
                    added.id,
                )
                &&& final(moved_proxies)@ == moved_after_adding(moved, key, added)
            }
        }),
        final(trees).same_moved_but(old(trees), target_tree(info, body)),
        final(trees).same_slots_but(old(trees), target_tree(info, body)),
        final(trees).tree(target_tree(info, body)).slots() <= old(trees).tree(
            target_tree(info, body),
        ).slots() + 1,
        // The collider is left out only if it is in no tree and about to be attached to itself.
        update is Unchanged <==> is_body && info.body is None && old(proxy_key).id.0 == 0xffff_ffff
            && old(proxy_key).tree_type is Standalone,
        // Otherwise its proxy shows the collider, in the tree of the kind of its body.
        !(update is Unchanged) ==> {
            let key = *final(proxy_key);
            let proxy = final(trees)@[key];
            &&& final(trees)@.contains_key(key)
            &&& final(moved_proxies)@.contains(key)
            &&& proxy.collider == info.collider
            &&& proxy.body == info.body
            &&& proxy.layers.memberships == info.layers.memberships
            &&& proxy.layers.filters == info.layers.filters
            &&& proxy.flags.sensor == info.is_sensor
            &&& proxy.flags.contact_events == info.contact_events
            &&& proxy.flags.custom_filter == info.filter_pairs
            &&& proxy.flags.body_disabled == (info.body is Some && body is Some
                && body->0.disabled)
            &&& info.body is None || body is None ==> key.tree_type is Standalone
            &&& info.body is Some && body is Some ==> match body->0.rigid_body {
                RigidBody::Dynamic => key.tree_type is Dynamic,
                RigidBody::Kinematic => key.tree_type is Kinematic,
                RigidBody::Static => key.tree_type is Static,
            }
        },
        // No other collider is touched.
        forall|k: ColliderTreeProxyKey|
            k != *old(proxy_key) && k != *final(proxy_key) ==> (#[trigger] final(
                trees)@.contains_key(k) <==> old(trees)@.contains_key(k)) && (old(
                trees)@.contains_key(k) ==> final(trees)@[k] == old(trees)@[k]),
{
    let key = *proxy_key;
    let is_placeholder = key == ColliderTreeProxyKey::placeholder();
    if is_body && info.body.is_none() && is_placeholder {
        return TreeUpdate::Unchanged;
    }
    let (tree_type, body_disabled) = match (info.body, body) {
        (Some(_), Some(body)) => (
            ColliderTreeType::from_body(Some(body.rigid_body)),
            body.disabled,
        ),
        _ => (ColliderTreeType::Standalone, false),
    };
    let proxy = make_proxy(info, body_disabled);
    let mut removed: Option<ColliderTreeProxyKey> = None;
    if !is_placeholder {
        // If the collider is in the right tree already, update the proxy in place.
        if key.tree_type == tree_type && trees.get_proxy(key).is_some() {
            trees.set_proxy(key, proxy);
            moved_proxies.insert(key);
            trees.tree_for_type_mut(tree_type).mark_moved(key.id);
            assert(trees@ =~= old(trees)@.insert(key, proxy));
            proof {
                inserted_keys_come_last(old(moved_proxies)@, key);
            }
            return TreeUpdate::Resized(key);
        }
        if trees.remove_proxy(key) {
            removed = Some(key);
        }
        moved_proxies.remove(&key);
        proof {
            old(moved_proxies).keys_are_unique();
        }
    }
    let added = trees.add_proxy(tree_type, proxy);
    *proxy_key = added;
    moved_proxies.insert(added);
    proof {
        if is_placeholder {
        } else {
            assert(trees@ == old(trees)@.remove(key).insert(added, proxy));
        }
        old(trees).tree(tree_type).lemma_places();
        inserted_keys_come_last(old(moved_proxies)@, added);
        inserted_keys_come_last(without_key(old(moved_proxies)@, key), added);
    }
    TreeUpdate::Added { removed, added }
}

/// Removes a collider from its tree. Called when a collider is removed or disabled. Returns the key
/// of the proxy that was removed, if there was one.
pub fn remove_from_tree(
    proxy_key: &mut ColliderTreeProxyKey,
    trees: &mut ColliderTrees,
    moved_proxies: &mut MovedProxies,
) -> (removed: Option<ColliderTreeProxyKey>)
    requires
        old(trees).wf(),
        old(moved_proxies).wf(),
    ensures
        final(trees).wf(),
        final(moved_proxies).wf(),
        *final(proxy_key) == placeholder_key(),
        removed == if *old(proxy_key) != placeholder_key() && old(trees)@.contains_key(
            *old(proxy_key),
        ) {
            Some(*old(proxy_key))
        } else {
            None
        },
        *old(proxy_key) == placeholder_key() ==> *final(trees) == *old(trees)
            && *final(moved_proxies) == *old(moved_proxies),
        *old(proxy_key) != placeholder_key() ==> final(trees)@ == old(trees)@.remove(
            *old(proxy_key),
        ) && final(moved_proxies)@ == without_key(old(moved_proxies)@, *old(proxy_key)),
        final(trees).same_records(old(trees)),
{
    let key = *proxy_key;
    if key == ColliderTreeProxyKey::placeholder() {
        return None;
    }
    let removed = trees.remove_proxy(key);
    moved_proxies.remove(&key);
    *proxy_key = ColliderTreeProxyKey::placeholder();
    if removed {
        Some(key)
    } else {
        None
    }
}

/// Moves a collider that was detached from its body to the tree of colliders without a body. Returns
/// the keys of the proxy that was removed and of the one that was added, unless the collider was in
/// no tree. The key that the collider holds stays as it is.
pub fn move_to_standalone(
    info: ColliderInfo,
    proxy_key: ColliderTreeProxyKey,
    trees: &mut ColliderTrees,
    moved_proxies: &mut MovedProxies,
) -> (moved: Option<(ColliderTreeProxyKey, ColliderTreeProxyKey)>)
    requires
        old(trees).wf(),
        old(trees).tree(ColliderTreeType::Standalone).slots() < PLACEHOLDER_PROXY,
        old(moved_proxies).wf(),
        old(moved_proxies)@.len() < u32::MAX,
    ensures
        final(trees).wf(),
        final(moved_proxies).wf(),
        moved is Some <==> old(trees)@.contains_key(proxy_key),
        moved is None ==> {
            &&& final(trees)@ == old(trees)@
            &&& final(trees).same_records(old(trees))
            &&& *final(moved_proxies) == *old(moved_proxies)
        },
        moved matches Some(keys) ==> {
            let proxy = proxy_of((ColliderInfo { body: None, ..info }), false);
            &&& keys.0 == proxy_key
            &&& keys.1.tree_type is Standalone
            &&& !(proxy_key.tree_type is Standalone) ==> keys.1 == old(trees).next_key(
                ColliderTreeType::Standalone,
            )
            &&& !old(trees)@.remove(proxy_key).contains_key(keys.1)
            &&& keys.1 != placeholder_key()
            &&& final(trees)@ == old(trees)@.remove(proxy_key).insert(keys.1, proxy)
            &&& final(trees).standalone_tree.moved() == old(trees).standalone_tree.moved().push(
                keys.1.id,
            )
            &&& final(moved_proxies)@ == with_key(
                without_key(old(moved_proxies)@, proxy_key),
                keys.1,
            )
        },
        final(trees).same_moved_but(old(trees), ColliderTreeType::Standalone),
        final(trees).same_slots_but(old(trees), ColliderTreeType::Standalone),
        final(trees).standalone_tree.slots() <= old(trees).standalone_tree.slots() + 1,
        // The new proxy shows the collider, without a body.
        moved matches Some(keys) ==> {
            let proxy = final(trees)@[keys.1];
            &&& final(trees)@.contains_key(keys.1)
            &&& final(moved_proxies)@.contains(keys.1)
            &&& proxy.collider == info.collider
            &&& proxy.body is None
            &&& proxy.layers.memberships == info.layers.memberships
            &&& proxy.layers.filters == info.layers.filters
            &&& proxy.flags.sensor == info.is_sensor
            &&& proxy.flags.contact_events == info.contact_events
            &&& proxy.flags.custom_filter == info.filter_pairs
            &&& !proxy.flags.body_disabled
        },
{
    if !trees.remove_proxy(proxy_key) {
        assert(trees@ =~= old(trees)@);
        return None;
    }
    moved_proxies.remove(&proxy_key);
    let proxy = make_proxy(ColliderInfo { body: None, ..info }, false);
    let added = trees.add_proxy(ColliderTreeType::Standalone, proxy);
    moved_proxies.insert(added);
    proof {
        inserted_keys_come_last(without_key(old(moved_proxies)@, proxy_key), added);
    }
    Some((proxy_key, added))
}

/// A collider of a body whose kind changed, with the key of its proxy.
#[derive(Clone, Copy, Debug, PartialEq, Eq, Structural)]
pub struct BodyCollider {
    pub info: ColliderInfo,
    pub proxy_key: ColliderTreeProxyKey,
}

/// Whether a collider of a body is moved when the kind of the body changes: it is there, and not in
/// the right tree already.
pub open spec fn is_moved(collider: Option<BodyCollider>, tree_type: ColliderTreeType) -> bool {
    collider is Some && collider->0.proxy_key.tree_type != tree_type
}

/// The proxies once those of the first `n` colliders that are to be moved were moved.
pub open spec fn moved_colliders(
    proxies: Map<ColliderTreeProxyKey, ColliderTreeProxy>,
    before: Seq<Option<BodyCollider>>,
    after: Seq<Option<BodyCollider>>,
    body: Entity,
    body_disabled: bool,
    tree_type: ColliderTreeType,
    n: int,
) -> Map<ColliderTreeProxyKey, ColliderTreeProxy>
    decreases n,
{
    if n <= 0 {
        proxies
    } else {
        let rest = moved_colliders(
            proxies,
            before,
            after,
            body,
            body_disabled,
            tree_type,
            n - 1,
        );
        if is_moved(before[n - 1], tree_type) {
            let collider = before[n - 1]->0;
            rest.remove(collider.proxy_key).insert(
                after[n - 1]->0.proxy_key,
                proxy_of((ColliderInfo { body: Some(body), ..collider.info }), body_disabled),
            )
        } else {
            rest
        }
    }
}

/// The record of moved proxies once those of the first `n` colliders that are to be moved were moved.
pub open spec fn moved_keys(
    keys: Seq<ColliderTreeProxyKey>,
    before: Seq<Option<BodyCollider>>,
    after: Seq<Option<BodyCollider>>,
    tree_type: ColliderTreeType,
    n: int,
) -> Seq<ColliderTreeProxyKey>
    decreases n,
{
    if n <= 0 {
        keys
    } else {
        let rest = moved_keys(keys, before, after, tree_type, n - 1);
        if is_moved(before[n - 1], tree_type) {
            with_key(
                without_key(rest, before[n - 1]->0.proxy_key),
                after[n - 1]->0.proxy_key,
            )
        } else {
            rest
        }
    }
}

/// The moved proxies of a tree once those of the first `n` colliders that are to be moved were moved
/// to it.
pub open spec fn moved_places(
    places: Seq<ProxyId>,
    before: Seq<Option<BodyCollider>>,
    after: Seq<Option<BodyCollider>>,
    tree_type: ColliderTreeType,
    n: int,
) -> Seq<ProxyId>
    decreases n,
{
    if n <= 0 {
        places
    } else {
        let rest = moved_places(places, before, after, tree_type, n - 1);
        if is_moved(before[n - 1], tree_type) {
            rest.push(after[n - 1]->0.proxy_key.id)
        } else {
            rest
        }
    }
}

/// Whether a collider of a body is as it should be once the first colliders were moved.
pub open spec fn is_moved_rightly(
    proxies: Map<ColliderTreeProxyKey, ColliderTreeProxy>,
    before: Seq<Option<BodyCollider>>,
    after: Seq<Option<BodyCollider>>,
    body: Entity,
    body_disabled: bool,
    tree_type: ColliderTreeType,
    i: int,
) -> bool {
    if is_moved(before[i], tree_type) {
        &&& after[i] is Some
        &&& after[i]->0.info == before[i]->0.info
        &&& after[i]->0.proxy_key.tree_type == tree_type
        &&& after[i]->0.proxy_key != placeholder_key()
        &&& !moved_colliders(
            proxies,
            before,
            after,
            body,
            body_disabled,
            tree_type,
            i,
        ).contains_key(after[i]->0.proxy_key)
    } else {
        after[i] == before[i]
    }
}

/// Moves the colliders of a body to another tree when the kind of the body changes. Colliders that
/// are not there, or are in the right tree already, are passed over.
pub fn move_colliders_of_body(
    body: Entity,
    rigid_body: RigidBody,
    body_disabled: bool,
    colliders: &mut Vec<Option<BodyCollider>>,
    trees: &mut ColliderTrees,
    moved_proxies: &mut MovedProxies,
)
    requires
        old(trees).wf(),
        old(trees).tree(tree_type_of(Some(rigid_body))).slots() + old(colliders)@.len()
            <= PLACEHOLDER_PROXY,
        old(moved_proxies).wf(),
        old(moved_proxies)@.len() + old(colliders)@.len() <= u32::MAX,
    ensures
        final(trees).wf(),
        final(moved_proxies).wf(),
        final(colliders)@.len() == old(colliders)@.len(),
        ({
            let before = old(colliders)@;
            let after = final(colliders)@;
            let tree_type = tree_type_of(Some(rigid_body));
            let n = before.len() as int;
            &&& forall|i: int|
                0 <= i < n ==> #[trigger] is_moved_rightly(
                    old(trees)@,
                    before,
                    after,
                    body,
                    body_disabled,
                    tree_type,
                    i,
                )
            &&& final(trees)@ == moved_colliders(
                old(trees)@,
                before,
                after,
                body,
                body_disabled,
                tree_type,
                n,
            )
            &&& final(trees).tree(tree_type).moved() == moved_places(
                old(trees).tree(tree_type).moved(),
                before,
                after,
                tree_type,
                n,
            )
            &&& final(moved_proxies)@ == moved_keys(
                old(moved_proxies)@,
                before,
                after,
                tree_type,
                n,
            )
            &&& final(trees).same_moved_but(old(trees), tree_type)
            &&& final(trees).same_slots_but(old(trees), tree_type)
            &&& final(trees).tree(tree_type).slots() <= old(trees).tree(tree_type).slots() + n
        }),
        // Each collider that is there is in the tree of the kind of the body afterwards.
        forall|i: int|
            0 <= i < old(colliders)@.len() && (#[trigger] old(colliders)@[i]) is Some ==> {
                let kind = final(colliders)@[i]->0.proxy_key.tree_type;
                &&& final(colliders)@[i] is Some
                &&& final(colliders)@[i]->0.info == old(colliders)@[i]->0.info
                &&& rigid_body is Dynamic ==> kind is Dynamic
                &&& rigid_body is Kinematic ==> kind is Kinematic
                &&& rigid_body is Static ==> kind is Static
            },
        // The proxies of those that were moved show the collider and the body.
        forall|i: int|
            0 <= i < old(colliders)@.len() && (#[trigger] old(colliders)@[i]) is Some && old(
                colliders)@[i]->0.proxy_key.tree_type != final(
                colliders)@[i]->0.proxy_key.tree_type ==> {
                let key = final(colliders)@[i]->0.proxy_key;
                let info = old(colliders)@[i]->0.info;
                let proxy = final(trees)@[key];
                &&& final(trees)@.contains_key(key)
                &&& proxy.collider == info.collider
                &&& proxy.body == Some(body)
                &&& proxy.layers.memberships == info.layers.memberships
                &&& proxy.layers.filters == info.layers.filters
                &&& proxy.flags.sensor == info.is_sensor
                &&& proxy.flags.contact_events == info.contact_events
                &&& proxy.flags.custom_filter == info.filter_pairs
                &&& proxy.flags.body_disabled == body_disabled
                &&& !final(trees)@.contains_key(old(colliders)@[i]->0.proxy_key)
            },
{
    let ghost before = colliders@;
    let ghost proxies0 = trees@;
    let ghost moved0 = moved_proxies@;
    let tree_type = ColliderTreeType::from_body(Some(rigid_body));
    let ghost places0 = trees.tree(tree_type).moved();
    let mut i: usize = 0;
    while i < colliders.len()
        invariant
            i <= colliders@.len(),
            colliders@.len() == before.len(),
            before.len() + old(trees).tree(tree_type).slots() <= PLACEHOLDER_PROXY,
            moved0.len() + before.len() <= u32::MAX,
            trees.wf(),
            trees.tree(tree_type).slots() <= old(trees).tree(tree_type).slots() + i,
            trees.same_moved_but(old(trees), tree_type),
            trees.same_slots_but(old(trees), tree_type),
            moved_proxies.wf(),
            moved_proxies@.len() <= moved0.len() + i,
            forall|k: int| i <= k < before.len() ==> #[trigger] colliders@[k] == before[k],
            forall|k: int|
                0 <= k < i ==> #[trigger] is_moved_rightly(
                    proxies0,
                    before,
                    colliders@,
                    body,
                    body_disabled,
                    tree_type,
                    k,
                ),
            trees@ == moved_colliders(
                proxies0,
                before,
                colliders@,
                body,
                body_disabled,
                tree_type,
                i as int,
            ),
            trees.tree(tree_type).moved() == moved_places(
                places0,
                before,
                colliders@,
                tree_type,
                i as int,
            ),
            moved_proxies@ == moved_keys(moved0, before, colliders@, tree_type, i as int),
        decreases colliders@.len() - i,
    {
        let ghost colliders1 = colliders@;
        let ghost trees1 = *trees;
        assert(colliders@[i as int] == before[i as int]);
        if let Some(collider) = colliders[i] {
            if tree_type != collider.proxy_key.tree_type {
                trees.remove_proxy(collider.proxy_key);
                moved_proxies.remove(&collider.proxy_key);
                let proxy = make_proxy(
                    ColliderInfo { body: Some(body), ..collider.info },
                    body_disabled,
                );
                let added = trees.add_proxy(tree_type, proxy);
                colliders.set(i, Some(BodyCollider { proxy_key: added, ..collider }));
                moved_proxies.insert(added);
                proof {
                    assert forall|k: int| 0 <= k < i implies #[trigger] is_moved_rightly(
                        proxies0,
                        before,
                        colliders@,
                        body,
                        body_disabled,
                        tree_type,
                        k,
                    ) by {
                        assert(is_moved_rightly(
                            proxies0,
                            before,
                            colliders1,
                            body,
                            body_disabled,
                            tree_type,
                            k,
                        ));
                        lemma_moved_prefix(
                            proxies0,
                            moved0,
                            places0,
                            before,
                            colliders@,
                            colliders1,
                            body,
                            body_disabled,
                            tree_type,
                            k,
                        );
                    }
                    lemma_moved_prefix(
                        proxies0,
                        moved0,
                        places0,
                        before,
                        colliders@,
                        colliders1,
                        body,
                        body_disabled,
                        tree_type,
                        i as int,
                    );
                    assert(is_moved(before[i as int], tree_type));
                    assert forall|t: ColliderTreeType| t != tree_type implies #[trigger] trees.tree(
                        t,
                    ).moved() == old(trees).tree(t).moved() by {
                        assert(trees1.tree(t).moved() == old(trees).tree(t).moved());
                    }
                    assert forall|t: ColliderTreeType| t != tree_type implies #[trigger] trees.tree(
                        t,
                    ).slots() == old(trees).tree(t).slots() by {
                        assert(trees1.tree(t).slots() == old(trees).tree(t).slots());
                    }
                }
            }
        }
        i = i + 1;
    }
    proof {
        moved_colliders_show_their_body(
            proxies0,
            before,
            colliders@,
            body,
            body_disabled,
            tree_type,
            before.len() as int,
        );
    }
}

proof fn lemma_moved_prefix(
    proxies: Map<ColliderTreeProxyKey, ColliderTreeProxy>,
    keys: Seq<ColliderTreeProxyKey>,
    places: Seq<ProxyId>,
    before: Seq<Option<BodyCollider>>,
    a: Seq<Option<BodyCollider>>,
    b: Seq<Option<BodyCollider>>,
    body: Entity,
    body_disabled: bool,
    tree_type: ColliderTreeType,
    n: int,
)
    requires
        forall|k: int| 0 <= k < n ==> #[trigger] a[k] == b[k],
    ensures
        moved_colliders(proxies, before, a, body, body_disabled, tree_type, n) == moved_colliders(
            proxies,
            before,
            b,
            body,
            body_disabled,
            tree_type,
            n,
        ),
        moved_keys(keys, before, a, tree_type, n) == moved_keys(keys, before, b, tree_type, n),
        moved_places(places, before, a, tree_type, n) == moved_places(
            places,
            before,
            b,
            tree_type,
            n,
        ),
    decreases n,
{
    if n > 0 {
        lemma_moved_prefix(
            proxies,
            keys,
            places,
            before,
            a,
            b,
            body,
            body_disabled,
            tree_type,
            n - 1,
        );
        assert(a[n - 1] == b[n - 1]);
    }
}

/// A proxy with its sensor flag set to the given value.
pub open spec fn with_sensor(proxy: ColliderTreeProxy, sensor: bool) -> ColliderTreeProxy {
    ColliderTreeProxy {
        flags: ColliderTreeProxyFlags { sensor, ..proxy.flags },
        ..proxy
    }
}

/// A proxy with other layers.
pub open spec fn with_layers(
    proxy: ColliderTreeProxy,
    layers: CollisionLayers,
) -> ColliderTreeProxy {
    ColliderTreeProxy { layers, ..proxy }
}

/// A proxy with its custom filter flag set to the given value.
pub open spec fn with_custom_filter(
    proxy: ColliderTreeProxy,
    custom_filter: bool,
) -> ColliderTreeProxy {
    ColliderTreeProxy {
        flags: ColliderTreeProxyFlags { custom_filter, ..proxy.flags },
        ..proxy
    }
}

/// A proxy with its flag for a disabled body set to the given value.
pub open spec fn with_body_disabled(
    proxy: ColliderTreeProxy,
    body_disabled: bool,
) -> ColliderTreeProxy {
    ColliderTreeProxy {
        flags: ColliderTreeProxyFlags { body_disabled, ..proxy.flags },
        ..proxy
    }
}

/// Sets the sensor flag of a collider's proxy, if the collider is in a tree. Called when the
/// collider becomes a sensor or ceases to be one.
pub fn set_sensor(trees: &mut ColliderTrees, proxy_key: ColliderTreeProxyKey, sensor: bool)
    requires
        old(trees).wf(),
    ensures
        final(trees).wf(),
        final(trees)@ == if old(trees)@.contains_key(proxy_key) {
            old(trees)@.insert(proxy_key, with_sensor(old(trees)@[proxy_key], sensor))
        } else {
            old(trees)@
        },
        final(trees).same_records(old(trees)),
{
    if let Some(proxy) = trees.get_proxy(proxy_key) {
        let flags = ColliderTreeProxyFlags { sensor, ..proxy.flags };
        trees.set_proxy(proxy_key, ColliderTreeProxy { flags, ..proxy });
    }
}

/// Replaces the layers of a collider's proxy, if the collider is in a tree. Called when the layers
/// of the collider change.
pub fn set_layers(
    trees: &mut ColliderTrees,
    proxy_key: ColliderTreeProxyKey,
    layers: CollisionLayers,
)
    requires
        old(trees).wf(),
    ensures
        final(trees).wf(),
        final(trees)@ == if old(trees)@.contains_key(proxy_key) {
            old(trees)@.insert(proxy_key, with_layers(old(trees)@[proxy_key], layers))
        } else {
            old(trees)@
        },
        final(trees).same_records(old(trees)),
{
    if let Some(proxy) = trees.get_proxy(proxy_key) {
        trees.set_proxy(proxy_key, ColliderTreeProxy { layers, ..proxy });
    }
}

/// Sets the custom filter flag of a collider's proxy, if the collider is in a tree. Called when the
/// collision hooks of the collider change.
pub fn set_custom_filter(
    trees: &mut ColliderTrees,
    proxy_key: ColliderTreeProxyKey,
    custom_filter: bool,
)
    requires
        old(trees).wf(),
    ensures
        final(trees).wf(),
        final(trees)@ == if old(trees)@.contains_key(proxy_key) {
            old(trees)@.insert(proxy_key, with_custom_filter(old(trees)@[proxy_key], custom_filter))
        } else {
            old(trees)@
        },
        final(trees).same_records(old(trees)),
{
    if let Some(proxy) = trees.get_proxy(proxy_key) {
        let flags = ColliderTreeProxyFlags { custom_filter, ..proxy.flags };
        trees.set_proxy(proxy_key, ColliderTreeProxy { flags, ..proxy });
    }
}

/// The proxies once the flag for a disabled body was set for the given keys.
pub open spec fn proxies_with_body_disabled(
    proxies: Map<ColliderTreeProxyKey, ColliderTreeProxy>,
    keys: Seq<ColliderTreeProxyKey>,
    body_disabled: bool,
) -> Map<ColliderTreeProxyKey, ColliderTreeProxy> {
    Map::new(
        |key: ColliderTreeProxyKey| proxies.contains_key(key),
        |key: ColliderTreeProxyKey|
            if keys.contains(key) {
                with_body_disabled(proxies[key], body_disabled)
            } else {
                proxies[key]
            },
    )
}

/// Sets the flag for a disabled body of the proxies of a body's colliders, as far as they are in a
/// tree. Called when the body is disabled or enabled.
pub fn set_body_disabled(
    trees: &mut ColliderTrees,
    proxy_keys: &Vec<ColliderTreeProxyKey>,
    body_disabled: bool,
)
    requires
        old(trees).wf(),
    ensures
        final(trees).wf(),
        final(trees)@ == proxies_with_body_disabled(old(trees)@, proxy_keys@, body_disabled),
        final(trees).same_records(old(trees)),
{
    let mut i: usize = 0;
    assert(trees@ =~= proxies_with_body_disabled(old(trees)@, proxy_keys@.take(0), body_disabled));
    while i < proxy_keys.len()
        invariant
            i <= proxy_keys@.len(),
            trees.wf(),
            trees.same_records(old(trees)),
            trees@ == proxies_with_body_disabled(
                old(trees)@,
                proxy_keys@.take(i as int),
                body_disabled,
            ),
        decreases proxy_keys@.len() - i,
    {
        let proxy_key = proxy_keys[i];
        let ghost before = *trees;
        if let Some(proxy) = trees.get_proxy(proxy_key) {
            let flags = ColliderTreeProxyFlags { body_disabled, ..proxy.flags };
            trees.set_proxy(proxy_key, ColliderTreeProxy { flags, ..proxy });
        }
        proof {
            assert forall|t: ColliderTreeType| #[trigger] trees.tree(t).moved() == old(trees).tree(
                t,
            ).moved() by {
                assert(before.tree(t).moved() == old(trees).tree(t).moved());
            }
            assert forall|t: ColliderTreeType| #[trigger] trees.tree(t).slots() == old(trees).tree(
                t,
            ).slots() by {
                assert(before.tree(t).slots() == old(trees).tree(t).slots());
            }
            let done = proxy_keys@.take(i as int);
            let next = proxy_keys@.take(i + 1);
            assert(next =~= done.push(proxy_key));
            assert forall|key: ColliderTreeProxyKey| next.contains(key) <==> done.contains(key)
                || key == proxy_key by {
                if done.contains(key) {
                    assert(next[done.index_of(key)] == key);
                }
                assert(next[i as int] == proxy_key);
            }
            assert(trees@ =~= proxies_with_body_disabled(old(trees)@, next, body_disabled));
        }
        i = i + 1;
    }
    assert(proxy_keys@.take(i as int) =~= proxy_keys@);
}

/// The record of moved proxies once the first `n` proxies of a tree were added to it.
pub open spec fn with_moved(
    keys: Seq<ColliderTreeProxyKey>,
    tree_type: ColliderTreeType,
    ids: Seq<ProxyId>,
    n: int,
) -> Seq<ColliderTreeProxyKey>
    decreases n,
{
    if n <= 0 {
        keys
    } else {
        with_key(
            with_moved(keys, tree_type, ids, n - 1),
            ColliderTreeProxyKey { id: ids[n - 1], tree_type },
        )
    }
}

/// The moved proxies of a tree once the first `n` given ones were added, unless they were recorded
/// as moved already.
pub open spec fn with_newly_moved(
    moved: Seq<ProxyId>,
    keys: Seq<ColliderTreeProxyKey>,
    tree_type: ColliderTreeType,
    ids: Seq<ProxyId>,
    n: int,
) -> Seq<ProxyId>
    decreases n,
{
    if n <= 0 {
        moved
    } else {
        let rest = with_newly_moved(moved, keys, tree_type, ids, n - 1);
        if keys.contains(ColliderTreeProxyKey { id: ids[n - 1], tree_type }) {
            rest
        } else {
            rest.push(ids[n - 1])
        }
    }
}

/// A proxy whose bounding box is to be set, and the collider that it stands for.
#[derive(Clone, Copy, Debug, PartialEq, Eq)]
pub struct MovedProxy {
    pub id: ProxyId,
    pub collider: Entity,
}

/// The places of moved proxies.
pub open spec fn moved_ids(proxies: Seq<MovedProxy>) -> Seq<ProxyId> {
    Seq::new(proxies.len(), |i: int| proxies[i].id)
}

/// Whether proxies are those of a tree whose bits are set, in ascending order.
pub open spec fn are_proxies_at(
    proxies: Seq<MovedProxy>,
    bits: Set<usize>,
    tree: Map<ProxyId, ColliderTreeProxy>,
) -> bool {
    &&& ascends_through(Seq::new(proxies.len(), |i: int| proxies[i].id.0 as usize), bits)
    &&& forall|i: int|
        0 <= i < proxies.len() ==> (#[trigger] proxies[i]).collider == tree[proxies[i].id].collider
}

/// Records the proxies whose bits are set as moved. Returns them in ascending order, for their
/// bounding boxes to be set.
pub fn update_tree(
    tree_type: ColliderTreeType,
    tree: &mut ColliderTree,
    bit_vec: &BitVec,
    moved_proxies: &mut MovedProxies,
) -> (proxies: Vec<MovedProxy>)
    requires
        old(tree).wf(),
        old(moved_proxies).wf(),
        old(moved_proxies)@.len() + old(tree).slots() <= u32::MAX,
        forall|b: usize| #[trigger]
            bit_vec@.contains(b) ==> b < PLACEHOLDER_PROXY && old(tree)@.contains_key(
                ProxyId(b as u32),
            ),
    ensures
        final(tree).wf(),
        final(moved_proxies).wf(),
        are_proxies_at(proxies@, bit_vec@, old(tree)@),
        final(tree)@ == old(tree)@,
        final(tree).slots() == old(tree).slots(),
        final(tree).next_id() == old(tree).next_id(),
        final(tree).moved() == with_newly_moved(
            old(tree).moved(),
            old(moved_proxies)@,
            tree_type,
            moved_ids(proxies@),
            proxies@.len() as int,
        ),
        final(moved_proxies)@ == with_moved(
            old(moved_proxies)@,
            tree_type,
            moved_ids(proxies@),
            proxies@.len() as int,
        ),
{
    let ones = bit_vec.ones();
    let mut proxies: Vec<MovedProxy> = Vec::new();
    let ghost ids = Seq::new(ones@.len(), |i: int| ProxyId(ones@[i] as u32));
    let mut i: usize = 0;
    while i < ones.len()
        invariant
            i <= ones@.len(),
            ids == Seq::new(ones@.len(), |k: int| ProxyId(ones@[k] as u32)),
            ascends_through(ones@, bit_vec@),
            forall|b: usize| #[trigger]
                bit_vec@.contains(b) ==> b < PLACEHOLDER_PROXY && old(tree)@.contains_key(
                    ProxyId(b as u32),
                ),
            old(tree).wf(),
            tree.wf(),
            tree@ == old(tree)@,
            tree.slots() == old(tree).slots(),
            tree.next_id() == old(tree).next_id(),
            tree.moved() == with_newly_moved(
                old(tree).moved(),
                old(moved_proxies)@,
                tree_type,
                ids,
                i as int,
            ),
            moved_proxies.wf(),
            moved_proxies@ == with_moved(old(moved_proxies)@, tree_type, ids, i as int),
            moved_proxies@.len() <= old(moved_proxies)@.len() + i,
            old(moved_proxies)@.len() + old(tree).slots() <= u32::MAX,
            proxies@.len() == i,
            forall|k: int|
                0 <= k < i ==> (#[trigger] proxies@[k]).id == ids[k] && proxies@[k].collider
                    == old(tree)@[ids[k]].collider,
        decreases ones@.len() - i,
    {
        assert(bit_vec@.contains(ones@[i as int]));
        let id = ProxyId(ones[i] as u32);
        proof {
            old(tree).lemma_places();
            lemma_ascending(ones@, i as int);
            lemma_with_moved(old(moved_proxies)@, tree_type, ids, i as int);
            assert forall|k: int| 0 <= k < i implies ids[k] != id by {
                assert(bit_vec@.contains(ones@[k]));
                assert(ones@[k] < ones@[i as int]);
            }
        }
        // The place is in use.
        if let Some(proxy) = tree.get_proxy(id) {
            proxies.push(MovedProxy { id, collider: proxy.collider });
        }
        if moved_proxies.insert(ColliderTreeProxyKey::new(id, tree_type)) {
            tree.mark_moved(id);
        }
        i = i + 1;
    }
    proof {
        assert(moved_ids(proxies@) =~= ids);
        let places = Seq::new(proxies@.len(), |k: int| proxies@[k].id.0 as usize);
        assert(places =~= ones@) by {
            assert forall|k: int| 0 <= k < ones@.len() implies places[k] == ones@[k] by {
                assert(bit_vec@.contains(ones@[k]));
                assert(proxies@[k].id == ids[k]);
            }
        }
    }
    proxies
}

proof fn lemma_ascending(s: Seq<usize>, i: int)
    requires
        0 <= i < s.len(),
        forall|i: int, j: int| 0 <= i < j < s.len() ==> s[i] < s[j],
    ensures
        i <= s[i],
    decreases i,
{
    if i > 0 {
        lemma_ascending(s, i - 1);
    }
}

proof fn lemma_with_moved(
    keys: Seq<ColliderTreeProxyKey>,
    tree_type: ColliderTreeType,
    ids: Seq<ProxyId>,
    n: int,
)
    requires
        0 <= n <= ids.len(),
    ensures
        forall|key: ColliderTreeProxyKey|
            with_moved(keys, tree_type, ids, n).contains(key) <==> keys.contains(key) || (
            key.tree_type == tree_type && ids.take(n).contains(key.id)),
    decreases n,
{
    if n > 0 {
        lemma_with_moved(keys, tree_type, ids, n - 1);
        let rest = with_moved(keys, tree_type, ids, n - 1);
        let last = ColliderTreeProxyKey { id: ids[n - 1], tree_type };
        let all = with_moved(keys, tree_type, ids, n);
        assert(ids.take(n) =~= ids.take(n - 1).push(ids[n - 1]));
        assert forall|key: ColliderTreeProxyKey|
            all.contains(key) <==> keys.contains(key) || (key.tree_type == tree_type && ids.take(
                n,
            ).contains(key.id)) by {
            assert(ids.take(n)[n - 1] == ids[n - 1]);
            assert(key == last <==> key.id == ids[n - 1] && key.tree_type == tree_type);
            assert(rest.contains(key) <==> keys.contains(key) || (key.tree_type == tree_type
                && ids.take(n - 1).contains(key.id)));
            if rest.contains(key) {
                assert(all[rest.index_of(key)] == key);
            }
            if key == last && !rest.contains(last) {
                assert(all[rest.len() as int] == key);
            }
            if ids.take(n - 1).contains(key.id) {
                assert(ids.take(n)[ids.take(n - 1).index_of(key.id)] == key.id);
            }
            assert(all.contains(key) <==> rest.contains(key) || key == last);
            assert(ids.take(n).contains(key.id) <==> ids.take(n - 1).contains(key.id) || key.id
                == ids[n - 1]);
        }
    }
}

/// Forgets which proxies moved.
pub fn clear_moved_proxies(moved_proxies: &mut MovedProxies, trees: &mut ColliderTrees)
    requires
        old(trees).wf(),
    ensures
        final(trees).wf(),
        final(moved_proxies).wf(),
        final(moved_proxies)@ == Seq::<ColliderTreeProxyKey>::empty(),
        final(trees)@ == old(trees)@,
        forall|tree_type: ColliderTreeType| #[trigger]
            final(trees).tree(tree_type).moved() == Seq::<ProxyId>::empty(),
        forall|tree_type: ColliderTreeType| #[trigger]
            final(trees).tree(tree_type).slots() == old(trees).tree(tree_type).slots(),
{
    moved_proxies.clear();
    trees.dynamic_tree.clear_moved();
    trees.kinematic_tree.clear_moved();
    trees.static_tree.clear_moved();
    trees.standalone_tree.clear_moved();
    assert(trees@ =~= old(trees)@);
}

} // verus!
