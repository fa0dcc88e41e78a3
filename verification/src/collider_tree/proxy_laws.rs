//! What holds of the proxies of colliders, and of the record of those that moved.

use vstd::prelude::*;

use crate::bit_vec::BitVec;
use crate::collider_tree::aabbs::{margin_of, TreeCapacities};
use crate::collider_tree::enlarged::{any_bit, are_places, EnlargedProxies};
use crate::collider_tree::events::{collider_action_of, ColliderEvent};
use crate::collider_tree::moved::without_key;
use crate::collider_tree::proxy::{
    key_number, placeholder_key, tree_type_of, ColliderTreeProxy, ColliderTreeProxyKey,
    ColliderTreeType, CollisionLayers, ProxyId,
};
use crate::collider_tree::tree::{ColliderTree, ColliderTrees};
use crate::collider_tree::update::{
    are_proxies_at, awaits_body, is_body_disabled, is_moved, is_moved_rightly, moved_after_adding,
    moved_colliders, moved_ids, moved_keys, moved_places, proxies_after_adding,
    proxies_with_body_disabled, proxy_of, stays_in_place, target_tree, with_body_disabled,
    with_custom_filter, with_key, with_layers, with_moved, with_newly_moved, with_sensor,
    BodyCollider, BodyInfo, ColliderInfo, MovedProxy,
};
use crate::entity::Entity;
use crate::rigid_body::RigidBody;

verus! {

// Proxies.

/// The proxy of a collider shows the collider, its body, its layers, and its flags.
pub proof fn proxies_show_their_collider(info: ColliderInfo, body_disabled: bool)
    ensures
        proxy_of(info, body_disabled).collider == info.collider,
        proxy_of(info, body_disabled).body == info.body,
        proxy_of(info, body_disabled).layers.memberships == info.layers.memberships,
        proxy_of(info, body_disabled).layers.filters == info.layers.filters,
        proxy_of(info, body_disabled).flags.sensor == info.is_sensor,
        proxy_of(info, body_disabled).flags.contact_events == info.contact_events,
        proxy_of(info, body_disabled).flags.custom_filter == info.filter_pairs,
        proxy_of(info, body_disabled).flags.body_disabled == body_disabled,
{
}

/// A collider belongs to the tree of the kind of its body, and to the one of colliders without a body
/// if it is attached to none, or to one that is not there. Only then, its body cannot be disabled.
pub proof fn colliders_belong_to_the_tree_of_their_body(
    info: ColliderInfo,
    body: BodyInfo,
    kind: RigidBody,
)
    ensures
        target_tree(info, None) is Standalone,
        info.body is None ==> target_tree(info, Some(body)) is Standalone,
        info.body is Some && body.rigid_body is Dynamic ==> target_tree(info, Some(body)) is Dynamic,
        info.body is Some && body.rigid_body is Kinematic ==> target_tree(info, Some(body)) is Kinematic,
        info.body is Some && body.rigid_body is Static ==> target_tree(info, Some(body)) is Static,
        !is_body_disabled(info, None),
        info.body is None ==> !is_body_disabled(info, Some(body)),
        info.body is Some ==> is_body_disabled(info, Some(body)) == body.disabled,
        tree_type_of(None) is Standalone,
        kind is Dynamic ==> tree_type_of(Some(kind)) is Dynamic,
        kind is Kinematic ==> tree_type_of(Some(kind)) is Kinematic,
        kind is Static ==> tree_type_of(Some(kind)) is Static,
{
}

/// A collider that is in no tree yet waits for its body exactly if it is a body itself and not
/// attached yet. One that is in a tree stays in place exactly if the tree is the right one.
pub proof fn colliders_wait_or_stay(
    info: ColliderInfo,
    is_body: bool,
    body: Option<BodyInfo>,
    key: ColliderTreeProxyKey,
    proxies: Map<ColliderTreeProxyKey, ColliderTreeProxy>,
)
    ensures
        ({
            let in_no_tree = key.id.0 == 0xffff_ffff && key.tree_type is Standalone;
            let right = match (info.body, body) {
                (Some(_), Some(b)) => match b.rigid_body {
                    RigidBody::Dynamic => key.tree_type is Dynamic,
                    RigidBody::Kinematic => key.tree_type is Kinematic,
                    RigidBody::Static => key.tree_type is Static,
                },
                _ => key.tree_type is Standalone,
            };
            &&& key == placeholder_key() <==> in_no_tree
            &&& awaits_body(info, is_body, key) <==> is_body && info.body is None && in_no_tree
            &&& stays_in_place(info, body, key, proxies) <==> !in_no_tree && right
                && proxies.contains_key(key)
        }),
{
}

/// Adding a collider replaces its proxy by another one: the old key holds nothing any more, unless it
/// is the new one, the new key holds the proxy, and all other keys hold what they held.
pub proof fn adding_replaces_one_proxy(
    proxies: Map<ColliderTreeProxyKey, ColliderTreeProxy>,
    key: ColliderTreeProxyKey,
    added: ColliderTreeProxyKey,
    proxy: ColliderTreeProxy,
)
    ensures
        ({
            let after = proxies_after_adding(proxies, key, added, proxy);
            let in_no_tree = key.id.0 == 0xffff_ffff && key.tree_type is Standalone;
            &&& after.contains_key(added) && after[added] == proxy
            &&& !in_no_tree && key != added ==> !after.contains_key(key)
            &&& forall|k: ColliderTreeProxyKey|
                #![trigger after.contains_key(k)]
                #![trigger after[k]]
                k != added && (k != key || in_no_tree) ==> (after.contains_key(k)
                    <==> proxies.contains_key(k)) && (proxies.contains_key(k) ==> after[k]
                    == proxies[k])
        }),
{
}

/// Changing the sensor flag, the layers, the filter flag, or the flag for a disabled body of a proxy
/// sets that and nothing else.
pub proof fn setters_change_one_thing(
    proxy: ColliderTreeProxy,
    flag: bool,
    layers: CollisionLayers,
)
    ensures
        ({
            let a = with_sensor(proxy, flag);
            &&& a.flags.sensor == flag
            &&& a.flags.body_disabled == proxy.flags.body_disabled
            &&& a.flags.contact_events == proxy.flags.contact_events
            &&& a.flags.custom_filter == proxy.flags.custom_filter
            &&& a.layers == proxy.layers
            &&& a.collider == proxy.collider
            &&& a.body == proxy.body
        }),
        ({
            let a = with_layers(proxy, layers);
            &&& a.layers.memberships == layers.memberships
            &&& a.layers.filters == layers.filters
            &&& a.flags == proxy.flags
            &&& a.collider == proxy.collider
            &&& a.body == proxy.body
        }),
        ({
            let a = with_custom_filter(proxy, flag);
            &&& a.flags.custom_filter == flag
            &&& a.flags.sensor == proxy.flags.sensor
            &&& a.flags.body_disabled == proxy.flags.body_disabled
            &&& a.flags.contact_events == proxy.flags.contact_events
            &&& a.layers == proxy.layers
            &&& a.collider == proxy.collider
            &&& a.body == proxy.body
        }),
        ({
            let a = with_body_disabled(proxy, flag);
            &&& a.flags.body_disabled == flag
            &&& a.flags.sensor == proxy.flags.sensor
            &&& a.flags.contact_events == proxy.flags.contact_events
            &&& a.flags.custom_filter == proxy.flags.custom_filter
            &&& a.layers == proxy.layers
            &&& a.collider == proxy.collider
            &&& a.body == proxy.body
        }),
{
}

/// Disabling or enabling a body sets the flag of the proxies of its colliders, and nothing else of
/// these or other proxies.
pub proof fn disabling_a_body_flags_its_colliders(
    proxies: Map<ColliderTreeProxyKey, ColliderTreeProxy>,
    keys: Seq<ColliderTreeProxyKey>,
    body_disabled: bool,
)
    ensures
        ({
            let after = proxies_with_body_disabled(proxies, keys, body_disabled);
            &&& after.dom() == proxies.dom()
            &&& forall|k: ColliderTreeProxyKey|
                proxies.contains_key(k) ==> {
                    &&& keys.contains(k) ==> (#[trigger] after[k]).flags.body_disabled
                        == body_disabled
                    &&& !keys.contains(k) ==> after[k].flags.body_disabled
                        == proxies[k].flags.body_disabled
                    &&& after[k].flags.sensor == proxies[k].flags.sensor
                    &&& after[k].flags.contact_events == proxies[k].flags.contact_events
                    &&& after[k].flags.custom_filter == proxies[k].flags.custom_filter
                    &&& after[k].layers == proxies[k].layers
                    &&& after[k].collider == proxies[k].collider
                    &&& after[k].body == proxies[k].body
                }
        }),
{
    assert(proxies_with_body_disabled(proxies, keys, body_disabled).dom() =~= proxies.dom());
}

// Moving the colliders of a body.

/// When the kind of a body changes, each of its colliders that is there and in another tree gets a
/// new proxy in the tree of the kind: with the collider, the body, the layers, and the flags. The
/// others keep the key that they have.
pub proof fn moved_colliders_show_their_body(
    proxies: Map<ColliderTreeProxyKey, ColliderTreeProxy>,
    before: Seq<Option<BodyCollider>>,
    after: Seq<Option<BodyCollider>>,
    body: Entity,
    body_disabled: bool,
    tree_type: ColliderTreeType,
    n: int,
)
    requires
        0 <= n <= before.len(),
        forall|i: int|
            0 <= i < n ==> #[trigger] is_moved_rightly(
                proxies,
                before,
                after,
                body,
                body_disabled,
                tree_type,
                i,
            ),
    ensures
        ({
            let now = moved_colliders(proxies, before, after, body, body_disabled, tree_type, n);
            &&& forall|i: int|
                0 <= i < n && (#[trigger] before[i]) is Some && before[i]->0.proxy_key.tree_type
                    != tree_type ==> {
                    let key = after[i]->0.proxy_key;
                    let info = before[i]->0.info;
                    &&& after[i] is Some
                    &&& after[i]->0.info == info
                    &&& key.tree_type == tree_type
                    &&& now.contains_key(key)
                    &&& now[key].collider == info.collider
                    &&& now[key].body == Some(body)
                    &&& now[key].layers.memberships == info.layers.memberships
                    &&& now[key].layers.filters == info.layers.filters
                    &&& now[key].flags.sensor == info.is_sensor
                    &&& now[key].flags.contact_events == info.contact_events
                    &&& now[key].flags.custom_filter == info.filter_pairs
                    &&& now[key].flags.body_disabled == body_disabled
                    &&& !now.contains_key(before[i]->0.proxy_key)
                }
            &&& forall|i: int|
                0 <= i < n && ((#[trigger] before[i]) is None || before[i]->0.proxy_key.tree_type
                    == tree_type) ==> after[i] == before[i]
        }),
    decreases n,
{
    if n > 0 {
        let last = n - 1;
        moved_colliders_show_their_body(
            proxies,
            before,
            after,
            body,
            body_disabled,
            tree_type,
            last,
        );
        let rest = moved_colliders(proxies, before, after, body, body_disabled, tree_type, last);
        let now = moved_colliders(proxies, before, after, body, body_disabled, tree_type, n);
        assert(is_moved_rightly(
            proxies,
            before,
            after,
            body,
            body_disabled,
            tree_type,
            last,
        ));
        assert forall|i: int|
            0 <= i < n && (#[trigger] before[i]) is Some && before[i]->0.proxy_key.tree_type
                != tree_type implies {
            let key = after[i]->0.proxy_key;
            let info = before[i]->0.info;
            &&& after[i] is Some
            &&& after[i]->0.info == info
            &&& key.tree_type == tree_type
            &&& now.contains_key(key)
            &&& now[key].collider == info.collider
            &&& now[key].body == Some(body)
            &&& now[key].layers.memberships == info.layers.memberships
            &&& now[key].layers.filters == info.layers.filters
            &&& now[key].flags.sensor == info.is_sensor
            &&& now[key].flags.contact_events == info.contact_events
            &&& now[key].flags.custom_filter == info.filter_pairs
            &&& now[key].flags.body_disabled == body_disabled
            &&& !now.contains_key(before[i]->0.proxy_key)
        } by {
            if is_moved(before[last], tree_type) {
                let added = after[last]->0.proxy_key;
                assert(added.tree_type == tree_type);
                if i < last {
                    assert(rest.contains_key(after[i]->0.proxy_key));
                    assert(!rest.contains_key(before[i]->0.proxy_key));
                }
            }
        }
    }
}

/// When the kind of a body changes, no other proxies change than those of its colliders.
pub proof fn moving_colliders_leaves_the_others(
    proxies: Map<ColliderTreeProxyKey, ColliderTreeProxy>,
    before: Seq<Option<BodyCollider>>,
    after: Seq<Option<BodyCollider>>,
    body: Entity,
    body_disabled: bool,
    tree_type: ColliderTreeType,
    n: int,
    key: ColliderTreeProxyKey,
)
    requires
        0 <= n <= before.len(),
        forall|i: int|
            0 <= i < n && (#[trigger] before[i]) is Some && before[i]->0.proxy_key.tree_type
                != tree_type ==> before[i]->0.proxy_key != key && after[i]->0.proxy_key != key,
    ensures
        ({
            let now = moved_colliders(proxies, before, after, body, body_disabled, tree_type, n);
            &&& now.contains_key(key) <==> proxies.contains_key(key)
            &&& proxies.contains_key(key) ==> now[key] == proxies[key]
        }),
    decreases n,
{
    if n > 0 {
        assert(before[n - 1] is Some || before[n - 1] is None);
        moving_colliders_leaves_the_others(
            proxies,
            before,
            after,
            body,
            body_disabled,
            tree_type,
            n - 1,
            key,
        );
    }
}

/// When the kind of a body changes, the new proxies of its colliders are recorded as moved, and the
/// old ones no longer. Nothing else changes in the record.
pub proof fn moved_colliders_are_recorded(
    keys: Seq<ColliderTreeProxyKey>,
    before: Seq<Option<BodyCollider>>,
    after: Seq<Option<BodyCollider>>,
    tree_type: ColliderTreeType,
    n: int,
    key: ColliderTreeProxyKey,
)
    requires
        0 <= n <= before.len(),
        keys.no_duplicates(),
        forall|i: int|
            0 <= i < n && (#[trigger] before[i]) is Some && before[i]->0.proxy_key.tree_type
                != tree_type ==> after[i]->0.proxy_key.tree_type == tree_type,
    ensures
        moved_keys(keys, before, after, tree_type, n).no_duplicates(),
        key.tree_type == tree_type ==> (moved_keys(keys, before, after, tree_type, n).contains(key)
            <==> keys.contains(key) || exists|i: int|
            0 <= i < n && (#[trigger] before[i]) is Some && before[i]->0.proxy_key.tree_type
                != tree_type && after[i]->0.proxy_key == key),
        key.tree_type != tree_type ==> (moved_keys(keys, before, after, tree_type, n).contains(key)
            <==> keys.contains(key) && !exists|i: int|
            0 <= i < n && (#[trigger] before[i]) is Some && before[i]->0.proxy_key == key),
    decreases n,
{
    if n > 0 {
        let last = n - 1;
        moved_colliders_are_recorded(keys, before, after, tree_type, last, key);
        let rest = moved_keys(keys, before, after, tree_type, last);
        let now = moved_keys(keys, before, after, tree_type, n);
        if is_moved(before[last], tree_type) {
            assert(before[last] is Some);
            let old_key = before[last]->0.proxy_key;
            let added = after[last]->0.proxy_key;
            removed_keys_give_way_to_the_last(rest, old_key);
            inserted_keys_come_last(without_key(rest, old_key), added);
            assert(now.contains(key) <==> (rest.contains(key) && key != old_key) || key == added);
        } else {
            assert(now == rest);
        }
        if exists|i: int|
            0 <= i < n && (#[trigger] before[i]) is Some && before[i]->0.proxy_key.tree_type
                != tree_type && after[i]->0.proxy_key == key {
            let i = choose|i: int|
                0 <= i < n && (#[trigger] before[i]) is Some && before[i]->0.proxy_key.tree_type
                    != tree_type && after[i]->0.proxy_key == key;
            if i < last {
                assert(before[i] is Some);
            } else {
                assert(is_moved(before[last], tree_type));
            }
        }
        if key.tree_type != tree_type && (exists|i: int|
            0 <= i < n && (#[trigger] before[i]) is Some && before[i]->0.proxy_key == key) {
            let i = choose|i: int|
                0 <= i < n && (#[trigger] before[i]) is Some && before[i]->0.proxy_key == key;
            if i == last {
                assert(is_moved(before[last], tree_type));
            }
        }
    }
}

/// When the kind of a body changes, the new places of its colliders are appended to those that moved
/// in the tree, in the order of the colliders.
pub proof fn moved_colliders_are_listed_in_order(
    places: Seq<ProxyId>,
    before: Seq<Option<BodyCollider>>,
    after: Seq<Option<BodyCollider>>,
    tree_type: ColliderTreeType,
    n: int,
) -> (which: Seq<int>)
    requires
        0 <= n <= before.len(),
    ensures
        forall|k: int, l: int|
            0 <= k < l < which.len() ==> #[trigger] which[k] < #[trigger] which[l],
        forall|i: int| #[trigger]
            which.contains(i) <==> 0 <= i < n && before[i] is Some
                && before[i]->0.proxy_key.tree_type != tree_type,
        ({
            let now = moved_places(places, before, after, tree_type, n);
            &&& now.len() == places.len() + which.len()
            &&& now.take(places.len() as int) == places
            &&& forall|k: int|
                0 <= k < which.len() ==> #[trigger] now.skip(places.len() as int)[k]
                    == after[which[k]]->0.proxy_key.id
        }),
    decreases n,
{
    let now = moved_places(places, before, after, tree_type, n);
    if n == 0 {
        assert(now.take(places.len() as int) =~= places);
        Seq::empty()
    } else {
        let last = n - 1;
        let rest = moved_colliders_are_listed_in_order(places, before, after, tree_type, last);
        let then = moved_places(places, before, after, tree_type, last);
        let taken = is_moved(before[last], tree_type);
        let which = if taken {
            rest.push(last)
        } else {
            rest
        };
        lemma_places(rest, which, last, taken);
        assert forall|k: int, l: int| 0 <= k < l < which.len() implies #[trigger] which[k]
            < #[trigger] which[l] by {
            assert(rest.contains(rest[k]));
        }
        assert(now.take(places.len() as int) =~= then.take(places.len() as int));
        assert forall|k: int| 0 <= k < which.len() implies #[trigger] now.skip(
            places.len() as int,
        )[k] == after[which[k]]->0.proxy_key.id by {
            if k < rest.len() {
                assert(then.skip(places.len() as int)[k] == after[rest[k]]->0.proxy_key.id);
            }
        }
        which
    }
}

proof fn lemma_places(rest: Seq<int>, places: Seq<int>, last: int, taken: bool)
    requires
        places == if taken {
            rest.push(last)
        } else {
            rest
        },
    ensures
        forall|i: int| #[trigger]
            places.contains(i) <==> rest.contains(i) || (taken && i == last),
{
    assert forall|i: int| rest.contains(i) || (taken && i == last) implies #[trigger] places.contains(
    i) by {
        if rest.contains(i) {
            let k = choose|k: int| 0 <= k < rest.len() && rest[k] == i;
            assert(places[k] == i);
        } else {
            assert(places[rest.len() as int] == i);
        }
    }
}

// The record of moved proxies.

/// A key that is recorded as moved comes last, unless it was recorded already.
pub proof fn inserted_keys_come_last(keys: Seq<ColliderTreeProxyKey>, key: ColliderTreeProxyKey)
    ensures
        keys.contains(key) ==> with_key(keys, key) == keys,
        !keys.contains(key) ==> with_key(keys, key) == keys.push(key),
        forall|k: ColliderTreeProxyKey| #[trigger]
            with_key(keys, key).contains(k) <==> keys.contains(k) || k == key,
        keys.no_duplicates() ==> with_key(keys, key).no_duplicates(),
{
    let after = with_key(keys, key);
    assert forall|k: ColliderTreeProxyKey| #[trigger] after.contains(k) <==> keys.contains(k) || k
        == key by {
        if keys.contains(k) {
            let n = choose|n: int| 0 <= n < keys.len() && keys[n] == k;
            assert(after[n] == k);
        }
        if k == key && !keys.contains(key) {
            assert(after[keys.len() as int] == k);
        }
    }
    if keys.no_duplicates() && !keys.contains(key) {
        assert forall|i: int, j: int|
            0 <= i < after.len() && 0 <= j < after.len() && i != j implies after[i] != after[j] by {
            if i == keys.len() {
                assert(keys.contains(keys[j]));
            }
            if j == keys.len() {
                assert(keys.contains(keys[i]));
            }
        }
    }
}

/// When a key is taken off the record, the last one takes its place, and the others stay where they
/// are.
pub proof fn removed_keys_give_way_to_the_last(
    keys: Seq<ColliderTreeProxyKey>,
    key: ColliderTreeProxyKey,
)
    requires
        keys.no_duplicates(),
    ensures
        !keys.contains(key) ==> without_key(keys, key) == keys,
        keys.contains(key) ==> without_key(keys, key).len() == keys.len() - 1,
        forall|i: int|
            0 <= i < keys.len() - 1 && keys.contains(key) ==> #[trigger] without_key(keys, key)[i]
                == if keys[i] == key {
                keys[keys.len() - 1]
            } else {
                keys[i]
            },
        forall|k: ColliderTreeProxyKey| #[trigger]
            without_key(keys, key).contains(k) <==> keys.contains(k) && k != key,
        without_key(keys, key).no_duplicates(),
{
    let after = without_key(keys, key);
    if keys.contains(key) {
        let at = keys.index_of(key);
        assert(keys[at] == key);
        assert forall|k: ColliderTreeProxyKey| #[trigger] after.contains(k) <==> keys.contains(k)
            && k != key by {
            if keys.contains(k) && k != key {
                let n = choose|n: int| 0 <= n < keys.len() && keys[n] == k;
                if n < keys.len() - 1 {
                    assert(after[n] == k);
                } else {
                    assert(after[at] == k);
                }
            }
            if after.contains(k) {
                let n = choose|n: int| 0 <= n < after.len() && after[n] == k;
                if n == at {
                    assert(keys[keys.len() - 1] == k);
                } else {
                    assert(keys[n] == k);
                }
            }
        }
    }
}

/// When the proxy of a collider is replaced, the new one is recorded as moved, and the old one no
/// longer.
pub proof fn added_colliders_are_recorded(
    keys: Seq<ColliderTreeProxyKey>,
    key: ColliderTreeProxyKey,
    added: ColliderTreeProxyKey,
)
    requires
        keys.no_duplicates(),
    ensures
        ({
            let in_no_tree = key.id.0 == 0xffff_ffff && key.tree_type is Standalone;
            let after = moved_after_adding(keys, key, added);
            &&& after.no_duplicates()
            &&& forall|k: ColliderTreeProxyKey| #[trigger]
                after.contains(k) <==> k == added || (keys.contains(k) && (k != key || in_no_tree))
        }),
{
    removed_keys_give_way_to_the_last(keys, key);
    inserted_keys_come_last(keys, added);
    inserted_keys_come_last(without_key(keys, key), added);
}

/// The proxies that moved in a tree are recorded once each, behind those that were recorded before,
/// in the order given.
pub proof fn moved_proxies_are_recorded(
    keys: Seq<ColliderTreeProxyKey>,
    tree_type: ColliderTreeType,
    ids: Seq<ProxyId>,
    n: int,
) -> (which: Seq<int>)
    requires
        0 <= n <= ids.len(),
        ids.no_duplicates(),
    ensures
        forall|k: int, l: int|
            0 <= k < l < which.len() ==> #[trigger] which[k] < #[trigger] which[l],
        forall|i: int| #[trigger]
            which.contains(i) <==> 0 <= i < n && !keys.contains(
                ColliderTreeProxyKey { id: ids[i], tree_type },
            ),
        ({
            let now = with_moved(keys, tree_type, ids, n);
            &&& now.len() == keys.len() + which.len()
            &&& now.take(keys.len() as int) == keys
            &&& forall|k: int|
                0 <= k < which.len() ==> (#[trigger] now.skip(keys.len() as int)[k]).id
                    == ids[which[k]] && now.skip(keys.len() as int)[k].tree_type == tree_type
        }),
    decreases n,
{
    let now = with_moved(keys, tree_type, ids, n);
    if n == 0 {
        assert(now.take(keys.len() as int) =~= keys);
        Seq::empty()
    } else {
        let last = n - 1;
        let rest = moved_proxies_are_recorded(keys, tree_type, ids, last);
        let then = with_moved(keys, tree_type, ids, last);
        let key = ColliderTreeProxyKey { id: ids[last], tree_type };
        let taken = !keys.contains(key);
        assert(then.contains(key) <==> keys.contains(key)) by {
            if keys.contains(key) {
                let m = choose|m: int| 0 <= m < keys.len() && keys[m] == key;
                assert(then.take(keys.len() as int)[m] == key);
                assert(then[m] == key);
            }
            if then.contains(key) {
                let m = choose|m: int| 0 <= m < then.len() && then[m] == key;
                if m < keys.len() {
                    assert(then.take(keys.len() as int)[m] == key);
                    assert(keys[m] == key);
                } else {
                    let k = m - keys.len();
                    assert(then.skip(keys.len() as int)[k] == key);
                    assert(rest.contains(rest[k]));
                    assert(ids[rest[k]] == ids[last]);
                }
            }
        }
        let which = if taken {
            rest.push(last)
        } else {
            rest
        };
        lemma_places(rest, which, last, taken);
        assert forall|k: int, l: int| 0 <= k < l < which.len() implies #[trigger] which[k]
            < #[trigger] which[l] by {
            assert(rest.contains(rest[k]));
        }
        assert(now.take(keys.len() as int) =~= then.take(keys.len() as int));
        assert forall|k: int| 0 <= k < which.len() implies (#[trigger] now.skip(
            keys.len() as int,
        )[k]).id == ids[which[k]] && now.skip(keys.len() as int)[k].tree_type == tree_type by {
            if k < rest.len() {
                assert(then.skip(keys.len() as int)[k].id == ids[rest[k]]);
            }
        }
        which
    }
}

/// The proxies of a tree that moved are listed behind those that moved before, in the order given,
/// unless they were recorded as moved already.
pub proof fn newly_moved_proxies_are_listed(
    moved: Seq<ProxyId>,
    keys: Seq<ColliderTreeProxyKey>,
    tree_type: ColliderTreeType,
    ids: Seq<ProxyId>,
    n: int,
) -> (which: Seq<int>)
    requires
        0 <= n <= ids.len(),
    ensures
        forall|k: int, l: int|
            0 <= k < l < which.len() ==> #[trigger] which[k] < #[trigger] which[l],
        forall|i: int| #[trigger]
            which.contains(i) <==> 0 <= i < n && !keys.contains(
                ColliderTreeProxyKey { id: ids[i], tree_type },
            ),
        ({
            let now = with_newly_moved(moved, keys, tree_type, ids, n);
            &&& now.len() == moved.len() + which.len()
            &&& now.take(moved.len() as int) == moved
            &&& forall|k: int|
                0 <= k < which.len() ==> #[trigger] now.skip(moved.len() as int)[k] == ids[which[k]]
        }),
    decreases n,
{
    let now = with_newly_moved(moved, keys, tree_type, ids, n);
    if n == 0 {
        assert(now.take(moved.len() as int) =~= moved);
        Seq::empty()
    } else {
        let last = n - 1;
        let rest = newly_moved_proxies_are_listed(moved, keys, tree_type, ids, last);
        let then = with_newly_moved(moved, keys, tree_type, ids, last);
        let taken = !keys.contains(ColliderTreeProxyKey { id: ids[last], tree_type });
        let which = if taken {
            rest.push(last)
        } else {
            rest
        };
        lemma_places(rest, which, last, taken);
        assert forall|k: int, l: int| 0 <= k < l < which.len() implies #[trigger] which[k]
            < #[trigger] which[l] by {
            assert(rest.contains(rest[k]));
        }
        assert(now.take(moved.len() as int) =~= then.take(moved.len() as int));
        assert forall|k: int| 0 <= k < which.len() implies #[trigger] now.skip(
            moved.len() as int,
        )[k] == ids[which[k]] by {
            if k < rest.len() {
                assert(then.skip(moved.len() as int)[k] == ids[rest[k]]);
            }
        }
        which
    }
}

/// The proxies that moved are those at the places whose bits are set, each once and by ascending
/// place, with the colliders that they stand for.
pub proof fn moved_proxies_are_those_marked(
    proxies: Seq<MovedProxy>,
    bits: Set<usize>,
    tree: Map<ProxyId, ColliderTreeProxy>,
)
    requires
        are_proxies_at(proxies, bits, tree),
    ensures
        forall|b: usize| #[trigger]
            bits.contains(b) <==> exists|i: int|
                0 <= i < proxies.len() && (#[trigger] proxies[i]).id.0 as usize == b,
        forall|i: int, j: int|
            0 <= i < j < proxies.len() ==> (#[trigger] proxies[i]).id.0 < (
            #[trigger] proxies[j]).id.0,
        forall|i: int|
            0 <= i < proxies.len() ==> (#[trigger] proxies[i]).collider
                == tree[proxies[i].id].collider,
        moved_ids(proxies).len() == proxies.len(),
        moved_ids(proxies).no_duplicates(),
        forall|i: int| 0 <= i < proxies.len() ==> #[trigger] moved_ids(proxies)[i] == proxies[i].id,
{
    let places = Seq::new(proxies.len(), |i: int| proxies[i].id.0 as usize);
    assert forall|b: usize| #[trigger] bits.contains(b) <==> exists|i: int|
        0 <= i < proxies.len() && (#[trigger] proxies[i]).id.0 as usize == b by {
        if bits.contains(b) {
            assert(places.contains(b));
            let i = choose|i: int| 0 <= i < places.len() && places[i] == b;
            assert(proxies[i].id.0 as usize == b);
        }
        if exists|i: int| 0 <= i < proxies.len() && (#[trigger] proxies[i]).id.0 as usize == b {
            let i = choose|i: int|
                0 <= i < proxies.len() && (#[trigger] proxies[i]).id.0 as usize == b;
            assert(bits.contains(places[i]));
        }
    }
    assert forall|i: int, j: int| 0 <= i < j < proxies.len() implies (#[trigger] proxies[i]).id.0 < (
    #[trigger] proxies[j]).id.0 by {
        assert(places[i] < places[j]);
    }
    let ids = moved_ids(proxies);
    assert forall|i: int, j: int| 0 <= i < ids.len() && 0 <= j < ids.len() && i != j implies ids[i]
        != ids[j] by {
        if i < j {
            assert(proxies[i].id.0 < proxies[j].id.0);
        } else {
            assert(proxies[j].id.0 < proxies[i].id.0);
        }
    }
}

// Trees by kind.

/// What holds for the tree of a kind holds for the tree of that name. A key finds the proxy at its
/// place in the tree of its kind.
pub proof fn trees_are_found_by_kind(
    trees: &ColliderTrees,
    capacities: TreeCapacities,
    enlarged: &EnlargedProxies,
    key: ColliderTreeProxyKey,
)
    ensures
        trees.tree(ColliderTreeType::Dynamic) == trees.dynamic_tree,
        trees.tree(ColliderTreeType::Kinematic) == trees.kinematic_tree,
        trees.tree(ColliderTreeType::Static) == trees.static_tree,
        trees.tree(ColliderTreeType::Standalone) == trees.standalone_tree,
        capacities.of_type(ColliderTreeType::Dynamic) == capacities.dynamic,
        capacities.of_type(ColliderTreeType::Kinematic) == capacities.kinematic,
        capacities.of_type(ColliderTreeType::Static) == capacities.fixed,
        capacities.of_type(ColliderTreeType::Standalone) == capacities.standalone,
        enlarged.of_type(ColliderTreeType::Dynamic) == enlarged.dynamic_proxies,
        enlarged.of_type(ColliderTreeType::Kinematic) == enlarged.kinematic_proxies,
        enlarged.of_type(ColliderTreeType::Static) == enlarged.static_proxies,
        enlarged.of_type(ColliderTreeType::Standalone) == enlarged.standalone_proxies,
        key.tree_type is Dynamic ==> (trees@.contains_key(key) <==> trees.dynamic_tree@.contains_key(
            key.id,
        )),
        key.tree_type is Dynamic && trees@.contains_key(key) ==> trees@[key]
            == trees.dynamic_tree@[key.id],
        key.tree_type is Kinematic ==> (trees@.contains_key(key) <==> trees.kinematic_tree@.contains_key(
            key.id,
        )),
        key.tree_type is Kinematic && trees@.contains_key(key) ==> trees@[key]
            == trees.kinematic_tree@[key.id],
        key.tree_type is Static ==> (trees@.contains_key(key) <==> trees.static_tree@.contains_key(
            key.id,
        )),
        key.tree_type is Static && trees@.contains_key(key) ==> trees@[key]
            == trees.static_tree@[key.id],
        key.tree_type is Standalone ==> (trees@.contains_key(key) <==> trees.standalone_tree@.contains_key(
            key.id,
        )),
        key.tree_type is Standalone && trees@.contains_key(key) ==> trees@[key]
            == trees.standalone_tree@[key.id],
{
}

/// What leaves the records as they are leaves those of each of the four trees as they are.
pub proof fn same_records_are_those_of_all_trees(
    trees: &ColliderTrees,
    others: &ColliderTrees,
    kind: ColliderTreeType,
)
    ensures
        trees.same_records(others) <==> {
            &&& trees.dynamic_tree.moved() == others.dynamic_tree.moved()
            &&& trees.kinematic_tree.moved() == others.kinematic_tree.moved()
            &&& trees.static_tree.moved() == others.static_tree.moved()
            &&& trees.standalone_tree.moved() == others.standalone_tree.moved()
            &&& trees.dynamic_tree.slots() == others.dynamic_tree.slots()
            &&& trees.kinematic_tree.slots() == others.kinematic_tree.slots()
            &&& trees.static_tree.slots() == others.static_tree.slots()
            &&& trees.standalone_tree.slots() == others.standalone_tree.slots()
        },
        trees.same_moved_but(others, kind) <==> {
            &&& kind is Dynamic || trees.dynamic_tree.moved() == others.dynamic_tree.moved()
            &&& kind is Kinematic || trees.kinematic_tree.moved() == others.kinematic_tree.moved()
            &&& kind is Static || trees.static_tree.moved() == others.static_tree.moved()
            &&& kind is Standalone || trees.standalone_tree.moved()
                == others.standalone_tree.moved()
        },
        trees.same_slots_but(others, kind) <==> {
            &&& kind is Dynamic || trees.dynamic_tree.slots() == others.dynamic_tree.slots()
            &&& kind is Kinematic || trees.kinematic_tree.slots() == others.kinematic_tree.slots()
            &&& kind is Static || trees.static_tree.slots() == others.static_tree.slots()
            &&& kind is Standalone || trees.standalone_tree.slots()
                == others.standalone_tree.slots()
        },
        trees.same_but(others, kind) <==> {
            &&& kind is Dynamic || trees.dynamic_tree == others.dynamic_tree
            &&& kind is Kinematic || trees.kinematic_tree == others.kinematic_tree
            &&& kind is Static || trees.static_tree == others.static_tree
            &&& kind is Standalone || trees.standalone_tree == others.standalone_tree
        },
        trees.next_key(kind).tree_type == kind,
        trees.next_key(kind).id == trees.tree(kind).next_id(),
{
    let d = ColliderTreeType::Dynamic;
    let k = ColliderTreeType::Kinematic;
    let s = ColliderTreeType::Static;
    let a = ColliderTreeType::Standalone;
    assert(trees.tree(d).moved() == trees.dynamic_tree.moved());
    assert(trees.tree(k).moved() == trees.kinematic_tree.moved());
    assert(trees.tree(s).moved() == trees.static_tree.moved());
    assert(trees.tree(a).moved() == trees.standalone_tree.moved());
    assert(trees.tree(d).slots() == trees.dynamic_tree.slots());
    assert(trees.tree(k).slots() == trees.kinematic_tree.slots());
    assert(trees.tree(s).slots() == trees.static_tree.slots());
    assert(trees.tree(a).slots() == trees.standalone_tree.slots());
}

/// The bounding boxes of the colliders of bodies that can move are enlarged by a margin relative to
/// their size, and those of other colliders by the contact tolerance only.
pub proof fn boxes_of_bodies_that_move_are_enlarged(tree_type: ColliderTreeType)
    ensures
        margin_of(tree_type) is SizeRelative <==> tree_type is Dynamic || tree_type is Kinematic,
        margin_of(tree_type) is ContactTolerance <==> tree_type is Static
            || tree_type is Standalone,
{
}

/// The numbers of keys tell the places apart: the number is four times the place and a part below
/// four that is the same for all keys of a tree.
pub proof fn key_numbers_grow_with_places(key: ColliderTreeProxyKey, other: ColliderTreeProxyKey)
    ensures
        key_number(key) / 4 == key.id.0,
        key_number(key) % 4 == key_number(other) % 4 <==> key.tree_type == other.tree_type,
{
}

/// A bit is set in one of several vectors exactly if it is combined, and bits are places of a tree
/// exactly if the tree has proxies there.
pub proof fn combined_bits_are_those_of_any(all: Seq<BitVec>, b: usize, tree: ColliderTree)
    ensures
        any_bit(all).contains(b) <==> exists|i: int|
            0 <= i < all.len() && (#[trigger] all[i])@.contains(b),
        are_places(any_bit(all), tree) ==> forall|i: int, c: usize|
            0 <= i < all.len() && #[trigger] all[i]@.contains(c) ==> c < 0xffff_ffff
                && tree@.contains_key(ProxyId(c as u32)),
        (forall|c: usize| #[trigger]
            any_bit(all).contains(c) ==> c < 0xffff_ffff && tree@.contains_key(ProxyId(c as u32)))
            ==> are_places(any_bit(all), tree),
{
    if are_places(any_bit(all), tree) {
        assert forall|i: int, c: usize| 0 <= i < all.len() && #[trigger] all[i]@.contains(c) implies c
            < 0xffff_ffff && tree@.contains_key(ProxyId(c as u32)) by {
            assert(any_bit(all).contains(c));
        }
    }
}

// Events.

/// A collider is added to its tree when it is inserted while it and its entity are enabled, or when
/// the last of the two is enabled. It is removed when it goes, or when the first of the two is
/// disabled. Only while both are enabled, it follows what happens to its body and its properties.
pub proof fn colliders_come_and_go_with_their_markers(
    event: ColliderEvent,
    disabled: bool,
    collider_disabled: bool,
)
    ensures
        ({
            let action = collider_action_of(event, disabled, collider_disabled);
            &&& action is Add <==> (event is Insert && !disabled && !collider_disabled) || (
            event is EnableEntity && !collider_disabled) || (event is EnableCollider && !disabled)
            &&& action is Remove <==> event is Remove || (event is DisableEntity
                && !collider_disabled) || (event is DisableCollider && !disabled)
            &&& action is MoveToStandalone <==> event is Detach && !disabled && !collider_disabled
            &&& action is FollowBody <==> event is ChangeBodyKind && !disabled && !collider_disabled
            &&& action is Update <==> event is ChangeProperty && !disabled && !collider_disabled
        }),
{
}

} // verus!
