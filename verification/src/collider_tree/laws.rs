//! What holds of the collider trees as colliders come, change, and go.

use vstd::prelude::*;

use crate::collider_tree::moved::{removing_removes_only_one, removing_undoes_inserting, without_key};
use crate::collider_tree::proxy::{
    placeholder_key, ColliderTreeProxy, ColliderTreeProxyKey, ColliderTreeType,
};
use crate::collider_tree::update::{
    is_moved, is_moved_rightly, moved_after_adding, moved_colliders, proxies_after_adding, with_key,
    BodyCollider,
};
use crate::entity::Entity;

verus! {

/// Whether the keys that the colliders hold fit the proxies: every collider with a key has a proxy
/// there, and every proxy is that of the collider which holds its key. So no collider is in the trees
/// twice.
pub open spec fn keys_fit(
    keys: Map<Entity, ColliderTreeProxyKey>,
    proxies: Map<ColliderTreeProxyKey, ColliderTreeProxy>,
) -> bool {
    &&& !proxies.contains_key(placeholder_key())
    &&& forall|collider: Entity| #[trigger]
        keys.contains_key(collider) && keys[collider] != placeholder_key() ==> has_proxy(
            proxies,
            keys[collider],
            collider,
        )
    &&& forall|key: ColliderTreeProxyKey| #[trigger]
        proxies.contains_key(key) ==> holds_key(keys, proxies[key].collider, key)
}

/// Whether a collider has a proxy at a key.
pub open spec fn has_proxy(
    proxies: Map<ColliderTreeProxyKey, ColliderTreeProxy>,
    key: ColliderTreeProxyKey,
    collider: Entity,
) -> bool {
    proxies.contains_key(key) && proxies[key].collider == collider
}

/// Whether a collider holds a key.
pub open spec fn holds_key(
    keys: Map<Entity, ColliderTreeProxyKey>,
    collider: Entity,
    key: ColliderTreeProxyKey,
) -> bool {
    keys.contains_key(collider) && keys[collider] == key
}

/// Whether every moved proxy is in a tree, and recorded once.
pub open spec fn moved_fits(
    moved: Seq<ColliderTreeProxyKey>,
    proxies: Map<ColliderTreeProxyKey, ColliderTreeProxy>,
) -> bool {
    &&& moved.no_duplicates()
    &&& forall|key: ColliderTreeProxyKey| #[trigger]
        moved.contains(key) ==> proxies.contains_key(key)
}

/// No collider has two proxies.
pub proof fn colliders_have_one_proxy(
    keys: Map<Entity, ColliderTreeProxyKey>,
    proxies: Map<ColliderTreeProxyKey, ColliderTreeProxy>,
    a: ColliderTreeProxyKey,
    b: ColliderTreeProxyKey,
)
    requires
        keys_fit(keys, proxies),
        proxies.contains_key(a),
        proxies.contains_key(b),
        proxies[a].collider == proxies[b].collider,
    ensures
        a == b,
{
}

/// Adding a collider to a tree, and removing it from another one, keeps the keys fitting, once the
/// collider holds the key of its new proxy. (A collider that was detached from its body does not:
/// it holds the old key until it is added to a tree again.)
pub proof fn adding_keeps_keys_fit(
    keys: Map<Entity, ColliderTreeProxyKey>,
    proxies: Map<ColliderTreeProxyKey, ColliderTreeProxy>,
    key: ColliderTreeProxyKey,
    added: ColliderTreeProxyKey,
    proxy: ColliderTreeProxy,
)
    requires
        keys_fit(keys, proxies),
        holds_key(keys, proxy.collider, key),
        !proxies.contains_key(added),
        added != placeholder_key(),
    ensures
        keys_fit(
            keys.insert(proxy.collider, added),
            proxies_after_adding(proxies, key, added, proxy),
        ),
{
    let keys2 = keys.insert(proxy.collider, added);
    let proxies2 = proxies_after_adding(proxies, key, added, proxy);
    assert forall|collider: Entity| #[trigger]
        keys2.contains_key(collider) && keys2[collider] != placeholder_key() implies has_proxy(
        proxies2,
        keys2[collider],
        collider,
    ) by {
        if collider != proxy.collider {
            assert(keys.contains_key(collider));
            assert(has_proxy(proxies, keys[collider], collider));
            if keys[collider] == key {
                assert(holds_key(keys, proxies[key].collider, key));
            }
        }
    }
    assert forall|k: ColliderTreeProxyKey| #[trigger] proxies2.contains_key(k) implies holds_key(
        keys2,
        proxies2[k].collider,
        k,
    ) by {
        if k != added {
            assert(proxies.contains_key(k));
            assert(holds_key(keys, proxies[k].collider, k));
        }
    }
}

/// Updating the proxy of a collider in place keeps the keys fitting.
pub proof fn replacing_keeps_keys_fit(
    keys: Map<Entity, ColliderTreeProxyKey>,
    proxies: Map<ColliderTreeProxyKey, ColliderTreeProxy>,
    key: ColliderTreeProxyKey,
    proxy: ColliderTreeProxy,
)
    requires
        keys_fit(keys, proxies),
        holds_key(keys, proxy.collider, key),
        proxies.contains_key(key),
    ensures
        keys_fit(keys, proxies.insert(key, proxy)),
{
    let proxies2 = proxies.insert(key, proxy);
    assert(holds_key(keys, proxies[key].collider, key));
    assert forall|collider: Entity| #[trigger]
        keys.contains_key(collider) && keys[collider] != placeholder_key() implies has_proxy(
        proxies2,
        keys[collider],
        collider,
    ) by {
        assert(has_proxy(proxies, keys[collider], collider));
        if keys[collider] == key {
            assert(has_proxy(proxies, keys[proxy.collider], proxy.collider));
        }
    }
    assert forall|k: ColliderTreeProxyKey| #[trigger] proxies2.contains_key(k) implies holds_key(
        keys,
        proxies2[k].collider,
        k,
    ) by {
        assert(proxies.contains_key(k));
    }
}

/// Removing a collider from its tree keeps the keys fitting.
pub proof fn removing_keeps_keys_fit(
    keys: Map<Entity, ColliderTreeProxyKey>,
    proxies: Map<ColliderTreeProxyKey, ColliderTreeProxy>,
    collider: Entity,
    key: ColliderTreeProxyKey,
)
    requires
        keys_fit(keys, proxies),
        holds_key(keys, collider, key),
        key != placeholder_key(),
    ensures
        keys_fit(keys.insert(collider, placeholder_key()), proxies.remove(key)),
{
    let keys2 = keys.insert(collider, placeholder_key());
    let proxies2 = proxies.remove(key);
    assert(has_proxy(proxies, keys[collider], collider));
    assert forall|c: Entity| #[trigger]
        keys2.contains_key(c) && keys2[c] != placeholder_key() implies has_proxy(
        proxies2,
        keys2[c],
        c,
    ) by {
        assert(keys.contains_key(c));
        assert(has_proxy(proxies, keys[c], c));
    }
    assert forall|k: ColliderTreeProxyKey| #[trigger] proxies2.contains_key(k) implies holds_key(
        keys2,
        proxies2[k].collider,
        k,
    ) by {
        assert(proxies.contains_key(k));
    }
}

/// The keys that the colliders hold once those of the first `n` colliders of a body that are to be
/// moved were moved.
pub open spec fn keys_after_moving(
    keys: Map<Entity, ColliderTreeProxyKey>,
    before: Seq<Option<BodyCollider>>,
    after: Seq<Option<BodyCollider>>,
    tree_type: ColliderTreeType,
    n: int,
) -> Map<Entity, ColliderTreeProxyKey>
    decreases n,
{
    if n <= 0 {
        keys
    } else {
        let rest = keys_after_moving(keys, before, after, tree_type, n - 1);
        if is_moved(before[n - 1], tree_type) {
            rest.insert(before[n - 1]->0.info.collider, after[n - 1]->0.proxy_key)
        } else {
            rest
        }
    }
}

/// Whether the colliders of a body hold the keys given with them, and are all different.
pub open spec fn colliders_fit(
    keys: Map<Entity, ColliderTreeProxyKey>,
    colliders: Seq<Option<BodyCollider>>,
) -> bool {
    &&& forall|i: int|
        0 <= i < colliders.len() && (#[trigger] colliders[i]) is Some ==> holds_key(
            keys,
            colliders[i]->0.info.collider,
            colliders[i]->0.proxy_key,
        )
    &&& forall|i: int, j: int|
        0 <= i < j < colliders.len() && (#[trigger] colliders[i]) is Some && (
        #[trigger] colliders[j]) is Some ==> colliders[i]->0.info.collider
            != colliders[j]->0.info.collider
}

/// Moving the colliders of a body to other trees keeps the keys fitting.
pub proof fn moving_keeps_keys_fit(
    keys: Map<Entity, ColliderTreeProxyKey>,
    proxies: Map<ColliderTreeProxyKey, ColliderTreeProxy>,
    before: Seq<Option<BodyCollider>>,
    after: Seq<Option<BodyCollider>>,
    body: Entity,
    body_disabled: bool,
    tree_type: ColliderTreeType,
    n: int,
)
    requires
        keys_fit(keys, proxies),
        colliders_fit(keys, before),
        0 <= n <= before.len(),
        before.len() == after.len(),
        forall|i: int|
            0 <= i < n ==> #[trigger] is_moved_rightly(
                proxies,
                before,
                after,
                body,
                body_disabled,
                tree_type,
                i,
            ),
    ensures
        keys_fit(
            keys_after_moving(keys, before, after, tree_type, n),
            moved_colliders(proxies, before, after, body, body_disabled, tree_type, n),
        ),
        forall|i: int|
            n <= i < before.len() && (#[trigger] before[i]) is Some ==> holds_key(
                keys_after_moving(keys, before, after, tree_type, n),
                before[i]->0.info.collider,
                before[i]->0.proxy_key,
            ),
    decreases n,
{
    if n > 0 {
        moving_keeps_keys_fit(
            keys,
            proxies,
            before,
            after,
            body,
            body_disabled,
            tree_type,
            n - 1,
        );
        let keys1 = keys_after_moving(keys, before, after, tree_type, n - 1);
        let proxies1 = moved_colliders(
            proxies,
            before,
            after,
            body,
            body_disabled,
            tree_type,
            n - 1,
        );
        assert(is_moved_rightly(
            proxies,
            before,
            after,
            body,
            body_disabled,
            tree_type,
            n - 1,
        ));
        if is_moved(before[n - 1], tree_type) {
            let proxies2 = moved_colliders(
                proxies,
                before,
                after,
                body,
                body_disabled,
                tree_type,
                n,
            );
            let old_one = before[n - 1]->0;
            let added = after[n - 1]->0.proxy_key;
            let proxy = proxies2[added];
            assert(holds_key(keys1, old_one.info.collider, old_one.proxy_key));
            adding_keeps_keys_fit(keys1, proxies1, old_one.proxy_key, added, proxy);
            assert(proxies2 =~= proxies_after_adding(proxies1, old_one.proxy_key, added, proxy));
        }
    }
}

/// Once the kind of a body changed, all its colliders that are there are in the tree of that kind.
pub proof fn colliders_follow_their_body(
    proxies: Map<ColliderTreeProxyKey, ColliderTreeProxy>,
    before: Seq<Option<BodyCollider>>,
    after: Seq<Option<BodyCollider>>,
    body: Entity,
    body_disabled: bool,
    tree_type: ColliderTreeType,
    i: int,
)
    requires
        0 <= i < before.len(),
        before[i] is Some,
        is_moved_rightly(proxies, before, after, body, body_disabled, tree_type, i),
    ensures
        after[i] is Some,
        after[i]->0.info == before[i]->0.info,
        after[i]->0.proxy_key.tree_type == tree_type,
{
}

/// Adding a collider to a tree, and removing it from another one, keeps the record of moved proxies
/// fitting.
pub proof fn adding_keeps_moved_fits(
    moved: Seq<ColliderTreeProxyKey>,
    proxies: Map<ColliderTreeProxyKey, ColliderTreeProxy>,
    key: ColliderTreeProxyKey,
    added: ColliderTreeProxyKey,
    proxy: ColliderTreeProxy,
)
    requires
        moved_fits(moved, proxies),
    ensures
        moved_fits(
            moved_after_adding(moved, key, added),
            proxies_after_adding(proxies, key, added, proxy),
        ),
        moved_after_adding(moved, key, added).contains(added),
{
    let rest = if key != placeholder_key() {
        without_key(moved, key)
    } else {
        moved
    };
    let proxies2 = proxies_after_adding(proxies, key, added, proxy);
    assert forall|k: ColliderTreeProxyKey| #[trigger] rest.contains(k) implies moved.contains(k) && (
    key != placeholder_key() ==> k != key) by {
        removing_removes_only_one(moved, key, k);
    }
    removing_removes_only_one(moved, key, key);
    let all = moved_after_adding(moved, key, added);
    assert forall|k: ColliderTreeProxyKey| #[trigger] all.contains(k) implies proxies2.contains_key(
        k,
    ) by {
        if k != added {
            let i = all.index_of(k);
            assert(rest[i] == k);
            assert(rest.contains(k));
            assert(moved.contains(k));
        }
    }
    if !rest.contains(added) {
        assert(all[rest.len() as int] == added);
        assert forall|i: int, j: int| 0 <= i < j < all.len() implies all[i] != all[j] by {
            if j == rest.len() {
                assert(rest.contains(rest[i]));
            }
        }
    }
}

/// Removing a collider from its tree keeps the record of moved proxies fitting.
pub proof fn removing_keeps_moved_fits(
    moved: Seq<ColliderTreeProxyKey>,
    proxies: Map<ColliderTreeProxyKey, ColliderTreeProxy>,
    key: ColliderTreeProxyKey,
)
    requires
        moved_fits(moved, proxies),
    ensures
        moved_fits(without_key(moved, key), proxies.remove(key)),
{
    assert forall|k: ColliderTreeProxyKey| #[trigger]
        without_key(moved, key).contains(k) implies proxies.remove(key).contains_key(k) by {
        removing_removes_only_one(moved, key, k);
    }
    removing_removes_only_one(moved, key, key);
}

/// Removing a collider that was just added to its first tree leaves the trees and the record of
/// moved proxies as they were.
pub proof fn removing_undoes_adding(
    proxies: Map<ColliderTreeProxyKey, ColliderTreeProxy>,
    moved: Seq<ColliderTreeProxyKey>,
    added: ColliderTreeProxyKey,
    proxy: ColliderTreeProxy,
)
    requires
        moved_fits(moved, proxies),
        !proxies.contains_key(added),
    ensures
        proxies_after_adding(proxies, placeholder_key(), added, proxy).remove(added) == proxies,
        without_key(moved_after_adding(moved, placeholder_key(), added), added) == moved,
{
    assert(proxies.insert(added, proxy).remove(added) =~= proxies);
    assert(!moved.contains(added));
    assert(with_key(moved, added) == moved.push(added));
    removing_undoes_inserting(moved, added);
}

} // verus!
