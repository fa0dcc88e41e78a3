//! The record of which proxies moved.

use vstd::prelude::*;
use bevy_platform::collections::HashMap;
use bevy_platform::hash::FixedHasher;

use crate::collider_tree::proxy::{key_number, key_number_injective, ColliderTreeProxyKey};

verus! {

/// Declares the hash map of `bevy_platform`.
#[verifier::external_type_specification]
#[verifier::external_body]
#[verifier::reject_recursive_types(K)]
#[verifier::reject_recursive_types(V)]
#[verifier::reject_recursive_types(S)]
pub struct ExHashMap<K, V, S>(HashMap<K, V, S>);

/// Declares the hasher of `bevy_platform`, which has a fixed seed.
#[verifier::external_type_specification]
#[verifier::external_body]
pub struct ExFixedHasher(FixedHasher);

/// The numbers that a hash map holds, by key.
pub uninterp spec fn index_map(map: HashMap<u64, u32, FixedHasher>) -> Map<u64, u32>;

/// Calls `HashMap::new`: the map is empty.
#[verifier::external_body]
fn index_map_new() -> (map: HashMap<u64, u32, FixedHasher>)
    ensures
        (index_map(map) == Map::<u64, u32>::empty()),
{
    HashMap::new()
}

/// Calls `HashMap::contains_key`: whether the map holds a number for the key.
#[verifier::external_body]
fn index_map_contains_key(map: &HashMap<u64, u32, FixedHasher>, key: u64) -> (contains: bool)
    ensures
        contains == index_map(*map).contains_key(key),
{
    map.contains_key(&key)
}

/// Calls `HashMap::try_insert`: if the map holds no number for the key, the given one is added.
/// Otherwise the map stays as it is, and the call fails.
#[verifier::external_body]
fn index_map_try_insert(
    map: &mut HashMap<u64, u32, FixedHasher>,
    key: u64,
    index: u32,
) -> (inserted: bool)
    ensures
        inserted == !index_map(*old(map)).contains_key(key),
        index_map(*final(map)) == if inserted {
            index_map(*old(map)).insert(key, index)
        } else {
            index_map(*old(map))
        },
{
    map.try_insert(key, index).is_ok()
}

/// Calls `HashMap::remove`: the number for the key is removed and returned, if there is one.
#[verifier::external_body]
fn index_map_remove(map: &mut HashMap<u64, u32, FixedHasher>, key: u64) -> (index: Option<u32>)
    ensures
        index is Some <==> index_map(*old(map)).contains_key(key),
        index matches Some(i) ==> i == index_map(*old(map))[key],
        index_map(*final(map)) == index_map(*old(map)).remove(key),
{
    map.remove(&key)
}

/// Calls `HashMap::insert`: the map holds the given number for the key, in place of any other.
#[verifier::external_body]
fn index_map_insert(map: &mut HashMap<u64, u32, FixedHasher>, key: u64, index: u32)
    ensures
        index_map(*final(map)) == index_map(*old(map)).insert(key, index),
{
    map.insert(key, index);
}

/// Calls `HashMap::clear`: the map is empty.
#[verifier::external_body]
fn index_map_clear(map: &mut HashMap<u64, u32, FixedHasher>)
    ensures
        (index_map(*final(map)) == Map::<u64, u32>::empty()),
{
    map.clear();
}

/// The proxies that moved: those whose bounding box left the enlarged one, or whose collider was
/// added to a tree.
pub struct MovedProxies {
    /// The keys of the moved proxies.
    proxies: Vec<ColliderTreeProxyKey>,
    /// The place of each of them in `proxies`.
    indices: HashMap<u64, u32, FixedHasher>,
}

/// A sequence once an element was removed, and the last one took its place.
pub open spec fn without_key(
    keys: Seq<ColliderTreeProxyKey>,
    key: ColliderTreeProxyKey,
) -> Seq<ColliderTreeProxyKey> {
    if keys.contains(key) {
        keys.update(keys.index_of(key), keys.last()).drop_last()
    } else {
        keys
    }
}

impl MovedProxies {
    /// The keys of the moved proxies.
    pub closed spec fn view(&self) -> Seq<ColliderTreeProxyKey> {
        self.proxies@
    }

    /// Whether every moved proxy is recorded once, and is found at its place.
    pub closed spec fn wf(&self) -> bool {
        &&& self.proxies@.len() <= u32::MAX
        &&& forall|i: int|
            0 <= i < self.proxies@.len() ==> index_map(self.indices).contains_key(
                key_number(#[trigger] self.proxies@[i]),
            ) && index_map(self.indices)[key_number(self.proxies@[i])] == i
        &&& forall|n: u64| #[trigger]
            index_map(self.indices).contains_key(n) ==> index_map(self.indices)[n]
                < self.proxies@.len() && key_number(
                self.proxies@[index_map(self.indices)[n] as int],
            ) == n
    }

    /// No key is recorded twice.
    pub proof fn keys_are_unique(&self)
        requires
            self.wf(),
        ensures
            self@.no_duplicates(),
            self@.len() <= u32::MAX,
    {
        assert forall|i: int, j: int|
            0 <= i < self@.len() && 0 <= j < self@.len() && i != j implies self@[i]
            != self@[j] by {
            assert(index_map(self.indices)[key_number(self.proxies@[i])] == i);
            assert(index_map(self.indices)[key_number(self.proxies@[j])] == j);
        }
    }

    proof fn lemma_contains(&self, key: ColliderTreeProxyKey)
        requires
            self.wf(),
        ensures
            self@.contains(key) <==> index_map(self.indices).contains_key(key_number(key)),
            self@.contains(key) ==> self@.index_of(key) == index_map(self.indices)[key_number(key)],
    {
        if index_map(self.indices).contains_key(key_number(key)) {
            let i = index_map(self.indices)[key_number(key)] as int;
            key_number_injective(self.proxies@[i], key);
            assert(self.proxies@[i] == key);
        }
        if self@.contains(key) {
            let i = self@.index_of(key);
            assert(self.proxies@[i] == key);
        }
    }

    /// No moved proxies.
    pub fn new() -> (moved: Self)
        ensures
            moved.wf(),
            moved@ == Seq::<ColliderTreeProxyKey>::empty(),
    {
        MovedProxies { proxies: Vec::new(), indices: index_map_new() }
    }

    /// The keys of the moved proxies, in the order in which they were inserted, but for the places
    /// that others left.
    pub fn proxies(&self) -> (proxies: &Vec<ColliderTreeProxyKey>)
        ensures
            proxies@ == self@,
    {
        &self.proxies
    }

    /// Whether the proxy with the given key has moved.
    pub fn contains(&self, proxy_key: ColliderTreeProxyKey) -> (contains: bool)
        requires
            self.wf(),
        ensures
            contains == self@.contains(proxy_key),
    {
        proof {
            self.lemma_contains(proxy_key);
        }
        index_map_contains_key(&self.indices, proxy_key.number())
    }

    /// Inserts the key of a moved proxy. Returns whether it was not there already.
    pub fn insert(&mut self, proxy_key: ColliderTreeProxyKey) -> (inserted: bool)
        requires
            old(self).wf(),
            old(self)@.len() < u32::MAX,
        ensures
            final(self).wf(),
            inserted == !old(self)@.contains(proxy_key),
            final(self)@ == if inserted {
                old(self)@.push(proxy_key)
            } else {
                old(self)@
            },
    {
        proof {
            self.lemma_contains(proxy_key);
        }
        let index: u32 = self.proxies.len() as u32;
        if index_map_try_insert(&mut self.indices, proxy_key.number(), index) {
            self.proxies.push(proxy_key);
            true
        } else {
            false
        }
    }

    /// Removes the key of a moved proxy, if it is there. The last key takes its place.
    pub fn remove(&mut self, proxy_key: &ColliderTreeProxyKey)
        requires
            old(self).wf(),
        ensures
            final(self).wf(),
            final(self)@ == without_key(old(self)@, *proxy_key),
    {
        proof {
            self.lemma_contains(*proxy_key);
        }
        let ghost before = self.proxies@;
        let ghost indices = index_map(self.indices);
        let index: usize = match index_map_remove(&mut self.indices, proxy_key.number()) {
            Some(index) => index as usize,
            None => {
                assert(index_map(self.indices) =~= indices);
                return;
            },
        };
        self.proxies.swap_remove(index);
        let ghost after = self.proxies@;
        // The key that took the free place is found there now.
        if index < self.proxies.len() {
            let swapped = self.proxies[index];
            index_map_insert(&mut self.indices, swapped.number(), index as u32);
        }
        proof {
            assert(after =~= without_key(before, *proxy_key));
            assert forall|i: int, j: int|
                0 <= i < before.len() && 0 <= j < before.len() && key_number(#[trigger] before[i])
                    == key_number(#[trigger] before[j]) implies i == j by {
                assert(indices[key_number(before[i])] == i);
                assert(indices[key_number(before[j])] == j);
            }
            assert forall|i: int| 0 <= i < after.len() implies index_map(self.indices).contains_key(
                key_number(#[trigger] after[i]),
            ) && index_map(self.indices)[key_number(after[i])] == i by {
                if i == index {
                    assert(after[i] == before[before.len() - 1]);
                } else {
                    assert(after[i] == before[i]);
                    assert(key_number(before[i]) != key_number(before[index as int]));
                    assert(key_number(before[i]) != key_number(before[before.len() - 1]));
                }
            }
            assert forall|n: u64| #[trigger]
                index_map(self.indices).contains_key(n) implies index_map(self.indices)[n]
                < after.len() && key_number(after[index_map(self.indices)[n] as int]) == n by {
                if index < after.len() && n == key_number(after[index as int]) {
                } else {
                    assert(indices.contains_key(n));
                    let i = indices[n] as int;
                    assert(key_number(before[i]) == n);
                    if i == before.len() - 1 && index < after.len() {
                        assert(after[index as int] == before[i]);
                    }
                    assert(i != index);
                    assert(i < after.len());
                    assert(after[i] == before[i]);
                }
            }
        }
    }

    /// Forgets all moved proxies.
    pub fn clear(&mut self)
        ensures
            final(self).wf(),
            final(self)@ == Seq::<ColliderTreeProxyKey>::empty(),
    {
        self.proxies.clear();
        index_map_clear(&mut self.indices);
    }
}

impl Default for MovedProxies {
    fn default() -> (moved: Self)
        ensures
            moved.wf(),
            moved@ == Seq::<ColliderTreeProxyKey>::empty(),
    {
        Self::new()
    }
}

/// Removing a key that was just inserted leaves the others as they were.
pub proof fn removing_undoes_inserting(
    keys: Seq<ColliderTreeProxyKey>,
    key: ColliderTreeProxyKey,
)
    requires
        !keys.contains(key),
    ensures
        without_key(keys.push(key), key) == keys,
{
    let s = keys.push(key);
    assert(s[keys.len() as int] == key);
    assert(s.contains(key));
    let i = s.index_of(key);
    if i < keys.len() {
        assert(keys[i] == key);
    }
    assert(without_key(s, key) =~= keys);
}

/// A key that was removed is not there, and all others are.
pub proof fn removing_removes_only_one(
    keys: Seq<ColliderTreeProxyKey>,
    key: ColliderTreeProxyKey,
    other: ColliderTreeProxyKey,
)
    requires
        keys.no_duplicates(),
    ensures
        without_key(keys, key).contains(other) <==> keys.contains(other) && other != key,
        without_key(keys, key).no_duplicates(),
{
    let after = without_key(keys, key);
    if keys.contains(key) {
        let at = keys.index_of(key);
        assert forall|i: int| 0 <= i < after.len() implies #[trigger] after[i] == keys[if i == at {
            keys.len() - 1
        } else {
            i
        }] by {}
        if keys.contains(other) && other != key {
            let i = keys.index_of(other);
            if i == keys.len() - 1 {
                assert(after[at] == other);
            } else {
                assert(after[i] == other);
            }
        }
        if after.contains(other) {
            let i = choose|i: int| 0 <= i < after.len() && after[i] == other;
            assert(keys[if i == at {
                keys.len() - 1
            } else {
                i
            }] == other);
        }
    }
}

} // verus!
