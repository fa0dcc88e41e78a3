//! The collider trees: which proxies they hold, and which of them moved.

use vstd::prelude::*;

use crate::collider_tree::proxy::{
    placeholder_key, ColliderTreeProxy, ColliderTreeProxyKey, ColliderTreeType, ProxyId,
    PLACEHOLDER_PROXY,
};
use crate::stable_vec::StableVec;

verus! {

/// The proxies of a collider tree.
#[derive(Clone, Debug)]
pub struct ColliderTree {
    proxies: StableVec<ColliderTreeProxy>,
    /// The proxies that moved, or were added.
    moved_proxies: Vec<ProxyId>,
}

impl ColliderTree {
    /// The proxies, by place.
    pub closed spec fn view(&self) -> Map<ProxyId, ColliderTreeProxy> {
        Map::new(
            |id: ProxyId| self.proxies@.contains_key(id.0 as usize),
            |id: ProxyId| self.proxies@[id.0 as usize],
        )
    }

    /// The proxies that moved, or were added.
    pub closed spec fn moved(&self) -> Seq<ProxyId> {
        self.moved_proxies@
    }

    /// A number that lies above every place in use.
    pub closed spec fn slots(&self) -> nat {
        self.proxies.slots()
    }

    /// The place that the next proxy gets.
    pub closed spec fn next_id(&self) -> ProxyId {
        ProxyId(self.proxies.next_index() as u32)
    }

    /// Places are never that of the placeholder.
    pub closed spec fn wf(&self) -> bool {
        &&& self.proxies.wf()
        &&& self.proxies.slots() <= PLACEHOLDER_PROXY
    }

    /// The next place is free, and every place lies below the number of slots.
    pub proof fn lemma_places(&self)
        requires
            self.wf(),
        ensures
            !self@.contains_key(self.next_id()),
            self.slots() <= PLACEHOLDER_PROXY,
            forall|id: ProxyId| #[trigger] self@.contains_key(id) ==> id.0 < self.slots(),
    {
        self.proxies.lemma_bounds();
        assert forall|id: ProxyId| #[trigger] self@.contains_key(id) implies id.0 < self.slots() by {
            assert(self.proxies@.contains_key(id.0 as usize));
        }
    }

    /// A tree without proxies.
    pub fn new() -> (tree: Self)
        ensures
            tree.wf(),
            tree@ == Map::<ProxyId, ColliderTreeProxy>::empty(),
            tree.moved() == Seq::<ProxyId>::empty(),
            tree.slots() == 0,
            tree.next_id() == ProxyId(0),
    {
        let tree = ColliderTree { proxies: StableVec::new(), moved_proxies: Vec::new() };
        assert(tree@ =~= Map::<ProxyId, ColliderTreeProxy>::empty());
        tree
    }

    /// The proxy at a place, if there is one.
    pub fn get_proxy(&self, id: ProxyId) -> (proxy: Option<&ColliderTreeProxy>)
        ensures
            proxy is Some <==> self@.contains_key(id),
            proxy matches Some(p) ==> *p == self@[id],
    {
        self.proxies.get(id.0 as usize)
    }

    /// The proxies that moved, or were added.
    pub fn moved_proxies(&self) -> (moved: &Vec<ProxyId>)
        ensures
            moved@ == self.moved(),
    {
        &self.moved_proxies
    }

    /// An upper bound on the number of proxies, for sizing bit vectors.
    pub fn capacity(&self) -> (capacity: usize)
        ensures
            capacity == self.slots(),
    {
        self.proxies.slot_count()
    }

    /// The number of proxies.
    pub fn len(&self) -> (len: usize)
        requires
            self.wf(),
        ensures
            len == self@.dom().len(),
    {
        proof {
            self.proxies.lemma_bounds();
            let at = |i: usize| ProxyId(i as u32);
            let places = self.proxies@.dom();
            assert(places.map(at) =~= self@.dom()) by {
                assert forall|id: ProxyId| self@.dom().contains(id) implies places.map(at).contains(
                    id,
                ) by {
                    assert(places.contains(id.0 as usize));
                    assert(at(id.0 as usize) == id);
                }
            }
            assert(vstd::relations::injective_on(at, places)) by {
                assert forall|i: usize, j: usize|
                    places.contains(i) && places.contains(j) && #[trigger] at(i) == #[trigger] at(
                        j,
                    ) implies i == j by {
                    assert(self.proxies@.contains_key(i));
                    assert(self.proxies@.contains_key(j));
                }
            }
            vstd::set_lib::lemma_map_size(places, self@.dom(), at);
        }
        self.proxies.len()
    }

    /// Adds a proxy, and returns its place.
    pub fn add_proxy(&mut self, proxy: ColliderTreeProxy) -> (id: ProxyId)
        requires
            old(self).wf(),
            old(self).slots() < PLACEHOLDER_PROXY,
        ensures
            final(self).wf(),
            id == old(self).next_id(),
            !old(self)@.contains_key(id),
            id.0 != PLACEHOLDER_PROXY,
            final(self)@ == old(self)@.insert(id, proxy),
            final(self).moved() == old(self).moved().push(id),
            final(self).slots() <= old(self).slots() + 1,
    {
        proof {
            self.proxies.lemma_bounds();
        }
        let id = ProxyId(self.proxies.next_push_index() as u32);
        self.proxies.push(proxy);
        self.moved_proxies.push(id);
        assert(self@ =~= old(self)@.insert(id, proxy));
        id
    }

    /// Removes the proxy at a place, and returns it, if there is one.
    pub fn remove_proxy(&mut self, id: ProxyId) -> (proxy: Option<ColliderTreeProxy>)
        requires
            old(self).wf(),
        ensures
            final(self).wf(),
            proxy is Some <==> old(self)@.contains_key(id),
            proxy matches Some(p) ==> p == old(self)@[id],
            final(self)@ == old(self)@.remove(id),
            proxy is None ==> *final(self) == *old(self),
            proxy is Some ==> final(self).next_id() == id,
            final(self).moved() == old(self).moved(),
            final(self).slots() == old(self).slots(),
    {
        if self.proxies.get(id.0 as usize).is_none() {
            assert(self@ =~= old(self)@.remove(id));
            return None;
        }
        let proxy = self.proxies.remove(id.0 as usize);
        assert(self@ =~= old(self)@.remove(id));
        Some(proxy)
    }

    /// Replaces the proxy at a place, if there is one.
    pub fn set_proxy(&mut self, id: ProxyId, proxy: ColliderTreeProxy)
        requires
            old(self).wf(),
            old(self)@.contains_key(id),
        ensures
            final(self).wf(),
            final(self)@ == old(self)@.insert(id, proxy),
            final(self).moved() == old(self).moved(),
            final(self).slots() == old(self).slots(),
            final(self).next_id() == old(self).next_id(),
    {
        self.proxies.set(id.0 as usize, proxy);
        assert(self@ =~= old(self)@.insert(id, proxy));
    }

    /// Records that a proxy moved.
    pub fn mark_moved(&mut self, id: ProxyId)
        requires
            old(self).wf(),
        ensures
            final(self).wf(),
            final(self)@ == old(self)@,
            final(self).moved() == old(self).moved().push(id),
            final(self).slots() == old(self).slots(),
            final(self).next_id() == old(self).next_id(),
    {
        self.moved_proxies.push(id);
    }

    /// Forgets which proxies moved.
    pub fn clear_moved(&mut self)
        requires
            old(self).wf(),
        ensures
            final(self).wf(),
            final(self)@ == old(self)@,
            final(self).moved() == Seq::<ProxyId>::empty(),
            final(self).slots() == old(self).slots(),
            final(self).next_id() == old(self).next_id(),
    {
        self.moved_proxies.clear();
    }
}

/// The collider trees.
#[derive(Clone, Debug)]
pub struct ColliderTrees {
    pub dynamic_tree: ColliderTree,
    pub kinematic_tree: ColliderTree,
    pub static_tree: ColliderTree,
    pub standalone_tree: ColliderTree,
}

impl ColliderTrees {
    /// The tree of a kind.
    pub open spec fn tree(&self, tree_type: ColliderTreeType) -> ColliderTree {
        match tree_type {
            ColliderTreeType::Dynamic => self.dynamic_tree,
            ColliderTreeType::Kinematic => self.kinematic_tree,
            ColliderTreeType::Static => self.static_tree,
            ColliderTreeType::Standalone => self.standalone_tree,
        }
    }

    /// Whether all trees are in order.
    pub open spec fn wf(&self) -> bool {
        &&& self.dynamic_tree.wf()
        &&& self.kinematic_tree.wf()
        &&& self.static_tree.wf()
        &&& self.standalone_tree.wf()
    }

    /// The proxies of all trees, by key.
    pub open spec fn view(&self) -> Map<ColliderTreeProxyKey, ColliderTreeProxy> {
        Map::new(
            |key: ColliderTreeProxyKey| self.tree(key.tree_type)@.contains_key(key.id),
            |key: ColliderTreeProxyKey| self.tree(key.tree_type)@[key.id],
        )
    }

    /// The key that the next proxy in a tree gets.
    pub open spec fn next_key(&self, tree_type: ColliderTreeType) -> ColliderTreeProxyKey {
        ColliderTreeProxyKey { id: self.tree(tree_type).next_id(), tree_type }
    }

    /// Whether the other trees than the given one are the same.
    pub open spec fn same_but(&self, other: &Self, tree_type: ColliderTreeType) -> bool {
        &&& tree_type is Dynamic || self.dynamic_tree == other.dynamic_tree
        &&& tree_type is Kinematic || self.kinematic_tree == other.kinematic_tree
        &&& tree_type is Static || self.static_tree == other.static_tree
        &&& tree_type is Standalone || self.standalone_tree == other.standalone_tree
    }

    /// Whether the records of moved proxies are the same, except for the tree of a kind.
    pub open spec fn same_moved_but(&self, other: &Self, tree_type: ColliderTreeType) -> bool {
        forall|t: ColliderTreeType|
            t != tree_type ==> #[trigger] self.tree(t).moved() == other.tree(t).moved()
    }

    /// Whether the numbers of slots are the same, except for the tree of a kind.
    pub open spec fn same_slots_but(&self, other: &Self, tree_type: ColliderTreeType) -> bool {
        forall|t: ColliderTreeType|
            t != tree_type ==> #[trigger] self.tree(t).slots() == other.tree(t).slots()
    }

    /// Whether the records of moved proxies and the numbers of slots are the same.
    pub open spec fn same_records(&self, other: &Self) -> bool {
        &&& forall|t: ColliderTreeType| #[trigger] self.tree(t).moved() == other.tree(t).moved()
        &&& forall|t: ColliderTreeType| #[trigger] self.tree(t).slots() == other.tree(t).slots()
    }

    /// Trees without proxies.
    pub fn new() -> (trees: Self)
        ensures
            trees.wf(),
            trees@ == Map::<ColliderTreeProxyKey, ColliderTreeProxy>::empty(),
            forall|t: ColliderTreeType| #[trigger] trees.tree(t).slots() == 0,
            forall|t: ColliderTreeType| (#[trigger] trees.tree(t)).moved() == Seq::<
                ProxyId,
            >::empty(),
            forall|t: ColliderTreeType| #[trigger]
                trees.next_key(t) == (ColliderTreeProxyKey { id: ProxyId(0), tree_type: t }),
    {
        let trees = ColliderTrees {
            dynamic_tree: ColliderTree::new(),
            kinematic_tree: ColliderTree::new(),
            static_tree: ColliderTree::new(),
            standalone_tree: ColliderTree::new(),
        };
        assert(trees@ =~= Map::<ColliderTreeProxyKey, ColliderTreeProxy>::empty());
        trees
    }

    /// The tree of a kind.
    pub fn tree_for_type(&self, tree_type: ColliderTreeType) -> (tree: &ColliderTree)
        ensures
            *tree == self.tree(tree_type),
    {
        match tree_type {
            ColliderTreeType::Dynamic => &self.dynamic_tree,
            ColliderTreeType::Kinematic => &self.kinematic_tree,
            ColliderTreeType::Static => &self.static_tree,
            ColliderTreeType::Standalone => &self.standalone_tree,
        }
    }

    /// The tree of a kind, to be changed.
    pub fn tree_for_type_mut(&mut self, tree_type: ColliderTreeType) -> (tree: &mut ColliderTree)
        ensures
            *tree == old(self).tree(tree_type),
            final(self).tree(tree_type) == *final(tree),
            final(self).same_but(old(self), tree_type),
    {
        match tree_type {
            ColliderTreeType::Dynamic => &mut self.dynamic_tree,
            ColliderTreeType::Kinematic => &mut self.kinematic_tree,
            ColliderTreeType::Static => &mut self.static_tree,
            ColliderTreeType::Standalone => &mut self.standalone_tree,
        }
    }

    /// The proxy with a key, if there is one.
    pub fn get_proxy(&self, key: ColliderTreeProxyKey) -> (proxy: Option<ColliderTreeProxy>)
        ensures
            proxy is Some <==> self@.contains_key(key),
            proxy matches Some(p) ==> p == self@[key],
    {
        match self.tree_for_type(key.tree_type).get_proxy(key.id) {
            Some(proxy) => Some(*proxy),
            None => None,
        }
    }

    /// Adds a proxy to a tree, and returns its key.
    pub fn add_proxy(
        &mut self,
        tree_type: ColliderTreeType,
        proxy: ColliderTreeProxy,
    ) -> (key: ColliderTreeProxyKey)
        requires
            old(self).wf(),
            old(self).tree(tree_type).slots() < PLACEHOLDER_PROXY,
        ensures
            final(self).wf(),
            key == old(self).next_key(tree_type),
            !old(self)@.contains_key(key),
            key != placeholder_key(),
            final(self)@ == old(self)@.insert(key, proxy),
            final(self).tree(tree_type).moved() == old(self).tree(tree_type).moved().push(key.id),
            final(self).tree(tree_type).slots() <= old(self).tree(tree_type).slots() + 1,
            final(self).same_but(old(self), tree_type),
    {
        let id = self.tree_for_type_mut(tree_type).add_proxy(proxy);
        let key = ColliderTreeProxyKey::new(id, tree_type);
        assert(self@ =~= old(self)@.insert(key, proxy));
        key
    }

    /// Removes a proxy from its tree. Returns whether it was there.
    pub fn remove_proxy(&mut self, key: ColliderTreeProxyKey) -> (removed: bool)
        requires
            old(self).wf(),
        ensures
            final(self).wf(),
            removed == old(self)@.contains_key(key),
            final(self)@ == old(self)@.remove(key),
            !removed ==> final(self).tree(key.tree_type) == old(self).tree(key.tree_type),
            removed ==> final(self).next_key(key.tree_type) == key,
            final(self).tree(key.tree_type).moved() == old(self).tree(key.tree_type).moved(),
            final(self).tree(key.tree_type).slots() == old(self).tree(key.tree_type).slots(),
            final(self).same_but(old(self), key.tree_type),
    {
        let removed = self.tree_for_type_mut(key.tree_type).remove_proxy(key.id).is_some();
        assert(self@ =~= old(self)@.remove(key));
        removed
    }

    /// Replaces a proxy.
    pub fn set_proxy(&mut self, key: ColliderTreeProxyKey, proxy: ColliderTreeProxy)
        requires
            old(self).wf(),
            old(self)@.contains_key(key),
        ensures
            final(self).wf(),
            final(self)@ == old(self)@.insert(key, proxy),
            final(self).tree(key.tree_type).moved() == old(self).tree(key.tree_type).moved(),
            final(self).tree(key.tree_type).slots() == old(self).tree(key.tree_type).slots(),
            final(self).tree(key.tree_type).next_id() == old(self).tree(key.tree_type).next_id(),
            final(self).same_but(old(self), key.tree_type),
    {
        self.tree_for_type_mut(key.tree_type).set_proxy(key.id, proxy);
        assert(self@ =~= old(self)@.insert(key, proxy));
    }
}

} // verus!
