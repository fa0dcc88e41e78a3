//! The proxies whose bounding box left the enlarged one, recorded by each thread for itself.

use core::cell::RefCell;
use thread_local::ThreadLocal;
use vstd::prelude::*;

use crate::bit_vec::{blocks_for, BitVec};
use crate::collider_tree::aabbs::TreeCapacities;
use crate::collider_tree::moved::MovedProxies;
use crate::collider_tree::proxy::{
    ColliderTreeProxyKey, ColliderTreeType, ProxyId, PLACEHOLDER_PROXY,
};
use crate::collider_tree::tree::ColliderTree;
use crate::collider_tree::update::{
    are_proxies_at, moved_ids, update_tree, with_moved, with_newly_moved, MovedProxy,
};

verus! {

/// Declares the per-thread storage of `thread_local`.
#[verifier::external_type_specification]
#[verifier::external_body]
#[verifier::reject_recursive_types(T)]
pub struct ExThreadLocal<T: Send>(ThreadLocal<T>);

/// Declares `RefCell`.
#[verifier::external_type_specification]
#[verifier::external_body]
#[verifier::reject_recursive_types(T)]
pub struct ExRefCell<T: ?Sized>(RefCell<T>);

/// Calls `ThreadLocal::new`. What the threads hold changes behind shared references, so nothing is
/// claimed of it.
#[verifier::external_body]
fn thread_bits_new() -> (bits: ThreadLocal<RefCell<BitVec>>) {
    ThreadLocal::new()
}

/// Calls `ThreadLocal::clear`, which drops the bits of every thread. Nothing is claimed of what the
/// threads hold.
#[verifier::external_body]
fn thread_bits_clear(bits: &mut ThreadLocal<RefCell<BitVec>>) {
    bits.clear();
}

/// Calls `ThreadLocal::iter_mut`, and hands out a copy of the bits of every thread, in unspecified
/// order. Which bits the threads set before is not known here, so nothing is claimed of the result.
#[verifier::external_body]
fn thread_bits_all(bits: &mut ThreadLocal<RefCell<BitVec>>) -> (all: Vec<BitVec>) {
    bits.iter_mut().map(|bits| bits.get_mut().clone()).collect()
}

/// Calls `ThreadLocal::get_or`, and hands out the cell of the current thread. The cell of a thread
/// that has none yet is made with the given number of bits, none of which is set. What a cell holds
/// changes behind shared references, so nothing is claimed of it.
#[verifier::external_body]
fn thread_bits_own(bits: &ThreadLocal<RefCell<BitVec>>, bit_count: usize) -> (own: &RefCell<
    BitVec,
>) {
    bits.get_or(|| RefCell::new(BitVec::new(bit_count)))
}

/// Calls `RefCell::replace`, and hands out what the cell held before. Nothing is claimed of it,
/// since it changes behind shared references. The call panics if the cell is borrowed: the cells of
/// threads are private to this module, which never holds a borrow of one beyond a single call.
#[verifier::external_body]
fn cell_replace(cell: &RefCell<BitVec>, bits: BitVec) -> (before: BitVec) {
    cell.replace(bits)
}

/// The bits that are set in any of the given ones.
pub open spec fn any_bit(all: Seq<BitVec>) -> Set<usize> {
    Set::new(|b: usize| exists|i: int| 0 <= i < all.len() && (#[trigger] all[i])@.contains(b))
}

/// The proxies of a tree whose bounding box left the enlarged one. Set bits are the places of the
/// proxies.
pub struct EnlargedProxiesBitVec {
    /// The proxies that were recorded, once those of all threads are combined.
    global: BitVec,
    /// The proxies that each thread recorded.
    thread_local: ThreadLocal<RefCell<BitVec>>,
}

impl EnlargedProxiesBitVec {
    /// The proxies that were recorded, once those of all threads are combined.
    pub closed spec fn view(&self) -> Set<usize> {
        self.global@
    }

    /// The number of blocks of bits.
    pub closed spec fn block_count(&self) -> nat {
        self.global.block_count()
    }

    /// The proxies that were recorded, once those of all threads are combined.
    pub fn global(&self) -> (global: &BitVec)
        ensures
            global@ == self@,
            global.block_count() == self.block_count(),
    {
        &self.global
    }

    /// No proxies.
    pub fn new() -> (bits: Self)
        ensures
            bits@ == Set::<usize>::empty(),
            bits.block_count() == 0,
    {
        EnlargedProxiesBitVec { global: BitVec::new(0), thread_local: thread_bits_new() }
    }

    /// Clears the enlarged proxies and sets the capacity of the internal structures.
    pub fn clear_and_set_capacity(&mut self, capacity: usize)
        ensures
            final(self)@ == Set::<usize>::empty(),
            final(self).block_count() == blocks_for(capacity as nat),
    {
        self.global.set_bit_count_and_clear(capacity);
        thread_bits_clear(&mut self.thread_local);
    }

    /// Records a proxy for the current thread. Only the record of the thread changes, behind the
    /// shared reference, until the records are combined.
    pub fn mark(&self, capacity: usize, id: ProxyId) {
        let own = thread_bits_own(&self.thread_local, capacity);
        let mut bits = cell_replace(own, BitVec::new(0));
        bits.set_and_grow(id.0 as usize);
        cell_replace(own, bits);
    }

    /// Records a proxy with no thread in between.
    pub fn record(&mut self, id: ProxyId)
        ensures
            final(self)@ == old(self)@.insert(id.0 as usize),
            final(self).block_count() == if id.0 < 64 * old(self).block_count() {
                old(self).block_count()
            } else {
                blocks_for((id.0 + 1) as nat)
            },
    {
        self.global.set_and_grow(id.0 as usize);
    }

    /// Combines the given proxies into the global ones.
    pub fn combine(&mut self, all: &Vec<BitVec>)
        ensures
            final(self)@ == old(self)@.union(any_bit(all@)),
    {
        let mut i: usize = 0;
        assert(self@ =~= old(self)@.union(any_bit(all@.take(0))));
        while i < all.len()
            invariant
                i <= all@.len(),
                self@ == old(self)@.union(any_bit(all@.take(i as int))),
            decreases all@.len() - i,
        {
            self.global.or(&all[i]);
            proof {
                let done = all@.take(i as int);
                let next = all@.take(i + 1);
                assert forall|b: usize|
                    any_bit(next).contains(b) <==> any_bit(done).contains(b)
                        || all@[i as int]@.contains(b) by {
                    if any_bit(done).contains(b) {
                        let k = choose|k: int| 0 <= k < done.len() && (#[trigger] done[k])@.contains(b);
                        assert(next[k]@.contains(b));
                    }
                    if all@[i as int]@.contains(b) {
                        assert(next[i as int]@.contains(b));
                    }
                    if any_bit(next).contains(b) {
                        let k = choose|k: int| 0 <= k < next.len() && (#[trigger] next[k])@.contains(b);
                        if k < i {
                            assert(done[k]@.contains(b));
                        }
                    }
                }
                assert(self@ =~= old(self)@.union(any_bit(next)));
            }
            i = i + 1;
        }
        assert(all@.take(i as int) =~= all@);
    }

    /// Combines the proxies that each thread recorded into the global ones. None of the global ones
    /// is lost, whatever the threads recorded.
    pub fn combine_thread_local(&mut self)
        ensures
            old(self)@.subset_of(final(self)@),
    {
        let all = thread_bits_all(&mut self.thread_local);
        self.combine(&all);
    }
}

impl Default for EnlargedProxiesBitVec {
    fn default() -> (bits: Self)
        ensures
            bits@ == Set::<usize>::empty(),
            bits.block_count() == 0,
    {
        Self::new()
    }
}

/// The proxies whose bounding box left the enlarged one, for each tree.
pub struct EnlargedProxies {
    pub dynamic_proxies: EnlargedProxiesBitVec,
    pub kinematic_proxies: EnlargedProxiesBitVec,
    pub static_proxies: EnlargedProxiesBitVec,
    pub standalone_proxies: EnlargedProxiesBitVec,
}

impl Default for EnlargedProxies {
    fn default() -> (proxies: Self)
        ensures
            forall|tree_type: ColliderTreeType| #[trigger]
                proxies.of_type(tree_type)@ == Set::<usize>::empty(),
            forall|tree_type: ColliderTreeType| #[trigger]
                proxies.of_type(tree_type).block_count() == 0,
    {
        Self::new()
    }
}

impl EnlargedProxies {
    /// The proxies of a tree.
    pub open spec fn of_type(&self, tree_type: ColliderTreeType) -> EnlargedProxiesBitVec {
        match tree_type {
            ColliderTreeType::Dynamic => self.dynamic_proxies,
            ColliderTreeType::Kinematic => self.kinematic_proxies,
            ColliderTreeType::Static => self.static_proxies,
            ColliderTreeType::Standalone => self.standalone_proxies,
        }
    }

    /// No proxies.
    pub fn new() -> (proxies: Self)
        ensures
            forall|tree_type: ColliderTreeType| #[trigger]
                proxies.of_type(tree_type)@ == Set::<usize>::empty(),
            forall|tree_type: ColliderTreeType| #[trigger]
                proxies.of_type(tree_type).block_count() == 0,
    {
        EnlargedProxies {
            dynamic_proxies: EnlargedProxiesBitVec::new(),
            kinematic_proxies: EnlargedProxiesBitVec::new(),
            static_proxies: EnlargedProxiesBitVec::new(),
            standalone_proxies: EnlargedProxiesBitVec::new(),
        }
    }

    /// The proxies of a tree.
    pub fn bit_vec_for_type(&self, tree_type: ColliderTreeType) -> (bits: &EnlargedProxiesBitVec)
        ensures
            *bits == self.of_type(tree_type),
    {
        match tree_type {
            ColliderTreeType::Dynamic => &self.dynamic_proxies,
            ColliderTreeType::Kinematic => &self.kinematic_proxies,
            ColliderTreeType::Static => &self.static_proxies,
            ColliderTreeType::Standalone => &self.standalone_proxies,
        }
    }

    /// The proxies of a tree, for changing them.
    pub fn bit_vec_for_type_mut(
        &mut self,
        tree_type: ColliderTreeType,
    ) -> (bits: &mut EnlargedProxiesBitVec)
        ensures
            *bits == old(self).of_type(tree_type),
            final(self).of_type(tree_type) == *final(bits),
            forall|other: ColliderTreeType|
                other != tree_type ==> #[trigger] final(self).of_type(other) == old(self).of_type(
                    other,
                ),
    {
        match tree_type {
            ColliderTreeType::Dynamic => &mut self.dynamic_proxies,
            ColliderTreeType::Kinematic => &mut self.kinematic_proxies,
            ColliderTreeType::Static => &mut self.static_proxies,
            ColliderTreeType::Standalone => &mut self.standalone_proxies,
        }
    }
}

impl EnlargedProxies {
    /// Clears the records of all trees, and sets their capacities.
    pub fn clear_for_all(&mut self, capacities: TreeCapacities)
        ensures
            forall|tree_type: ColliderTreeType| #[trigger]
                final(self).of_type(tree_type)@ == Set::<usize>::empty(),
            forall|tree_type: ColliderTreeType| #[trigger]
                final(self).of_type(tree_type).block_count() == blocks_for(
                    capacities.of_type(tree_type) as nat,
                ),
    {
        self.dynamic_proxies.clear_and_set_capacity(capacities.dynamic);
        self.kinematic_proxies.clear_and_set_capacity(capacities.kinematic);
        self.static_proxies.clear_and_set_capacity(capacities.fixed);
        self.standalone_proxies.clear_and_set_capacity(capacities.standalone);
    }

    /// Clears the records of the trees of solver bodies, and sets their capacities.
    pub fn clear_for_solver_bodies(&mut self, capacities: TreeCapacities)
        ensures
            final(self).dynamic_proxies@ == Set::<usize>::empty(),
            final(self).kinematic_proxies@ == Set::<usize>::empty(),
            final(self).dynamic_proxies.block_count() == blocks_for(capacities.dynamic as nat),
            final(self).kinematic_proxies.block_count() == blocks_for(
                capacities.kinematic as nat,
            ),
            final(self).static_proxies == old(self).static_proxies,
            final(self).standalone_proxies == old(self).standalone_proxies,
    {
        self.dynamic_proxies.clear_and_set_capacity(capacities.dynamic);
        self.kinematic_proxies.clear_and_set_capacity(capacities.kinematic);
    }

    /// Records a proxy for the current thread. Only the record of the thread changes, behind the
    /// shared reference, until the records are combined.
    pub fn mark(&self, capacities: TreeCapacities, key: ColliderTreeProxyKey) {
        self.bit_vec_for_type(key.tree_type).mark(capacities.for_type(key.tree_type), key.id);
    }

    /// Records a proxy with no thread in between.
    pub fn record(&mut self, key: ColliderTreeProxyKey)
        ensures
            final(self).of_type(key.tree_type)@ == old(self).of_type(key.tree_type)@.insert(
                key.id.0 as usize,
            ),
            forall|other: ColliderTreeType|
                other != key.tree_type ==> #[trigger] final(self).of_type(other) == old(self).of_type(
                    other,
                ),
    {
        self.bit_vec_for_type_mut(key.tree_type).record(key.id);
    }
}

/// The proxies of a tree that moved, and the number of all its proxies, from which follows how the
/// hierarchy of bounding boxes is best brought up to date.
#[derive(Clone, Debug)]
pub struct MovedUpdate {
    pub proxies: Vec<MovedProxy>,
    pub proxy_count: usize,
}

/// Whether all bits are places of proxies of a tree.
pub open spec fn are_places(bits: Set<usize>, tree: ColliderTree) -> bool {
    forall|b: usize| #[trigger]
        bits.contains(b) ==> b < PLACEHOLDER_PROXY && tree@.contains_key(ProxyId(b as u32))
}

/// Whether all bits are places of proxies of a tree.
pub fn bits_are_places(bits: &BitVec, tree: &ColliderTree) -> (are: bool)
    ensures
        are == are_places(bits@, *tree),
{
    let ones = bits.ones();
    let mut i: usize = 0;
    while i < ones.len()
        invariant
            i <= ones@.len(),
            forall|k: int|
                0 <= k < i ==> (#[trigger] ones@[k]) < PLACEHOLDER_PROXY && tree@.contains_key(
                    ProxyId(ones@[k] as u32),
                ),
            forall|k: int| 0 <= k < ones@.len() ==> bits@.contains(#[trigger] ones@[k]),
        decreases ones@.len() - i,
    {
        let one: usize = ones[i];
        if one >= PLACEHOLDER_PROXY as usize || tree.get_proxy(ProxyId(one as u32)).is_none() {
            assert(bits@.contains(ones@[i as int]));
            return false;
        }
        i = i + 1;
    }
    proof {
        assert forall|b: usize| #[trigger] bits@.contains(b) implies b < PLACEHOLDER_PROXY
            && tree@.contains_key(ProxyId(b as u32)) by {
            let k = choose|k: int| 0 <= k < ones@.len() && ones@[k] == b;
            assert(ones@[k] == b);
        }
    }
    true
}

/// Combines what the threads recorded, and records the proxies as moved. Returns nothing if one of
/// them is not in the tree; then no proxy is recorded as moved.
pub fn update_tree_for_moved_proxies(
    tree_type: ColliderTreeType,
    tree: &mut ColliderTree,
    bit_vec: &mut EnlargedProxiesBitVec,
    moved_proxies: &mut MovedProxies,
) -> (update: Option<MovedUpdate>)
    requires
        old(tree).wf(),
        old(moved_proxies).wf(),
        old(moved_proxies)@.len() + old(tree).slots() <= u32::MAX,
    ensures
        final(tree).wf(),
        final(moved_proxies).wf(),
        old(bit_vec)@.subset_of(final(bit_vec)@),
        update is Some <==> are_places(final(bit_vec)@, *old(tree)),
        update is None ==> *final(tree) == *old(tree) && *final(moved_proxies) == *old(moved_proxies),
        update matches Some(u) ==> {
            &&& are_proxies_at(u.proxies@, final(bit_vec)@, old(tree)@)
            &&& u.proxy_count == old(tree)@.dom().len()
            &&& final(tree)@ == old(tree)@
            &&& final(tree).slots() == old(tree).slots()
            &&& final(tree).moved() == with_newly_moved(
                old(tree).moved(),
                old(moved_proxies)@,
                tree_type,
                moved_ids(u.proxies@),
                u.proxies@.len() as int,
            )
            &&& final(moved_proxies)@ == with_moved(
                old(moved_proxies)@,
                tree_type,
                moved_ids(u.proxies@),
                u.proxies@.len() as int,
            )
        },
{
    bit_vec.combine_thread_local();
    if !bits_are_places(bit_vec.global(), tree) {
        return None;
    }
    let proxy_count: usize = tree.len();
    let proxies = update_tree(tree_type, tree, bit_vec.global(), moved_proxies);
    Some(MovedUpdate { proxies, proxy_count })
}

} // verus!
