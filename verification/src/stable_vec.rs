//! A vector whose elements keep their index until they are removed.

use vstd::prelude::*;

verus! {

/// A vector whose elements keep their index until they are removed.
///
/// Freed indices are used again, the one that was freed last first.
#[derive(Clone, Debug)]
#[verifier::reject_recursive_types(T)]
pub struct StableVec<T> {
    entries: Vec<Option<T>>,
    free: Vec<usize>,
    len: usize,
}

impl<T> StableVec<T> {
    /// The elements by index.
    pub closed spec fn view(&self) -> Map<usize, T> {
        Map::new(
            |i: usize| i < self.entries@.len() && self.entries@[i as int] is Some,
            |i: usize| self.entries@[i as int]->0,
        )
    }

    /// The number of indices ever used: every index in use lies below it.
    pub closed spec fn slots(&self) -> nat {
        self.entries@.len()
    }

    /// The index that the next element gets.
    pub closed spec fn next_index(&self) -> usize {
        if self.free@.len() > 0 {
            self.free@.last()
        } else {
            self.entries@.len() as usize
        }
    }

    /// The indices that were freed and not used again, in the order in which they were freed.
    pub closed spec fn freed(&self) -> Seq<usize> {
        self.free@
    }

    pub closed spec fn wf(&self) -> bool {
        &&& forall|i: int|
            0 <= i < self.free@.len() ==> (#[trigger] self.free@[i]) < self.entries@.len()
                && self.entries@[self.free@[i] as int] is None
        &&& forall|i: int, j: int|
            0 <= i < j < self.free@.len() ==> self.free@[i] != self.free@[j]
        &&& forall|i: usize|
            i < self.entries@.len() && (#[trigger] self.entries@[i as int]) is None
                ==> self.free@.contains(i)
        &&& self.view().dom().finite()
        &&& self.len == self.view().dom().len()
        &&& self.len <= self.entries@.len()
    }

    /// Every index in use lies below `slots`, and the next index is free.
    pub proof fn lemma_bounds(&self)
        requires
            self.wf(),
            self.slots() <= usize::MAX,
        ensures
            self@.dom().finite(),
            self@.dom().len() <= self.slots(),
            !self@.contains_key(self.next_index()),
            self.next_index() <= self.slots(),
            forall|i: usize| #[trigger] self@.contains_key(i) ==> i < self.slots(),
    {
    }

    /// Every index that was ever used is either in use or free, and the next element gets the one that
    /// was freed last. Only if none is free, it gets a new one.
    pub proof fn freed_indices_are_used_again(&self)
        requires
            self.wf(),
            self.slots() <= usize::MAX,
        ensures
            self.freed().no_duplicates(),
            forall|i: usize| #[trigger]
                self.freed().contains(i) <==> i < self.slots() && !self@.contains_key(i),
            self.freed().len() > 0 ==> self.next_index() == self.freed().last(),
            self.freed().len() == 0 ==> self.next_index() == self.slots(),
    {
        assert forall|i: usize| #[trigger] self.freed().contains(i) <==> i < self.slots()
            && !self@.contains_key(i) by {
            if i < self.slots() && !self@.contains_key(i) {
                assert(self.entries@[i as int] is None);
            }
        }
    }

    /// An empty vector.
    pub fn new() -> (vec: Self)
        ensures
            vec.wf(),
            vec@ == Map::<usize, T>::empty(),
            vec.slots() == 0,
            vec.next_index() == 0,
            vec.freed() == Seq::<usize>::empty(),
    {
        let vec = StableVec { entries: Vec::new(), free: Vec::new(), len: 0 };
        assert(vec@ =~= Map::<usize, T>::empty());
        vec
    }

    /// The number of elements.
    pub fn len(&self) -> (len: usize)
        requires
            self.wf(),
        ensures
            len == self@.dom().len(),
    {
        self.len
    }

    /// Whether there are no elements.
    pub fn is_empty(&self) -> (empty: bool)
        requires
            self.wf(),
        ensures
            empty == (self@ == Map::<usize, T>::empty()),
    {
        proof {
            if self.len == 0 {
                assert(self@.dom() =~= Set::<usize>::empty());
                assert(self@ =~= Map::<usize, T>::empty());
            }
        }
        self.len == 0
    }

    /// A number that lies above every index in use.
    pub fn slot_count(&self) -> (slots: usize)
        ensures
            slots == self.slots(),
    {
        self.entries.len()
    }

    /// The index that the next element gets.
    pub fn next_push_index(&self) -> (index: usize)
        ensures
            index == self.next_index(),
    {
        if self.free.len() > 0 {
            self.free[self.free.len() - 1]
        } else {
            self.entries.len()
        }
    }

    /// Adds an element, and returns its index.
    pub fn push(&mut self, value: T) -> (index: usize)
        requires
            old(self).wf(),
            old(self).slots() < usize::MAX,
        ensures
            final(self).wf(),
            index == old(self).next_index(),
            final(self)@ == old(self)@.insert(index, value),
            final(self).slots() == if index < old(self).slots() {
                old(self).slots()
            } else {
                old(self).slots() + 1
            },
            final(self).freed() == if old(self).freed().len() > 0 {
                old(self).freed().drop_last()
            } else {
                old(self).freed()
            },
    {
        let index: usize = self.next_push_index();
        proof {
            let below = Set::new(|i: usize| i < self.entries@.len());
            vstd::set_lib::range_set_properties::<usize>(0, self.entries@.len() as usize);
            assert(below =~= Set::range(0, self.entries@.len() as usize));
            if self.free@.len() > 0 {
                assert(below.contains(index));
                vstd::set_lib::lemma_len_subset(self.view().dom(), below.remove(index));
            }
        }
        if self.free.len() > 0 {
            self.free.pop();
            self.entries.set(index, Some(value));
        } else {
            self.entries.push(Some(value));
        }
        self.len = self.len + 1;
        assert(self@ =~= old(self)@.insert(index, value));
        proof {
            let before = old(self).free@;
            assert forall|i: usize|
                i < self.entries@.len() && (
                #[trigger] self.entries@[i as int]) is None implies self.free@.contains(i) by {
                assert(i != index);
                assert(old(self).entries@[i as int] is None);
                assert(before.contains(i));
                let n = choose|n: int| 0 <= n < before.len() && before[n] == i;
                assert(self.free@[n] == i);
            }
        }
        index
    }

    /// The element at the given index, if there is one.
    pub fn get(&self, index: usize) -> (value: Option<&T>)
        ensures
            value is Some <==> self@.contains_key(index),
            value matches Some(v) ==> *v == self@[index],
    {
        if index < self.entries.len() {
            self.entries[index].as_ref()
        } else {
            None
        }
    }

    /// The element at the given index, to be changed, if there is one.
    pub fn get_mut(&mut self, index: usize) -> (value: Option<&mut T>)
        requires
            old(self).wf(),
        ensures
            value is Some <==> old(self)@.contains_key(index),
            value is None ==> *final(self) == *old(self),
            value matches Some(v) ==> {
                &&& *v == old(self)@[index]
                &&& final(self).wf()
                &&& final(self)@ == old(self)@.insert(index, *final(v))
                &&& final(self).slots() == old(self).slots()
                &&& final(self).next_index() == old(self).next_index()
                &&& final(self).freed() == old(self).freed()
            },
    {
        if index < self.entries.len() && self.entries[index].is_some() {
            let ghost before = *self;
            assert forall|after: StableVec<T>|
                after.free == before.free && after.len == before.len && after.entries@
                    == before.entries@.update(index as int, after.entries@[index as int])
                    && after.entries@[index as int] is Some implies #[trigger] after.wf() by {
                assert(after.view().dom() =~= before.view().dom());
                assert forall|i: usize|
                    i < after.entries@.len() && (
                    #[trigger] after.entries@[i as int]) is None implies after.free@.contains(
                    i,
                ) by {
                    assert(before.entries@[i as int] is None);
                }
            }
            self.entries[index].as_mut()
        } else {
            None
        }
    }

    /// Replaces the element at the given index.
    pub fn set(&mut self, index: usize, value: T)
        requires
            old(self).wf(),
            old(self)@.contains_key(index),
        ensures
            final(self).wf(),
            final(self)@ == old(self)@.insert(index, value),
            final(self).slots() == old(self).slots(),
            final(self).next_index() == old(self).next_index(),
            final(self).freed() == old(self).freed(),
    {
        self.entries.set(index, Some(value));
        assert(self@ =~= old(self)@.insert(index, value));
        assert(self@.dom() =~= old(self)@.dom());
        assert forall|i: usize|
            i < self.entries@.len() && (
            #[trigger] self.entries@[i as int]) is None implies self.free@.contains(i) by {
            assert(old(self).entries@[i as int] is None);
        }
    }

    /// Removes the element at the given index.
    pub fn remove(&mut self, index: usize) -> (value: T)
        requires
            old(self).wf(),
            old(self)@.contains_key(index),
        ensures
            final(self).wf(),
            value == old(self)@[index],
            final(self)@ == old(self)@.remove(index),
            final(self).slots() == old(self).slots(),
            final(self).next_index() == index,
            final(self).freed() == old(self).freed().push(index),
    {
        let value = self.entries[index].take();
        self.free.push(index);
        self.len = self.len - 1;
        assert(self@ =~= old(self)@.remove(index));
        proof {
            let before = old(self).free@;
            assert forall|i: usize|
                i < self.entries@.len() && (
                #[trigger] self.entries@[i as int]) is None implies self.free@.contains(i) by {
                if i == index {
                    assert(self.free@[before.len() as int] == i);
                } else {
                    assert(old(self).entries@[i as int] is None);
                    let n = choose|n: int| 0 <= n < before.len() && before[n] == i;
                    assert(self.free@[n] == i);
                }
            }
        }
        value.unwrap()
    }
}

} // verus!
