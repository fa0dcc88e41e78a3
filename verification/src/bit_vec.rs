//! A vector of bits, kept in blocks of 64.

use vstd::prelude::*;

verus! {

/// A vector of bits, kept in blocks of 64.
#[derive(Clone, Debug)]
pub struct BitVec {
    blocks: Vec<u64>,
}

/// Whether a bit of a block is set.
pub open spec fn bit(block: u64, i: u64) -> bool {
    (block >> i) & 1u64 == 1u64
}

/// The number of blocks that hold the given number of bits.
pub open spec fn blocks_for(bit_count: nat) -> nat {
    (bit_count + 63) / 64
}

/// Whether the sequence holds the members of a set of bits in ascending order.
pub open spec fn ascends_through(s: Seq<usize>, bits: Set<usize>) -> bool {
    &&& forall|i: int| 0 <= i < s.len() ==> bits.contains(#[trigger] s[i])
    &&& forall|b: usize| #[trigger] bits.contains(b) ==> s.contains(b)
    &&& forall|i: int, j: int| 0 <= i < j < s.len() ==> s[i] < s[j]
}

impl BitVec {
    /// The bits that are set.
    pub closed spec fn view(&self) -> Set<usize> {
        Set::new(
            |i: usize|
                (i / 64) < self.blocks@.len() && bit(
                    self.blocks@[(i / 64) as int],
                    (i % 64) as u64,
                ),
        )
    }

    /// The number of blocks.
    pub closed spec fn block_count(&self) -> nat {
        self.blocks@.len()
    }

    /// The bits that are set and come before bit `low` of block `k`.
    spec fn ones_below(&self, k: int, low: int) -> Set<usize> {
        Set::new(
            |i: usize| self@.contains(i) && ((i / 64) < k || (i / 64 == k && i % 64 < low)),
        )
    }

    /// A vector that holds the given number of bits, none of them set.
    pub fn new(bit_count: usize) -> (bits: Self)
        ensures
            bits@ == Set::<usize>::empty(),
            bits.block_count() == blocks_for(bit_count as nat),
    {
        let mut bits = BitVec { blocks: Vec::new() };
        bits.set_bit_count_and_clear(bit_count);
        bits
    }

    /// Makes room for the given number of bits, and clears all of them.
    pub fn set_bit_count_and_clear(&mut self, bit_count: usize)
        ensures
            final(self)@ == Set::<usize>::empty(),
            final(self).block_count() == blocks_for(bit_count as nat),
    {
        let extra: usize = if bit_count % 64 == 0 {
            0
        } else {
            1
        };
        let count: usize = bit_count / 64 + extra;
        self.blocks.clear();
        while self.blocks.len() < count
            invariant
                self.blocks@.len() <= count,
                forall|k: int| 0 <= k < self.blocks@.len() ==> self.blocks@[k] == 0,
            decreases count - self.blocks@.len(),
        {
            self.blocks.push(0);
        }
        proof {
            assert(forall|i: u64| !(#[trigger] bit(0, i))) by {
                assert forall|i: u64| !(#[trigger] bit(0, i)) by {
                    assert((0u64 >> i) & 1u64 != 1u64) by (bit_vector);
                }
            }
            assert(self@ =~= Set::<usize>::empty());
        }
    }

    /// Whether a bit is set.
    pub fn get(&self, index: usize) -> (set: bool)
        ensures
            set == self@.contains(index),
    {
        let block: usize = index / 64;
        if block < self.blocks.len() {
            (self.blocks[block] >> (index % 64) as u64) & 1u64 == 1u64
        } else {
            false
        }
    }

    /// Sets a bit.
    pub fn set(&mut self, index: usize)
        requires
            index < old(self).block_count() * 64,
        ensures
            final(self)@ == old(self)@.insert(index),
            final(self).block_count() == old(self).block_count(),
    {
        let block: usize = index / 64;
        let shift: u64 = (index % 64) as u64;
        let before: u64 = self.blocks[block];
        let mask: u64 = 1u64 << shift;
        self.blocks.set(block, before | mask);
        proof {
            assert forall|j: u64| j < 64 implies (#[trigger] bit(before | mask, j) <==> bit(
                before,
                j,
            ) || j == shift) by {
                assert((((before | (1u64 << shift)) >> j) & 1u64 == 1u64) <==> ((before >> j)
                    & 1u64 == 1u64 || j == shift)) by (bit_vector)
                    requires
                        j < 64,
                        shift < 64,
                ;
            }
            assert forall|i: usize| self@.contains(i) <==> old(self)@.insert(index).contains(i) by {
                if i / 64 == block {
                    assert(bit(before | mask, (i % 64) as u64) <==> bit(before, (i % 64) as u64)
                        || (i % 64) as u64 == shift);
                }
            }
            assert(self@ =~= old(self)@.insert(index));
        }
    }

    /// Adds blocks until there are as many as asked for.
    fn grow(&mut self, count: usize)
        ensures
            final(self)@ == old(self)@,
            final(self).block_count() == if old(self).block_count() < count {
                count as nat
            } else {
                old(self).block_count()
            },
    {
        while self.blocks.len() < count
            invariant
                self@ == old(self)@,
                old(self).blocks@.len() <= self.blocks@.len(),
                self.blocks@.len() <= count || self.blocks@.len() == old(self).blocks@.len(),
            decreases count - self.blocks@.len(),
        {
            let ghost before = *self;
            self.blocks.push(0);
            proof {
                assert forall|i: u64| !(#[trigger] bit(0, i)) by {
                    assert((0u64 >> i) & 1u64 != 1u64) by (bit_vector);
                }
                assert(self@ =~= before@);
            }
        }
    }

    /// Sets a bit, and makes room for it if there is none.
    pub fn set_and_grow(&mut self, index: usize)
        ensures
            final(self)@ == old(self)@.insert(index),
            final(self).block_count() == if old(self).block_count() <= index / 64 {
                (index / 64 + 1) as nat
            } else {
                old(self).block_count()
            },
    {
        self.grow(index / 64 + 1);
        self.set(index);
    }

    /// Sets all bits that are set in another vector.
    pub fn or(&mut self, other: &BitVec)
        ensures
            final(self)@ == old(self)@.union(other@),
            final(self).block_count() == if old(self).block_count() < other.block_count() {
                other.block_count()
            } else {
                old(self).block_count()
            },
    {
        self.grow(other.blocks.len());
        let ghost grown = *self;
        let mut k: usize = 0;
        while k < other.blocks.len()
            invariant
                k <= other.blocks@.len(),
                other.blocks@.len() <= self.blocks@.len(),
                self.blocks@.len() == grown.blocks@.len(),
                forall|i: int|
                    0 <= i < k ==> #[trigger] self.blocks@[i] == grown.blocks@[i] | other.blocks@[i],
                forall|i: int|
                    k <= i < self.blocks@.len() ==> #[trigger] self.blocks@[i] == grown.blocks@[i],
            decreases other.blocks@.len() - k,
        {
            let block: u64 = self.blocks[k] | other.blocks[k];
            self.blocks.set(k, block);
            k = k + 1;
        }
        proof {
            assert forall|i: usize| self@.contains(i) <==> grown@.contains(i) || other@.contains(
                i,
            ) by {
                let n = (i / 64) as int;
                let j = (i % 64) as u64;
                if n < other.blocks@.len() {
                    let a = grown.blocks@[n];
                    let b = other.blocks@[n];
                    assert(self.blocks@[n] == a | b);
                    assert((((a | b) >> j) & 1u64 == 1u64) <==> ((a >> j) & 1u64 == 1u64 || (b >> j)
                        & 1u64 == 1u64)) by (bit_vector)
                        requires
                            j < 64,
                    ;
                }
            }
            assert(self@ =~= old(self)@.union(other@));
        }
    }

    /// The bits that are set, in ascending order.
    pub fn ones(&self) -> (ones: Vec<usize>)
        ensures
            ascends_through(ones@, self@),
    {
        let mut ones: Vec<usize> = Vec::new();
        let mut k: usize = 0;
        assert(self.ones_below(0, 0) =~= Set::<usize>::empty());
        // No index lies above that of the last bit of the last block that `usize` can address.
        let last: usize = usize::MAX / 64;
        while k < self.blocks.len() && k <= last
            invariant
                last == usize::MAX / 64,
                k <= self.blocks@.len(),
                k <= last + 1,
                ascends_through(ones@, self.ones_below(k as int, 0)),
            decreases self.blocks@.len() - k,
        {
            let mut bits: u64 = self.blocks[k];
            let ghost block = bits;
            let ghost mut low: int = 0;
            while bits != 0
                invariant
                    last == usize::MAX / 64,
                    k <= last,
                    k < self.blocks@.len(),
                    block == self.blocks@[k as int],
                    0 <= low <= 64,
                    forall|j: u64| j < low ==> !(#[trigger] bit(bits, j)),
                    forall|j: u64| low <= j < 64 ==> (#[trigger] bit(bits, j) <==> bit(block, j)),
                    ascends_through(ones@, self.ones_below(k as int, low)),
                decreases 64 - low,
            {
                let zeros: u32 = bits.trailing_zeros();
                proof {
                    vstd::std_specs::bits::axiom_u64_trailing_zeros(bits);
                    assert(bit(bits, zeros as u64));
                    assert(low <= zeros) by {
                        if zeros < low {
                            assert(!bit(bits, zeros as u64));
                        }
                    }
                }
                assert(usize::MAX == 0xffff_ffff || usize::MAX == 0xffff_ffff_ffff_ffff);
                let index: usize = k * 64 + zeros as usize;
                let ghost before = ones@;
                ones.push(index);
                let ghost bits0 = bits;
                // Clear the least significant bit that is set.
                bits = bits & (bits - 1);
                proof {
                    let z = zeros as u64;
                    assert forall|j: u64| j < 64 implies (#[trigger] bit(bits, j) <==> bit(bits0, j)
                        && j > z) by {
                        lemma_clear_lowest(bits0, z, j);
                    }
                    assert(index / 64 == k && index % 64 == zeros);
                    let next = zeros as int + 1;
                    let old_set = self.ones_below(k as int, low);
                    let new_set = self.ones_below(k as int, next);
                    assert forall|b: usize| #[trigger] new_set.contains(b) implies ones@.contains(
                        b,
                    ) by {
                        if b == index {
                            assert(ones@[before.len() as int] == b);
                        } else {
                            if b / 64 == k && b % 64 >= low {
                                let j = (b % 64) as u64;
                                assert(j < z);
                                assert((bits0 >> j) & 1u64 == 0u64);
                                assert(bit(bits0, j) <==> bit(block, j));
                                assert(false);
                            }
                            assert(old_set.contains(b));
                            let n = choose|n: int| 0 <= n < before.len() && before[n] == b;
                            assert(ones@[n] == b);
                        }
                    }
                    assert forall|n: int| 0 <= n < ones@.len() implies new_set.contains(
                        #[trigger] ones@[n],
                    ) by {
                        if n < before.len() {
                            assert(old_set.contains(before[n]));
                        } else {
                            assert(bit(block, z));
                            assert(self@.contains(index));
                        }
                    }
                    assert forall|n: int, m: int| 0 <= n < m < ones@.len() implies ones@[n]
                        < ones@[m] by {
                        if m == before.len() {
                            assert(old_set.contains(before[n]));
                        }
                    }
                    low = next;
                }
            }
            proof {
                let old_set = self.ones_below(k as int, low);
                let new_set = self.ones_below(k + 1, 0);
                assert forall|b: usize| #[trigger] new_set.contains(b) implies old_set.contains(
                    b,
                ) by {
                    if b / 64 == k && b % 64 >= low {
                        let j = (b % 64) as u64;
                        assert(bit(bits, j) <==> bit(block, j));
                        assert((0u64 >> j) & 1u64 != 1u64) by (bit_vector);
                        assert(false);
                    }
                }
                assert(old_set =~= new_set);
            }
            k = k + 1;
        }
        proof {
            assert(self.ones_below(k as int, 0) =~= self@);
        }
        ones
    }

    /// The number of bits that are set.
    pub fn count_ones(&self) -> (count: usize)
        ensures
            self@.finite(),
            count == self@.len(),
    {
        let ones = self.ones();
        proof {
            ones@.unique_seq_to_set();
            assert(ones@.to_set() =~= self@);
        }
        ones.len()
    }
}

proof fn lemma_clear_lowest(bits: u64, z: u64, j: u64)
    requires
        z < 64,
        j < 64,
        bits != 0,
        (bits >> z) & 1u64 == 1u64,
        bits << (64 - z) as u64 == 0,
    ensures
        bit(bits & (bits - 1) as u64, j) <==> bit(bits, j) && j > z,
{
    assert((((bits & (bits - 1) as u64) >> j) & 1u64 == 1u64) <==> ((bits >> j) & 1u64 == 1u64 && j
        > z)) by (bit_vector)
        requires
            z < 64,
            j < 64,
            bits != 0,
            (bits >> z) & 1u64 == 1u64,
            bits << (64 - z) as u64 == 0,
    ;
}

/// There are as few blocks of 64 bits as hold the given number of bits.
pub proof fn blocks_hold_the_bits(bit_count: nat)
    ensures
        bit_count <= 64 * blocks_for(bit_count) < bit_count + 64,
        blocks_for(0) == 0,
{
}

/// The members of a set in ascending order are all its members, each once.
pub proof fn ascending_members_are_all_members(s: Seq<usize>, bits: Set<usize>)
    requires
        ascends_through(s, bits),
    ensures
        forall|b: usize| #[trigger] s.contains(b) <==> bits.contains(b),
        forall|i: int, j: int| 0 <= i < j < s.len() ==> s[i] < s[j],
        s.no_duplicates(),
{
    assert forall|i: int, j: int| 0 <= i < s.len() && 0 <= j < s.len() && i != j implies s[i]
        != s[j] by {
        if i < j {
            assert(s[i] < s[j]);
        } else {
            assert(s[j] < s[i]);
        }
    }
}

} // verus!
