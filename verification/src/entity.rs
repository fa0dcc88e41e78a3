//! Identifiers of the things that a simulation keeps track of.

use vstd::prelude::*;

verus! {

/// An entity: a slot index, and the generation that tells the successive users of a slot apart.
#[derive(Clone, Copy, Debug, PartialEq, Eq, Hash, Structural)]
pub struct Entity {
    pub index: u32,
    pub generation: u32,
}

/// The number that stands for an entity in a table: the generation above the index.
pub open spec fn entity_bits(entity: Entity) -> u64 {
    (entity.generation * 0x1_0000_0000 + entity.index) as u64
}

impl Entity {
    /// An entity with the given index, in its first generation.
    pub fn from_raw(index: u32) -> (entity: Self)
        ensures
            entity == (Entity { index, generation: 0 }),
    {
        Entity { index, generation: 0 }
    }

    /// The index of the slot that the entity lives in.
    pub fn index_u32(&self) -> (index: u32)
        ensures
            index == self.index,
    {
        self.index
    }

    /// The number that stands for the entity in a table.
    pub fn to_bits(&self) -> (bits: u64)
        ensures
            bits == entity_bits(*self),
    {
        self.generation as u64 * 0x1_0000_0000 + self.index as u64
    }
}

/// Two entities are the same if the numbers that stand for them are.
pub proof fn entity_bits_injective(a: Entity, b: Entity)
    requires
        entity_bits(a) == entity_bits(b),
    ensures
        a == b,
{
}

/// A stable identifier of a contact pair.
#[derive(Clone, Copy, Debug, PartialEq, Eq, Hash, Structural)]
pub struct ContactId(pub u32);

/// A stable identifier of a joint.
#[derive(Clone, Copy, Debug, PartialEq, Eq, Hash, Structural)]
pub struct JointId(pub u32);

} // verus!
