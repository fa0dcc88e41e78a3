//! The dense array of solver bodies, and the place of each body in it.

use vstd::prelude::*;
use std::collections::HashMap;

use crate::entity::{entity_bits, entity_bits_injective, Entity};
use crate::rigid_body::{
    solver_body_action, solver_body_action_of, BodyEvent, BodyState, PartAction,
};

verus! {

/// The place of a solver body in the array.
#[derive(Clone, Copy, Debug, PartialEq, Eq, Structural)]
pub struct SolverBodyIndex(pub u32);

/// The place that stands for "none".
pub const INVALID_SOLVER_BODY: u32 = 0xffff_ffff;

impl SolverBodyIndex {
    /// Whether the place is one in the array.
    pub fn is_valid(&self) -> (valid: bool)
        ensures
            valid == (self.0 != INVALID_SOLVER_BODY),
    {
        self.0 != INVALID_SOLVER_BODY
    }
}

/// The solver bodies, one after the other, and the entities that they belong to.
#[derive(Clone, Debug)]
#[verifier::reject_recursive_types(T)]
pub struct SolverBodies<T> {
    pub entities: Vec<Entity>,
    pub bodies: Vec<T>,
}

/// The places of the solver bodies of entities.
#[derive(Debug)]
pub struct SolverBodyIndices {
    table: HashMap<u64, u32>,
}

/// A sequence once the element at `i` was replaced by the last one, which moved there.
pub open spec fn swap_removed<T>(s: Seq<T>, i: int) -> Seq<T> {
    s.update(i, s.last()).drop_last()
}

impl SolverBodyIndices {
    /// The places of the solver bodies of entities.
    pub closed spec fn view(&self) -> Map<Entity, SolverBodyIndex> {
        Map::new(
            |entity: Entity| self.table@.contains_key(entity_bits(entity)),
            |entity: Entity| SolverBodyIndex(self.table@[entity_bits(entity)]),
        )
    }

    /// No places.
    pub fn new() -> (indices: Self)
        ensures
            indices@ == Map::<Entity, SolverBodyIndex>::empty(),
    {
        broadcast use vstd::std_specs::hash::group_hash_axioms;

        let indices = SolverBodyIndices { table: HashMap::new() };
        assert(indices@ =~= Map::<Entity, SolverBodyIndex>::empty());
        indices
    }

    /// The place of the solver body of an entity, if it has one.
    pub fn get(&self, entity: Entity) -> (index: Option<SolverBodyIndex>)
        ensures
            index is Some <==> self@.contains_key(entity),
            index matches Some(i) ==> i == self@[entity],
    {
        broadcast use vstd::std_specs::hash::group_hash_axioms;

        match self.table.get(&entity.to_bits()) {
            Some(index) => Some(SolverBodyIndex(*index)),
            None => None,
        }
    }

    /// Sets the place of the solver body of an entity.
    pub fn insert(&mut self, entity: Entity, index: SolverBodyIndex)
        ensures
            final(self)@ == old(self)@.insert(entity, index),
    {
        broadcast use vstd::std_specs::hash::group_hash_axioms;

        self.table.insert(entity.to_bits(), index.0);
        proof {
            assert forall|other: Entity| other != entity implies #[trigger] entity_bits(other)
                != entity_bits(entity) by {
                if entity_bits(other) == entity_bits(entity) {
                    entity_bits_injective(other, entity);
                }
            }
            assert(self@ =~= old(self)@.insert(entity, index));
        }
    }

    /// Forgets the place of the solver body of an entity.
    pub fn remove(&mut self, entity: Entity)
        ensures
            final(self)@ == old(self)@.remove(entity),
    {
        broadcast use vstd::std_specs::hash::group_hash_axioms;

        self.table.remove(&entity.to_bits());
        proof {
            assert forall|other: Entity| other != entity implies #[trigger] entity_bits(other)
                != entity_bits(entity) by {
                if entity_bits(other) == entity_bits(entity) {
                    entity_bits_injective(other, entity);
                }
            }
            assert(self@ =~= old(self)@.remove(entity));
        }
    }
}

/// Whether the places are those of the entities in the array: every entity in the array has its
/// place, and every valid place is that of the entity.
pub open spec fn indices_fit(entities: Seq<Entity>, indices: Map<Entity, SolverBodyIndex>) -> bool {
    &&& entities.len() <= INVALID_SOLVER_BODY
    &&& forall|i: int|
        0 <= i < entities.len() ==> indices.contains_key(#[trigger] entities[i])
            && indices[entities[i]].0 == i
    &&& forall|e: Entity| #[trigger]
        indices.contains_key(e) && indices[e].0 != INVALID_SOLVER_BODY ==> indices[e].0
            < entities.len() && entities[indices[e].0 as int] == e
}

impl<T> SolverBodies<T> {
    /// Whether every entity has one solver body.
    pub open spec fn wf(&self) -> bool {
        self.entities@.len() == self.bodies@.len()
    }

    /// No solver bodies.
    pub fn new() -> (bodies: Self)
        ensures
            bodies.wf(),
            bodies.entities@ == Seq::<Entity>::empty(),
            bodies.bodies@ == Seq::<T>::empty(),
    {
        SolverBodies { entities: Vec::new(), bodies: Vec::new() }
    }

    /// The number of solver bodies.
    pub fn len(&self) -> (len: usize)
        ensures
            len == self.entities@.len(),
    {
        self.entities.len()
    }

    /// The solver body at a place, if there is one.
    pub fn get(&self, index: SolverBodyIndex) -> (body: Option<&T>)
        ensures
            body is Some <==> index.0 < self.bodies@.len(),
            body matches Some(b) ==> *b == self.bodies@[index.0 as int],
    {
        if (index.0 as usize) < self.bodies.len() {
            Some(&self.bodies[index.0 as usize])
        } else {
            None
        }
    }

    /// Whether an entity has a solver body.
    pub fn contains_entity(&self, entity: Entity) -> (contains: bool)
        ensures
            contains == self.entities@.contains(entity),
    {
        let mut i: usize = 0;
        while i < self.entities.len()
            invariant
                i <= self.entities@.len(),
                forall|n: int| 0 <= n < i ==> self.entities@[n] != entity,
            decreases self.entities@.len() - i,
        {
            if self.entities[i] == entity {
                return true;
            }
            i = i + 1;
        }
        false
    }

    /// Adds a solver body, and returns its place.
    pub fn push(&mut self, entity: Entity, body: T) -> (index: SolverBodyIndex)
        requires
            old(self).wf(),
            old(self).entities@.len() < INVALID_SOLVER_BODY,
        ensures
            final(self).wf(),
            index.0 == old(self).entities@.len(),
            final(self).entities@ == old(self).entities@.push(entity),
            final(self).bodies@ == old(self).bodies@.push(body),
    {
        let index = SolverBodyIndex(self.entities.len() as u32);
        self.entities.push(entity);
        self.bodies.push(body);
        index
    }

    /// Removes the solver body at a place, and moves the last one there. Returns the entity of the
    /// one that was moved, if it was another one.
    pub fn swap_remove(&mut self, index: SolverBodyIndex) -> (swapped: Option<Entity>)
        requires
            old(self).wf(),
            index.0 < old(self).entities@.len(),
        ensures
            final(self).wf(),
            final(self).entities@ == swap_removed(old(self).entities@, index.0 as int),
            final(self).bodies@ == swap_removed(old(self).bodies@, index.0 as int),
            swapped == if index.0 == old(self).entities@.len() - 1 {
                None
            } else {
                Some(old(self).entities@.last())
            },
    {
        let at: usize = index.0 as usize;
        self.entities.swap_remove(at);
        self.bodies.swap_remove(at);
        assert(self.entities@ =~= swap_removed(old(self).entities@, at as int));
        assert(self.bodies@ =~= swap_removed(old(self).bodies@, at as int));
        if at < self.entities.len() {
            Some(self.entities[at])
        } else {
            None
        }
    }
}

/// Gives an entity a solver body.
fn add_solver_body_inner<T>(
    entity: Entity,
    body: T,
    solver_bodies: &mut SolverBodies<T>,
    indices: &mut SolverBodyIndices,
)
    requires
        old(solver_bodies).wf(),
        indices_fit(old(solver_bodies).entities@, old(indices)@),
        !old(indices)@.contains_key(entity),
        old(solver_bodies).entities@.len() < INVALID_SOLVER_BODY,
    ensures
        final(solver_bodies).wf(),
        final(solver_bodies).entities@ == old(solver_bodies).entities@.push(entity),
        final(solver_bodies).bodies@ == old(solver_bodies).bodies@.push(body),
        final(indices)@ == old(indices)@.insert(
            entity,
            SolverBodyIndex(old(solver_bodies).entities@.len() as u32),
        ),
        indices_fit(final(solver_bodies).entities@, final(indices)@),
{
    let index = solver_bodies.push(entity, body);
    indices.insert(entity, index);
    proof {
        let before = old(solver_bodies).entities@;
        let after = solver_bodies.entities@;
        assert forall|i: int| 0 <= i < after.len() implies indices@.contains_key(
            #[trigger] after[i],
        ) && indices@[after[i]].0 == i by {
            if i < before.len() {
                assert(after[i] == before[i]);
                assert(before[i] != entity);
            }
        }
    }
}

/// Takes the solver body from an entity, if it has one, and updates the place of the one that was
/// moved.
pub fn remove_solver_body<T>(
    entity: Entity,
    solver_bodies: &mut SolverBodies<T>,
    indices: &mut SolverBodyIndices,
)
    requires
        old(solver_bodies).wf(),
        indices_fit(old(solver_bodies).entities@, old(indices)@),
    ensures
        final(solver_bodies).wf(),
        indices_fit(final(solver_bodies).entities@, final(indices)@),
        ({
            let before = old(indices)@;
            let entities = old(solver_bodies).entities@;
            if before.contains_key(entity) && before[entity].0 != INVALID_SOLVER_BODY {
                let i = before[entity].0 as int;
                &&& final(solver_bodies).entities@ == swap_removed(entities, i)
                &&& final(solver_bodies).bodies@ == swap_removed(old(solver_bodies).bodies@, i)
                &&& final(indices)@ == before.insert(entities.last(), before[entity]).remove(entity)
            } else {
                &&& *final(solver_bodies) == *old(solver_bodies)
                &&& *final(indices) == *old(indices)
            }
        }),
{
    let index = match indices.get(entity) {
        Some(index) => index,
        None => {
            return;
        },
    };
    if !index.is_valid() {
        return;
    }
    let ghost entities = solver_bodies.entities@;
    let ghost before = indices@;
    assert(entities[index.0 as int] == entity);
    if let Some(swapped) = solver_bodies.swap_remove(index) {
        indices.insert(swapped, index);
    }
    indices.remove(entity);
    proof {
        let after = solver_bodies.entities@;
        let i = index.0 as int;
        let last = entities.last();
        assert(entities[entities.len() - 1] == last);
        assert(before[last].0 == entities.len() - 1);
        assert(indices@ =~= before.insert(last, index).remove(entity));
        assert forall|n: int| 0 <= n < after.len() implies indices@.contains_key(
            #[trigger] after[n],
        ) && indices@[after[n]].0 == n by {
            if n == i {
                assert(after[n] == last);
            } else {
                assert(after[n] == entities[n]);
                assert(before[entities[n]].0 == n);
            }
        }
        assert forall|e: Entity| #[trigger]
            indices@.contains_key(e) && indices@[e].0 != INVALID_SOLVER_BODY implies indices@[e].0
            < after.len() && after[indices@[e].0 as int] == e by {
            assert(before.contains_key(e));
            if e == last {
            } else {
                assert(before[e].0 < entities.len());
                assert(entities[before[e].0 as int] == e);
            }
        }
    }
}

/// Gives an entity a solver body, or takes it away, as what happened to the entity asks for.
pub fn update_solver_body<T>(
    entity: Entity,
    event: BodyEvent,
    state: BodyState,
    body: T,
    solver_bodies: &mut SolverBodies<T>,
    indices: &mut SolverBodyIndices,
) -> (action: PartAction)
    requires
        old(solver_bodies).wf(),
        indices_fit(old(solver_bodies).entities@, old(indices)@),
        old(solver_bodies).entities@.len() < INVALID_SOLVER_BODY,
    ensures
        final(solver_bodies).wf(),
        indices_fit(final(solver_bodies).entities@, final(indices)@),
        action == solver_body_action_of(event, state, old(indices)@.contains_key(entity)),
        action is Keep ==> *final(solver_bodies) == *old(solver_bodies)
            && *final(indices) == *old(indices),
        action is Add ==> {
            &&& final(solver_bodies).entities@ == old(solver_bodies).entities@.push(entity)
            &&& final(solver_bodies).bodies@ == old(solver_bodies).bodies@.push(body)
            &&& final(indices)@ == old(indices)@.insert(
                entity,
                SolverBodyIndex(old(solver_bodies).entities@.len() as u32),
            )
        },
        action is Remove ==> {
            let before = old(indices)@;
            let entities = old(solver_bodies).entities@;
            let i = before[entity].0 as int;
            if i != INVALID_SOLVER_BODY {
                &&& final(solver_bodies).entities@ == swap_removed(entities, i)
                &&& final(solver_bodies).bodies@ == swap_removed(old(solver_bodies).bodies@, i)
                &&& final(indices)@ == before.insert(entities.last(), before[entity]).remove(entity)
            } else {
                &&& *final(solver_bodies) == *old(solver_bodies)
                &&& *final(indices) == *old(indices)
            }
        },
{
    let has_solver_body = indices.get(entity).is_some();
    let action = solver_body_action(event, state, has_solver_body);
    match action {
        PartAction::Keep => {},
        PartAction::Add => {
            add_solver_body_inner(entity, body, solver_bodies, indices);
        },
        PartAction::Remove => {
            remove_solver_body(entity, solver_bodies, indices);
        },
    }
    action
}

/// An entity that has a valid place is in the array exactly once, and there is no other.
pub proof fn places_are_unique(
    entities: Seq<Entity>,
    indices: Map<Entity, SolverBodyIndex>,
    a: Entity,
    b: Entity,
)
    requires
        indices_fit(entities, indices),
        indices.contains_key(a),
        indices.contains_key(b),
        indices[a].0 != INVALID_SOLVER_BODY,
        indices[a] == indices[b],
    ensures
        a == b,
{
}

/// Taking away a solver body that was just added leaves the others in their places.
pub proof fn removing_undoes_adding(
    entities: Seq<Entity>,
    indices: Map<Entity, SolverBodyIndex>,
    entity: Entity,
)
    requires
        indices_fit(entities, indices),
        !indices.contains_key(entity),
        entities.len() < INVALID_SOLVER_BODY,
    ensures
        ({
            let place = SolverBodyIndex(entities.len() as u32);
            let added = indices.insert(entity, place);
            &&& swap_removed(entities.push(entity), place.0 as int) == entities
            &&& added.insert(entities.push(entity).last(), added[entity]).remove(entity) == indices
        }),
{
    let place = SolverBodyIndex(entities.len() as u32);
    let added = indices.insert(entity, place);
    assert(swap_removed(entities.push(entity), place.0 as int) =~= entities);
    assert(added.insert(entities.push(entity).last(), added[entity]).remove(entity) =~= indices);
}

/// When an element is removed, the last one takes its place, and the others stay where they are.
pub proof fn last_one_takes_the_place<T>(s: Seq<T>, i: int)
    requires
        0 <= i < s.len(),
    ensures
        swap_removed(s, i).len() == s.len() - 1,
        forall|k: int| 0 <= k < s.len() - 1 && k != i ==> #[trigger] swap_removed(s, i)[k] == s[k],
        i < s.len() - 1 ==> swap_removed(s, i)[i] == s[s.len() - 1],
{
}

/// When the solver body of an entity is taken away, the entity has no place any more, the last entity
/// of the array has the place of the one that left, and all others keep theirs.
pub proof fn removing_moves_only_the_last(
    entities: Seq<Entity>,
    indices: Map<Entity, SolverBodyIndex>,
    entity: Entity,
    other: Entity,
)
    requires
        indices_fit(entities, indices),
        indices.contains_key(entity),
        indices[entity].0 < entities.len(),
        other != entity,
    ensures
        ({
            let after = indices.insert(entities.last(), indices[entity]).remove(entity);
            let left = swap_removed(entities, indices[entity].0 as int);
            &&& !after.contains_key(entity)
            &&& !left.contains(entity)
            &&& after.contains_key(other) <==> indices.contains_key(other)
            &&& other == entities[entities.len() - 1] ==> after[other] == indices[entity]
                && left[indices[entity].0 as int] == other
            &&& indices.contains_key(other) && other != entities[entities.len() - 1]
                ==> after[other] == indices[other]
        }),
{
    let i = indices[entity].0 as int;
    let left = swap_removed(entities, i);
    assert(entities[entities.len() - 1] == entities.last());
    assert(indices.contains_key(entities[entities.len() - 1]));
    if left.contains(entity) {
        let k = choose|k: int| 0 <= k < left.len() && left[k] == entity;
        if k == i {
            assert(entities[entities.len() - 1] == entity);
            assert(indices[entities[entities.len() - 1]].0 == entities.len() - 1);
        } else {
            assert(entities[k] == entity);
            assert(indices[entities[k]].0 == k);
        }
    }
    if other == entities[entities.len() - 1] {
        assert(indices[entities[entities.len() - 1]].0 == entities.len() - 1);
    }
}

/// The places fit exactly if each entity of the array has its position in the array as its place, and
/// each place, but for that which stands for none, leads to the entity that has it.
pub proof fn places_lead_to_entities(
    entities: Seq<Entity>,
    indices: Map<Entity, SolverBodyIndex>,
    entity: Entity,
    i: int,
)
    requires
        indices_fit(entities, indices),
    ensures
        0 <= i < entities.len() ==> indices.contains_key(entities[i]) && indices[entities[i]].0 == i,
        indices.contains_key(entity) && indices[entity].0 != 0xffff_ffff ==> 0 <= indices[entity].0
            < entities.len() && entities[indices[entity].0 as int] == entity,
        entities.no_duplicates(),
{
    assert forall|a: int, b: int|
        0 <= a < entities.len() && 0 <= b < entities.len() && a != b implies entities[a]
        != entities[b] by {
        assert(indices[entities[a]].0 == a);
        assert(indices[entities[b]].0 == b);
    }
}

} // verus!
