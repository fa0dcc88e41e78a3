//! The colliders that are attached to each body.

use vstd::prelude::*;
use std::collections::HashMap;

use crate::entity::{entity_bits, entity_bits_injective, Entity};

verus! {

/// The colliders of each body that has any.
#[derive(Debug)]
pub struct BodyColliders {
    table: HashMap<u64, Vec<Entity>>,
}

/// A list of colliders without one of them.
pub open spec fn without(colliders: Seq<Entity>, collider: Entity) -> Seq<Entity>
    decreases colliders.len(),
{
    if colliders.len() == 0 {
        Seq::empty()
    } else {
        let rest = without(colliders.drop_last(), collider);
        if colliders.last() == collider {
            rest
        } else {
            rest.push(colliders.last())
        }
    }
}

/// A list without a collider holds the others, each as often as before.
pub proof fn without_drops_one(colliders: Seq<Entity>, collider: Entity)
    ensures
        forall|x: Entity| #[trigger]
            without(colliders, collider).contains(x) <==> colliders.contains(x) && x != collider,
        colliders.no_duplicates() ==> without(colliders, collider).no_duplicates(),
        !colliders.contains(collider) ==> without(colliders, collider) == colliders,
        without(colliders, collider).len() <= colliders.len(),
    decreases colliders.len(),
{
    if colliders.len() > 0 {
        let init = colliders.drop_last();
        let last = colliders.last();
        let rest = without(init, collider);
        let all = without(colliders, collider);
        without_drops_one(init, collider);
        assert(colliders =~= init.push(last));
        assert forall|x: Entity| colliders.contains(x) <==> init.contains(x) || x == last by {
            if init.contains(x) {
                assert(colliders[init.index_of(x)] == x);
            }
            if x == last {
                assert(colliders[init.len() as int] == x);
            }
        }
        assert forall|x: Entity| #[trigger]
            all.contains(x) <==> colliders.contains(x) && x != collider by {
            assert(rest.contains(x) <==> init.contains(x) && x != collider);
            if last != collider {
                if rest.contains(x) {
                    assert(all[rest.index_of(x)] == x);
                }
                if x == last {
                    assert(all[rest.len() as int] == x);
                }
            }
        }
        if colliders.no_duplicates() {
            assert(init.no_duplicates());
            assert(!init.contains(last)) by {
                if init.contains(last) {
                    assert(colliders[init.index_of(last)] == colliders[init.len() as int]);
                }
            }
            assert(!rest.contains(last));
            assert forall|i: int, j: int| 0 <= i < j < all.len() implies all[i] != all[j] by {
                if j == rest.len() {
                    assert(rest.contains(rest[i]));
                }
            }
        }
    }
}

impl BodyColliders {
    /// The colliders of each body that has any.
    pub closed spec fn view(&self) -> Map<Entity, Seq<Entity>> {
        Map::new(
            |body: Entity| self.table@.contains_key(entity_bits(body)),
            |body: Entity| self.table@[entity_bits(body)]@,
        )
    }

    /// The colliders of a body, or none.
    pub open spec fn of(&self, body: Entity) -> Seq<Entity> {
        if self@.contains_key(body) {
            self@[body]
        } else {
            Seq::empty()
        }
    }

    /// Whether no body lists a collider twice.
    pub open spec fn lists_once(&self) -> bool {
        forall|body: Entity| #[trigger] self@.contains_key(body) ==> self@[body].no_duplicates()
    }

    /// No bodies with colliders.
    pub fn new() -> (colliders: Self)
        ensures
            colliders@ == Map::<Entity, Seq<Entity>>::empty(),
    {
        broadcast use vstd::std_specs::hash::group_hash_axioms;

        let colliders = BodyColliders { table: HashMap::new() };
        assert(colliders@ =~= Map::<Entity, Seq<Entity>>::empty());
        colliders
    }

    /// The colliders of a body, if it has any.
    pub fn get(&self, body: Entity) -> (colliders: Option<&Vec<Entity>>)
        ensures
            colliders is Some <==> self@.contains_key(body),
            colliders matches Some(c) ==> c@ == self@[body],
    {
        broadcast use vstd::std_specs::hash::group_hash_axioms;

        self.table.get(&body.to_bits())
    }

    /// Sets the colliders of a body.
    pub fn insert(&mut self, body: Entity, colliders: Vec<Entity>)
        ensures
            final(self)@ == old(self)@.insert(body, colliders@),
    {
        broadcast use vstd::std_specs::hash::group_hash_axioms;

        self.table.insert(body.to_bits(), colliders);
        proof {
            assert forall|other: Entity| other != body implies #[trigger] entity_bits(other)
                != entity_bits(body) by {
                if entity_bits(other) == entity_bits(body) {
                    entity_bits_injective(other, body);
                }
            }
            assert(self@ =~= old(self)@.insert(body, colliders@));
        }
    }

    /// The colliders of a body but for one.
    fn others(&self, body: Entity, collider: Entity) -> (others: Vec<Entity>)
        ensures
            others@ == without(self.of(body), collider),
    {
        let mut others: Vec<Entity> = Vec::new();
        let colliders = match self.get(body) {
            Some(colliders) => colliders,
            None => {
                return others;
            },
        };
        let mut i: usize = 0;
        while i < colliders.len()
            invariant
                i <= colliders@.len(),
                others@ == without(colliders@.take(i as int), collider),
            decreases colliders@.len() - i,
        {
            proof {
                assert(colliders@.take(i + 1).drop_last() =~= colliders@.take(i as int));
                assert(colliders@.take(i + 1).last() == colliders@[i as int]);
            }
            if colliders[i] != collider {
                others.push(colliders[i]);
            }
            i = i + 1;
        }
        assert(colliders@.take(i as int) =~= colliders@);
        others
    }

    /// Attaches a collider to a body, behind those that it has. One that is attached to the body
    /// already becomes the last.
    pub fn attach(&mut self, body: Entity, collider: Entity)
        ensures
            final(self)@ == old(self)@.insert(
                body,
                without(old(self).of(body), collider).push(collider),
            ),
            old(self).lists_once() ==> final(self).lists_once(),
    {
        let mut colliders = self.others(body, collider);
        colliders.push(collider);
        proof {
            let rest = without(self.of(body), collider);
            without_drops_one(self.of(body), collider);
            if self.lists_once() {
                assert(rest.no_duplicates());
                assert(!rest.contains(collider));
                assert forall|i: int, j: int|
                    0 <= i < j < colliders@.len() implies colliders@[i] != colliders@[j] by {
                    if j == rest.len() {
                        assert(rest.contains(rest[i]));
                    }
                }
            }
        }
        self.insert(body, colliders);
    }

    /// Detaches a collider from a body. A body that loses its last collider has none.
    pub fn detach(&mut self, body: Entity, collider: Entity)
        ensures
            final(self)@ == {
                let rest = without(old(self).of(body), collider);
                if rest.len() == 0 {
                    old(self)@.remove(body)
                } else {
                    old(self)@.insert(body, rest)
                }
            },
            old(self).lists_once() ==> final(self).lists_once(),
    {
        broadcast use vstd::std_specs::hash::group_hash_axioms;

        let colliders = self.others(body, collider);
        proof {
            without_drops_one(self.of(body), collider);
        }
        if colliders.len() == 0 {
            self.table.remove(&body.to_bits());
            proof {
                assert forall|other: Entity| other != body implies #[trigger] entity_bits(other)
                    != entity_bits(body) by {
                    if entity_bits(other) == entity_bits(body) {
                        entity_bits_injective(other, body);
                    }
                }
                assert(self@ =~= old(self)@.remove(body));
            }
        } else {
            self.insert(body, colliders);
        }
    }
}

/// A list without a collider holds all others, in the order in which they were, and as often.
pub proof fn without_keeps_the_order(colliders: Seq<Entity>, collider: Entity)
    ensures
        without(colliders, collider) == colliders.filter(|x: Entity| x != collider),
        without(colliders, collider).len() + colliders.filter(|x: Entity| x == collider).len()
            == colliders.len(),
    decreases colliders.len(),
{
    reveal(Seq::filter);
    if colliders.len() > 0 {
        without_keeps_the_order(colliders.drop_last(), collider);
    }
}

/// Attaching a collider makes it the last one of the body. Detaching it again leaves the others of the
/// body, in the order in which they were.
pub proof fn detaching_undoes_attaching(colliders: Seq<Entity>, collider: Entity)
    ensures
        without(without(colliders, collider).push(collider), collider) == without(
            colliders,
            collider,
        ),
        !colliders.contains(collider) ==> without(
            without(colliders, collider).push(collider),
            collider,
        ) == colliders,
        without(colliders, collider).push(collider).last() == collider,
{
    let rest = without(colliders, collider);
    without_drops_one(colliders, collider);
    without_drops_one(rest, collider);
    assert(rest.push(collider).drop_last() =~= rest);
}

impl BodyColliders {
    /// The colliders of a body are those that the table lists for it, and none if it lists none.
    pub proof fn colliders_are_those_listed(&self, body: Entity)
        ensures
            self@.contains_key(body) ==> self.of(body) == self@[body],
            !self@.contains_key(body) ==> self.of(body).len() == 0,
    {
    }
}

} // verus!
