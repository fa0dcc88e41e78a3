//! Tests of what has to hold before an island is split.

use vstd::prelude::*;

use crate::body_colliders::BodyColliders;
use crate::contact_graph::{ContactEdge, ContactGraph};
use crate::entity::{ContactId, Entity, JointId};
use crate::islands::laws::members_name_their_island;
use crate::islands::list::members;
use crate::islands::manager::{lemma_wf_views, PhysicsIslands};
use crate::islands::node::{BodyIslands, IslandId, NodeStore};
use crate::islands::search::{
    colliders_fit, contact_pairs, edge_fits, fits_body, has_member, is_collider_of, joint_pairs,
    members_of, pair_fits, pairs_fit_at,
};
use crate::joint_graph::JointGraph;

verus! {

/// Whether a body is part of an island.
fn is_member(body: Entity, island: IslandId, body_islands: &BodyIslands) -> (member: bool)
    ensures
        member == members_of(body_islands.nodes(), island).contains(body),
{
    match body_islands.node(body) {
        Some(node) => node.island_id == island,
        None => false,
    }
}

/// Whether one of two bodies is part of an island, and none is part of another one.
fn is_pair_of(
    body1: Entity,
    body2: Entity,
    island: IslandId,
    body_islands: &BodyIslands,
) -> (fits: bool)
    ensures
        fits == pair_fits(body_islands.nodes(), (body1, body2), island),
{
    match (body_islands.node(body1), body_islands.node(body2)) {
        (Some(node1), Some(node2)) => node1.island_id == island && node2.island_id == island,
        (Some(node1), None) => node1.island_id == island,
        (None, Some(node2)) => node2.island_id == island,
        (None, None) => false,
    }
}

/// Whether the contacts that are linked to an island, or have a body in it, have their bodies in it.
fn contact_pairs_fit(
    island: IslandId,
    islands: &PhysicsIslands,
    body_islands: &BodyIslands,
    contact_graph: &ContactGraph,
) -> (fits: bool)
    ensures
        fits == pairs_fit_at(
            islands.contact_map(),
            contact_pairs(contact_graph@),
            body_islands.nodes(),
            island,
        ),
{
    let ghost nodes = islands.contact_map();
    let ghost pairs = contact_pairs(contact_graph@);
    let ghost bodies = body_islands.nodes();
    let table = islands.contact_nodes();
    let mut i: usize = 0;
    while i < table.slots.len() && i <= 0xffff_ffff
        invariant
            table.nodes() == nodes,
            nodes == islands.contact_map(),
            pairs == contact_pairs(contact_graph@),
            bodies == body_islands.nodes(),
            i <= table.slots@.len(),
            forall|c: ContactId| #[trigger]
                nodes.contains_key(c) && c.0 < i && (nodes[c].island_id == island || has_member(
                    pairs,
                    members_of(bodies, island),
                    c,
                )) ==> pairs.contains_key(c) && pair_fits(bodies, pairs[c], nodes[c].island_id),
        decreases table.slots@.len() - i,
    {
        let c = ContactId(i as u32);
        if let Some(node) = table.node(c) {
            let pair = match contact_graph.get_edge_by_id(c) {
                Some(edge) => match (edge.body1, edge.body2) {
                    (Some(body1), Some(body2)) => Some((body1, body2)),
                    _ => None,
                },
                None => None,
            };
            assert(pair == if pairs.contains_key(c) {
                Some(pairs[c])
            } else {
                None
            });
            let fits = match pair {
                Some((body1, body2)) => {
                    (node.island_id != island && !is_member(body1, island, body_islands)
                        && !is_member(body2, island, body_islands)) || is_pair_of(
                        body1,
                        body2,
                        node.island_id,
                        body_islands,
                    )
                },
                None => node.island_id != island,
            };
            if !fits {
                assert(nodes.contains_key(c));
                return false;
            }
        }
        i = i + 1;
    }
    true
}

/// Whether the joints that are linked to an island, or have a body in it, have their bodies in it.
fn joint_pairs_fit(
    island: IslandId,
    islands: &PhysicsIslands,
    body_islands: &BodyIslands,
    joint_graph: &JointGraph,
) -> (fits: bool)
    ensures
        fits == pairs_fit_at(
            islands.joint_map(),
            joint_pairs(joint_graph@),
            body_islands.nodes(),
            island,
        ),
{
    let ghost nodes = islands.joint_map();
    let ghost pairs = joint_pairs(joint_graph@);
    let ghost bodies = body_islands.nodes();
    let table = islands.joint_nodes();
    let mut i: usize = 0;
    while i < table.slots.len() && i <= 0xffff_ffff
        invariant
            table.nodes() == nodes,
            nodes == islands.joint_map(),
            pairs == joint_pairs(joint_graph@),
            bodies == body_islands.nodes(),
            i <= table.slots@.len(),
            forall|j: JointId| #[trigger]
                nodes.contains_key(j) && j.0 < i && (nodes[j].island_id == island || has_member(
                    pairs,
                    members_of(bodies, island),
                    j,
                )) ==> pairs.contains_key(j) && pair_fits(bodies, pairs[j], nodes[j].island_id),
        decreases table.slots@.len() - i,
    {
        let j = JointId(i as u32);
        if let Some(node) = table.node(j) {
            let fits = match joint_graph.get_by_id(j) {
                Some(edge) => {
                    (node.island_id != island && !is_member(edge.body1, island, body_islands)
                        && !is_member(edge.body2, island, body_islands)) || is_pair_of(
                        edge.body1,
                        edge.body2,
                        node.island_id,
                        body_islands,
                    )
                },
                None => node.island_id != island,
            };
            if !fits {
                assert(nodes.contains_key(j));
                return false;
            }
        }
        i = i + 1;
    }
    true
}

/// Whether a collider is one of those of a body.
fn lists_collider(body: Entity, collider: Entity, body_colliders: &BodyColliders) -> (listed: bool)
    ensures
        listed == is_collider_of(body_colliders@, body, collider),
{
    match body_colliders.get(body) {
        Some(colliders) => {
            let mut i: usize = 0;
            while i < colliders.len()
                invariant
                    body_colliders@.contains_key(body),
                    colliders@ == body_colliders@[body],
                    i <= colliders@.len(),
                    forall|n: int| 0 <= n < i ==> #[trigger] colliders@[n] != collider,
                decreases colliders@.len() - i,
            {
                if colliders[i] == collider {
                    assert(colliders@[i as int] == collider);
                    return true;
                }
                i = i + 1;
            }
            false
        },
        None => false,
    }
}

/// Whether no collider is listed twice.
fn are_distinct(colliders: &Vec<Entity>) -> (distinct: bool)
    ensures
        distinct == colliders@.no_duplicates(),
{
    let mut i: usize = 0;
    while i < colliders.len()
        invariant
            i <= colliders@.len(),
            forall|n: int, m: int|
                0 <= n < m < i ==> #[trigger] colliders@[n] != #[trigger] colliders@[m],
        decreases colliders@.len() - i,
    {
        let mut k: usize = 0;
        while k < i
            invariant
                k <= i < colliders@.len(),
                forall|n: int| 0 <= n < k ==> #[trigger] colliders@[n] != colliders@[i as int],
            decreases i - k,
        {
            if colliders[k] == colliders[i] {
                return false;
            }
            k = k + 1;
        }
        i = i + 1;
    }
    true
}

/// Whether a contact is found through the colliders of those of its bodies that are among the given
/// ones, and through no others of theirs.
fn contact_fits(
    edge: &ContactEdge,
    bodies: &Vec<Entity>,
    body_colliders: &BodyColliders,
) -> (fits: bool)
    ensures
        fits == edge_fits(*edge, body_colliders@, bodies@.to_set()),
{
    let mut i: usize = 0;
    while i < bodies.len()
        invariant
            i <= bodies@.len(),
            forall|n: int|
                0 <= n < i ==> fits_body(*edge, body_colliders@, #[trigger] bodies@[n]),
        decreases bodies@.len() - i,
    {
        let body = bodies[i];
        let is_body1 = edge.body1 == Some(body);
        let is_body2 = edge.body2 == Some(body);
        if is_body1 != lists_collider(body, edge.collider1, body_colliders) || is_body2
            != lists_collider(body, edge.collider2, body_colliders) || (is_body1 && is_body2) {
            assert(bodies@.to_set().contains(bodies@[i as int]));
            assert(!fits_body(*edge, body_colliders@, body));
            return false;
        }
        i = i + 1;
    }
    proof {
        assert forall|b: Entity| #[trigger] bodies@.to_set().contains(b) implies fits_body(
            *edge,
            body_colliders@,
            b,
        ) by {
            let n = choose|n: int| 0 <= n < bodies@.len() && bodies@[n] == b;
            assert(fits_body(*edge, body_colliders@, bodies@[n]));
        }
    }
    true
}

/// Whether the linked contacts are found through the colliders of the given bodies.
fn contacts_fit(
    bodies: &Vec<Entity>,
    islands: &PhysicsIslands,
    body_colliders: &BodyColliders,
    contact_graph: &ContactGraph,
) -> (fits: bool)
    ensures
        fits == colliders_fit(
            islands.contact_map().dom(),
            contact_graph@,
            body_colliders@,
            bodies@.to_set(),
        ),
{
    let ghost contacts = islands.contact_map().dom();
    let ghost given = bodies@.to_set();
    let mut i: usize = 0;
    while i < bodies.len()
        invariant
            i <= bodies@.len(),
            contacts == islands.contact_map().dom(),
            given == bodies@.to_set(),
            forall|n: int|
                0 <= n < i && body_colliders@.contains_key(#[trigger] bodies@[n])
                    ==> body_colliders@[bodies@[n]].no_duplicates(),
        decreases bodies@.len() - i,
    {
        if let Some(colliders) = body_colliders.get(bodies[i]) {
            if !are_distinct(colliders) {
                assert(given.contains(bodies@[i as int]));
                return false;
            }
        }
        i = i + 1;
    }
    proof {
        assert forall|b: Entity| #[trigger]
            given.contains(b) && body_colliders@.contains_key(b) implies body_colliders@[b].no_duplicates() by {
            let n = choose|n: int| 0 <= n < bodies@.len() && bodies@[n] == b;
            assert(body_colliders@.contains_key(bodies@[n]));
        }
    }
    let table = islands.contact_nodes();
    let mut k: usize = 0;
    while k < table.slots.len() && k <= 0xffff_ffff
        invariant
            table.nodes().dom() == contacts,
            contacts == islands.contact_map().dom(),
            given == bodies@.to_set(),
            k <= table.slots@.len(),
            forall|c: ContactId| #[trigger]
                contacts.contains(c) && c.0 < k && contact_graph@.contains_key(c) ==> edge_fits(
                    contact_graph@[c],
                    body_colliders@,
                    given,
                ),
        decreases table.slots@.len() - k,
    {
        let c = ContactId(k as u32);
        if table.node(c).is_some() {
            assert(contacts.contains(c));
            if let Some(edge) = contact_graph.get_edge_by_id(c) {
                if !contact_fits(edge, bodies, body_colliders) {
                    return false;
                }
            }
        }
        k = k + 1;
    }
    true
}

impl PhysicsIslands {
    /// Whether an island can be split: its constraints have their bodies in it, its contacts are
    /// found through the colliders of their bodies, and there are identifiers left for the parts.
    pub fn is_splittable(
        &self,
        island_id: IslandId,
        body_islands: &BodyIslands,
        body_colliders: &BodyColliders,
        contact_graph: &ContactGraph,
        joint_graph: &JointGraph,
    ) -> (splittable: bool)
        requires
            self.wf(body_islands),
        ensures
            splittable == (self.map().contains_key(island_id) && self.splittable(
                body_islands,
                body_colliders@,
                contact_graph@,
                joint_graph@,
                island_id,
            )),
    {
        let island = match self.get(island_id) {
            Some(island) => *island,
            None => {
                return false;
            },
        };
        proof {
            lemma_wf_views(
                self.map(),
                body_islands.nodes(),
                self.contact_map(),
                self.joint_map(),
                island_id,
            );
        }
        let bodies = members(body_islands, island_id, island.body_ends());
        proof {
            self.lemma_next_is_free();
            members_name_their_island(self, body_islands);
            assert(self.model(body_islands).contains_key(island_id));
            assert(self.model(body_islands)[island_id].bodies == bodies@);
            assert(bodies@.to_set() =~= members_of(body_islands.nodes(), island_id)) by {
                assert forall|b: Entity| bodies@.to_set().contains(b) <==> members_of(
                    body_islands.nodes(),
                    island_id,
                ).contains(b) by {
                    assert(self.model(body_islands)[island_id].bodies.contains(b) <==> bodies@.contains(
                        b,
                    ));
                }
            }
        }
        self.slot_count() as u64 + island.body_count as u64 <= 0xffff_ffff && contact_pairs_fit(
            island_id,
            self,
            body_islands,
            contact_graph,
        ) && joint_pairs_fit(island_id, self, body_islands, joint_graph) && contacts_fit(
            &bodies,
            self,
            body_colliders,
            contact_graph,
        )
    }

    /// Splits an island into the parts that hang together, if it can be split.
    ///
    /// Returns whether the island is in order: it exists, and can be split if it needs to be.
    /// If it is not, nothing changes.
    pub fn try_split_island(
        &mut self,
        island_id: IslandId,
        body_islands: &mut BodyIslands,
        body_colliders: &BodyColliders,
        contact_graph: &ContactGraph,
        joint_graph: &JointGraph,
    ) -> (in_order: bool)
        requires
            old(self).wf(old(body_islands)),
            contact_graph.wf(),
            joint_graph.wf(),
        ensures
            final(self).wf(final(body_islands)),
            in_order == (old(self).map().contains_key(island_id) && (old(self).needs_split(
                island_id,
            ) ==> old(self).splittable(
                old(body_islands),
                body_colliders@,
                contact_graph@,
                joint_graph@,
                island_id,
            ))),
            !(in_order && old(self).needs_split(island_id)) ==> *final(self) == *old(self)
                && *final(body_islands) == *old(body_islands),
            in_order && old(self).needs_split(island_id) ==> old(self).splits_into(
                old(body_islands),
                final(self),
                final(body_islands),
                body_colliders@,
                contact_graph@,
                joint_graph@,
                island_id,
            ),
            final(self).candidate_timer() == old(self).candidate_timer(),
            old(self).candidate_exists() ==> final(self).candidate_exists(),
            final(body_islands).nodes().dom() == old(body_islands).nodes().dom(),
            final(self).contact_map().dom() == old(self).contact_map().dom(),
            final(self).joint_map().dom() == old(self).joint_map().dom(),
    {
        let needs_split = match self.get(island_id) {
            Some(island) => !island.is_sleeping && island.constraints_removed > 0,
            None => {
                return false;
            },
        };
        if needs_split && !self.is_splittable(
            island_id,
            body_islands,
            body_colliders,
            contact_graph,
            joint_graph,
        ) {
            return false;
        }
        self.split_island(island_id, body_islands, body_colliders, contact_graph, joint_graph);
        true
    }
}

} // verus!
