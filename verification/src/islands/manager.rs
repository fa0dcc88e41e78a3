//! The islands of a simulation, and how constraints join them.

use vstd::prelude::*;

use crate::body_colliders::BodyColliders;
use crate::contact_graph::{ContactEdge, ContactGraph};
use crate::entity::{ContactId, Entity, JointId};
use crate::float_bits::{larger, larger_of};
use crate::islands::island::{new_island, PhysicsIsland};
use crate::islands::list::{
    clear_nodes, clear_visited, empty_ends, holds_lists, is_list, join, join_ends,
    lemma_holds_is_lists_of, lemma_add_empty, lemma_dissolve, lemma_ends, lemma_label, lemma_list,
    lemma_lists_disjoint, lemma_member, lemma_merge, lemma_no_lists, lemma_push_front,
    lemma_remove_empty, lemma_same_links, lemma_unlink, list_of, lists_of, lists_wf, push_front,
    push_front_ends, push_front_nodes, relabel, unlink, unlink_ends, unlink_nodes, unlinkable,
    unlinked_ends, without, ListEnds,
};
use crate::islands::node::{
    new_node, BodyIslandNode, BodyIslands, IslandId, IslandNode, NodeStore, NodeTable,
};
use crate::islands::search::{
    bodies_inv, colliders_fit, connected_is_symmetric, connected_is_transitive,
    connected_share_island, contact_pairs, edge_fits, explore, has_member, joint_pairs,
    lemma_edges_begin, lemma_edges_end, lemma_fits_new, lemma_fits_other, lemma_search_doms, members_of, pair_fits, pairs_fit_at,
    Cluster, Front,
    Lists, Search,
};
use crate::joint_graph::{JointGraph, JointGraphEdge};
use crate::stable_vec::StableVec;

verus! {

/// The islands of a simulation.
#[derive(Clone, Debug)]
pub struct PhysicsIslands {
    /// The islands, by number.
    islands: StableVec<PhysicsIsland>,
    /// The nodes that link contacts to islands.
    contact_nodes: NodeTable<ContactId>,
    /// The nodes that link joints to islands.
    joint_nodes: NodeTable<JointId>,
    /// The island that is to be split next.
    ///
    /// Of the islands with one or more constraints removed, this is the one with the largest
    /// sleep timer.
    pub split_candidate: Option<IslandId>,
    /// The largest sleep timer of the split candidate.
    pub split_candidate_sleep_timer: u32,
}

/// What an island holds: its members in the order of its lists, and its state.
#[verifier::ext_equal]
pub struct IslandView {
    pub bodies: Seq<Entity>,
    pub contacts: Seq<ContactId>,
    pub joints: Seq<JointId>,
    pub sleep_timer: u32,
    pub is_sleeping: bool,
    pub constraints_removed: u32,
}

/// The ends of the lists of bodies of all islands.
pub open spec fn body_lists(map: Map<IslandId, PhysicsIsland>) -> Map<IslandId, ListEnds<Entity>> {
    Map::new(|k: IslandId| map.contains_key(k), |k: IslandId| map[k].body_list())
}

/// The ends of the lists of contacts of all islands.
pub open spec fn contact_lists(map: Map<IslandId, PhysicsIsland>) -> Map<
    IslandId,
    ListEnds<ContactId>,
> {
    Map::new(|k: IslandId| map.contains_key(k), |k: IslandId| map[k].contact_list())
}

/// The ends of the lists of joints of all islands.
pub open spec fn joint_lists(map: Map<IslandId, PhysicsIsland>) -> Map<
    IslandId,
    ListEnds<JointId>,
> {
    Map::new(|k: IslandId| map.contains_key(k), |k: IslandId| map[k].joint_list())
}

/// What all islands hold, read off the islands and the nodes.
pub open spec fn island_views(
    map: Map<IslandId, PhysicsIsland>,
    bodies: Map<Entity, IslandNode<Entity>>,
    contacts: Map<ContactId, IslandNode<ContactId>>,
    joints: Map<JointId, IslandNode<JointId>>,
) -> Map<IslandId, IslandView> {
    Map::new(
        |k: IslandId| map.contains_key(k),
        |k: IslandId|
            IslandView {
                bodies: list_of(bodies, k, map[k].body_list()),
                contacts: list_of(contacts, k, map[k].contact_list()),
                joints: list_of(joints, k, map[k].joint_list()),
                sleep_timer: map[k].sleep_timer,
                is_sleeping: map[k].is_sleeping,
                constraints_removed: map[k].constraints_removed,
            },
    )
}

/// Whether the nodes hold exactly the lists of the islands.
pub open spec fn nodes_wf(
    map: Map<IslandId, PhysicsIsland>,
    bodies: Map<Entity, IslandNode<Entity>>,
    contacts: Map<ContactId, IslandNode<ContactId>>,
    joints: Map<JointId, IslandNode<JointId>>,
) -> bool {
    &&& lists_wf(bodies, body_lists(map))
    &&& lists_wf(contacts, contact_lists(map))
    &&& lists_wf(joints, joint_lists(map))
}

/// Two islands as one. It sleeps, and keeps the larger sleep timer, if the second one sleeps.
pub open spec fn merged_view(big: IslandView, small: IslandView) -> IslandView {
    IslandView {
        bodies: big.bodies + small.bodies,
        contacts: big.contacts + small.contacts,
        joints: big.joints + small.joints,
        sleep_timer: if small.is_sleeping {
            larger_of(small.sleep_timer, big.sleep_timer)
        } else {
            big.sleep_timer
        },
        is_sleeping: big.is_sleeping || small.is_sleeping,
        constraints_removed: (big.constraints_removed + small.constraints_removed) as u32,
    }
}

/// Whether two islands are small enough to be counted as one.
pub open spec fn can_merge(a: IslandView, b: IslandView) -> bool {
    &&& a.bodies.len() + b.bodies.len() <= u32::MAX
    &&& a.contacts.len() + b.contacts.len() <= u32::MAX
    &&& a.joints.len() + b.joints.len() <= u32::MAX
    &&& a.constraints_removed + b.constraints_removed <= u32::MAX
}

/// Of two islands, the one that is kept when they merge: the one with more bodies, or the first.
pub open spec fn kept_island(
    model: Map<IslandId, IslandView>,
    island1: IslandId,
    island2: IslandId,
) -> IslandId {
    if model[island1].bodies.len() < model[island2].bodies.len() {
        island2
    } else {
        island1
    }
}

/// Of two islands, the one that is removed when they merge.
pub open spec fn absorbed_island(
    model: Map<IslandId, IslandView>,
    island1: IslandId,
    island2: IslandId,
) -> IslandId {
    if model[island1].bodies.len() < model[island2].bodies.len() {
        island1
    } else {
        island2
    }
}

/// What the islands hold once two of them have become one.
pub open spec fn merged_model(
    model: Map<IslandId, IslandView>,
    island1: IslandId,
    island2: IslandId,
) -> Map<IslandId, IslandView> {
    if island1 == island2 {
        model
    } else {
        let big = kept_island(model, island1, island2);
        let small = absorbed_island(model, island1, island2);
        model.remove(small).insert(big, merged_view(model[big], model[small]))
    }
}

/// The islands of two bodies, of which at least one is part of an island.
/// A body that is part of no island counts as one of the island of the other.
pub open spec fn islands_of_pair(
    bodies: Map<Entity, IslandNode<Entity>>,
    body1: Entity,
    body2: Entity,
) -> (IslandId, IslandId) {
    if !bodies.contains_key(body1) {
        (bodies[body2].island_id, bodies[body2].island_id)
    } else if !bodies.contains_key(body2) {
        (bodies[body1].island_id, bodies[body1].island_id)
    } else {
        (bodies[body1].island_id, bodies[body2].island_id)
    }
}

/// What an island holds, with what its contacts and joints connect.
pub open spec fn cluster_of(
    view: IslandView,
    contacts: Map<ContactId, ContactEdge>,
    joints: Map<JointId, JointGraphEdge>,
) -> Cluster {
    Cluster {
        bodies: view.bodies.to_set(),
        contacts: view.contacts.to_set(),
        joints: view.joints.to_set(),
        contact_pairs: contact_pairs(contacts),
        joint_pairs: joint_pairs(joints),
    }
}

/// Whether an island is a new one made of members of another: awake, with at least one body, and
/// without removed constraints.
pub open spec fn is_part_of(part: IslandView, whole: IslandView) -> bool {
    &&& part.bodies.len() > 0
    &&& part.bodies.to_set().subset_of(whole.bodies.to_set())
    &&& part.contacts.to_set().subset_of(whole.contacts.to_set())
    &&& part.joints.to_set().subset_of(whole.joints.to_set())
    &&& part.sleep_timer == 0
    &&& !part.is_sleeping
    &&& part.constraints_removed == 0
}

/// Whether an island is one of those that stay as they are when another island is split.
pub open spec fn is_other_island(
    before: Map<IslandId, IslandView>,
    island: IslandId,
    k: IslandId,
) -> bool {
    before.contains_key(k) && k != island
}

/// Whether an island was split into new islands, and the others stayed as they were.
pub open spec fn is_split(
    before: Map<IslandId, IslandView>,
    after: Map<IslandId, IslandView>,
    island: IslandId,
) -> bool {
    &&& forall|k: IslandId| #[trigger]
        is_other_island(before, island, k) ==> after.contains_key(k) && after[k] == before[k]
    &&& forall|k: IslandId| #[trigger]
        after.contains_key(k) && !is_other_island(before, island, k) ==> is_part_of(
            after[k],
            before[island],
        )
    &&& forall|b: Entity| #[trigger]
        before[island].bodies.contains(b) ==> exists|k: IslandId| #[trigger]
            after.contains_key(k) && after[k].bodies.contains(b)
    &&& forall|c: ContactId| #[trigger]
        before[island].contacts.contains(c) ==> exists|k: IslandId| #[trigger]
            after.contains_key(k) && after[k].contacts.contains(c)
    &&& forall|j: JointId| #[trigger]
        before[island].joints.contains(j) ==> exists|k: IslandId| #[trigger]
            after.contains_key(k) && after[k].joints.contains(j)
}

/// Whether the bodies, contacts, and joints of an island fit together with the graphs: every linked
/// constraint that is linked to the island, or has a body in it, has its bodies in the island, and
/// is found through the colliders of its bodies. Nothing is asked of the other islands.
pub open spec fn graphs_fit(
    bodies: Map<Entity, IslandNode<Entity>>,
    contacts: Map<ContactId, IslandNode<ContactId>>,
    joints: Map<JointId, IslandNode<JointId>>,
    colliders: Map<Entity, Seq<Entity>>,
    contact_graph: Map<ContactId, ContactEdge>,
    joint_graph: Map<JointId, JointGraphEdge>,
    island: IslandId,
) -> bool {
    &&& pairs_fit_at(contacts, contact_pairs(contact_graph), bodies, island)
    &&& pairs_fit_at(joints, joint_pairs(joint_graph), bodies, island)
    &&& colliders_fit(contacts.dom(), contact_graph, colliders, members_of(bodies, island))
}

/// Lists that the nodes hold are what the islands are seen to hold.
pub proof fn lemma_views(
    map: Map<IslandId, PhysicsIsland>,
    bodies: Map<Entity, IslandNode<Entity>>,
    contacts: Map<ContactId, IslandNode<ContactId>>,
    joints: Map<JointId, IslandNode<JointId>>,
    body_seqs: Map<IslandId, Seq<Entity>>,
    contact_seqs: Map<IslandId, Seq<ContactId>>,
    joint_seqs: Map<IslandId, Seq<JointId>>,
)
    requires
        holds_lists(bodies, body_lists(map), body_seqs, Set::empty()),
        holds_lists(contacts, contact_lists(map), contact_seqs, Set::empty()),
        holds_lists(joints, joint_lists(map), joint_seqs, Set::empty()),
    ensures
        nodes_wf(map, bodies, contacts, joints),
        forall|k: IslandId| #[trigger]
            island_views(map, bodies, contacts, joints).contains_key(k) ==> island_views(
                map,
                bodies,
                contacts,
                joints,
            )[k] == (IslandView {
                bodies: body_seqs[k],
                contacts: contact_seqs[k],
                joints: joint_seqs[k],
                sleep_timer: map[k].sleep_timer,
                is_sleeping: map[k].is_sleeping,
                constraints_removed: map[k].constraints_removed,
            }),
{
    lemma_holds_is_lists_of(bodies, body_lists(map), body_seqs);
    lemma_holds_is_lists_of(contacts, contact_lists(map), contact_seqs);
    lemma_holds_is_lists_of(joints, joint_lists(map), joint_seqs);
}

/// What an island is seen to hold is what its lists hold.
pub proof fn lemma_wf_views(
    map: Map<IslandId, PhysicsIsland>,
    bodies: Map<Entity, IslandNode<Entity>>,
    contacts: Map<ContactId, IslandNode<ContactId>>,
    joints: Map<JointId, IslandNode<JointId>>,
    k: IslandId,
)
    requires
        nodes_wf(map, bodies, contacts, joints),
        map.contains_key(k),
    ensures
        ({
            let view = island_views(map, bodies, contacts, joints)[k];
            &&& view.bodies == lists_of(bodies, body_lists(map))[k]
            &&& view.contacts == lists_of(contacts, contact_lists(map))[k]
            &&& view.joints == lists_of(joints, joint_lists(map))[k]
            &&& is_list(bodies, k, view.bodies, map[k].body_list())
            &&& is_list(contacts, k, view.contacts, map[k].contact_list())
            &&& is_list(joints, k, view.joints, map[k].joint_list())
            &&& view.bodies.len() == map[k].body_count
            &&& view.contacts.len() == map[k].contact_count
            &&& view.joints.len() == map[k].joint_count
            &&& map[k].body_count > 0 ==> map[k].head_body is Some
        }),
{
    let body_ends = body_lists(map);
    let contact_ends = contact_lists(map);
    let joint_ends = joint_lists(map);
    lemma_list(bodies, body_ends, lists_of(bodies, body_ends), Set::empty(), k);
    lemma_list(contacts, contact_ends, lists_of(contacts, contact_ends), Set::empty(), k);
    lemma_list(joints, joint_ends, lists_of(joints, joint_ends), Set::empty(), k);
    lemma_ends(bodies, k, lists_of(bodies, body_ends)[k], map[k].body_list());
    lemma_ends(contacts, k, lists_of(contacts, contact_ends)[k], map[k].contact_list());
    lemma_ends(joints, k, lists_of(joints, joint_ends)[k], map[k].joint_list());
}

/// What the islands hold once a contact was put in front of the contacts of an island.
pub open spec fn with_contact(
    model: Map<IslandId, IslandView>,
    island: IslandId,
    contact: ContactId,
) -> Map<IslandId, IslandView> {
    let view = model[island];
    model.insert(island, IslandView { contacts: seq![contact] + view.contacts, ..view })
}

/// What the islands hold once a joint was put in front of the joints of an island.
pub open spec fn with_joint(
    model: Map<IslandId, IslandView>,
    island: IslandId,
    joint: JointId,
) -> Map<IslandId, IslandView> {
    let view = model[island];
    model.insert(island, IslandView { joints: seq![joint] + view.joints, ..view })
}

/// What the islands hold once a contact was removed from an island, which is counted.
pub open spec fn without_contact(
    model: Map<IslandId, IslandView>,
    island: IslandId,
    contact: ContactId,
) -> Map<IslandId, IslandView> {
    let view = model[island];
    model.insert(
        island,
        IslandView {
            contacts: without(view.contacts, contact),
            constraints_removed: (view.constraints_removed + 1) as u32,
            ..view
        },
    )
}

/// What the islands hold once a joint was removed from an island, which is counted.
pub open spec fn without_joint(
    model: Map<IslandId, IslandView>,
    island: IslandId,
    joint: JointId,
) -> Map<IslandId, IslandView> {
    let view = model[island];
    model.insert(
        island,
        IslandView {
            joints: without(view.joints, joint),
            constraints_removed: (view.constraints_removed + 1) as u32,
            ..view
        },
    )
}

/// The ends of a list of one body.
pub open spec fn lone_ends(body: Entity) -> ListEnds<Entity> {
    ListEnds { head: Some(body), tail: Some(body), count: 1 }
}

/// An island that is awake, and holds one body and nothing else.
pub open spec fn lone_body(body: Entity) -> IslandView {
    IslandView {
        bodies: seq![body],
        contacts: Seq::empty(),
        joints: Seq::empty(),
        sleep_timer: 0,
        is_sleeping: false,
        constraints_removed: 0,
    }
}

/// What the islands hold once a body was removed from an island.
/// The island goes with its last member.
pub open spec fn without_body(
    model: Map<IslandId, IslandView>,
    island: IslandId,
    body: Entity,
) -> Map<IslandId, IslandView> {
    let view = model[island];
    let rest = without(view.bodies, body);
    if rest.len() == 0 && view.contacts.len() == 0 && view.joints.len() == 0 {
        model.remove(island)
    } else {
        model.insert(island, IslandView { bodies: rest, ..view })
    }
}

/// What was done of a split: the other islands stayed as they were, and the new islands hold
/// members of the old one that hang together.
#[verifier::opaque]
spec fn split_progress(
    now: Search,
    map: Map<IslandId, PhysicsIsland>,
    map0: Map<IslandId, PhysicsIsland>,
    body_seqs: Map<IslandId, Seq<Entity>>,
    contact_seqs: Map<IslandId, Seq<ContactId>>,
    joint_seqs: Map<IslandId, Seq<JointId>>,
    cluster: Cluster,
    island: IslandId,
) -> bool {
    &&& forall|k: IslandId| #[trigger]
        map0.contains_key(k) && k != island ==> {
            &&& map.contains_key(k)
            &&& map[k] == map0[k]
            &&& now.bodies.lists[k] == body_seqs[k]
            &&& now.contacts.lists[k] == contact_seqs[k]
            &&& now.joints.lists[k] == joint_seqs[k]
            &&& !now.fresh.contains(k)
        }
    &&& forall|k: IslandId| #[trigger]
        map.contains_key(k) ==> now.fresh.contains(k) || (map0.contains_key(k) && k != island)
    &&& forall|k: IslandId| #[trigger]
        now.fresh.contains(k) ==> {
            &&& map.contains_key(k)
            &&& map[k].sleep_timer == 0
            &&& !map[k].is_sleeping
            &&& map[k].constraints_removed == 0
            &&& now.bodies.lists[k].len() > 0
            &&& now.bodies.lists[k].to_set().subset_of(cluster.bodies)
            &&& now.contacts.lists[k].to_set().subset_of(cluster.contacts)
            &&& now.joints.lists[k].to_set().subset_of(cluster.joints)
            &&& forall|b: Entity| #[trigger]
                now.bodies.lists[k].contains(b) ==> cluster.connected(now.bodies.lists[k][0], b)
        }
}

/// A search begins with the members of the island pending.
proof fn lemma_begin(
    now: Search,
    bodies0: Map<Entity, IslandNode<Entity>>,
    contacts0: Map<ContactId, IslandNode<ContactId>>,
    joints0: Map<JointId, IslandNode<JointId>>,
    bodies: Map<Entity, IslandNode<Entity>>,
    contacts: Map<ContactId, IslandNode<ContactId>>,
    joints: Map<JointId, IslandNode<JointId>>,
    cluster: Cluster,
    view: IslandView,
    island: IslandId,
)
    requires
        now.bodies.held_by(bodies0),
        now.contacts.held_by(contacts0),
        now.joints.held_by(joints0),
        bodies == clear_nodes(bodies0, view.bodies),
        contacts == clear_nodes(contacts0, view.contacts),
        joints == clear_nodes(joints0, view.joints),
        cluster.bodies == view.bodies.to_set(),
        cluster.contacts == view.contacts.to_set(),
        cluster.joints == view.joints.to_set(),
        now.bodies.pending == cluster.bodies,
        now.contacts.pending == cluster.contacts,
        now.joints.pending == cluster.joints,
        now.fresh == Set::<IslandId>::empty(),
        pairs_fit_at(contacts0, cluster.contact_pairs, bodies0, island),
        pairs_fit_at(joints0, cluster.joint_pairs, bodies0, island),
        forall|n: Entity| #[trigger]
            cluster.bodies.contains(n) <==> bodies0.contains_key(n) && bodies0[n].island_id
                == island,
        forall|n: ContactId| #[trigger]
            cluster.contacts.contains(n) <==> contacts0.contains_key(n) && contacts0[n].island_id
                == island,
        forall|n: JointId| #[trigger]
            cluster.joints.contains(n) <==> joints0.contains_key(n) && joints0[n].island_id
                == island,
    ensures
        now.resting(bodies, contacts, joints, cluster, island, Seq::empty()),
        bodies.dom() == bodies0.dom(),
        contacts.dom() == contacts0.dom(),
        joints.dom() == joints0.dom(),
{
    assert(bodies.dom() =~= bodies0.dom());
    assert(contacts.dom() =~= contacts0.dom());
    assert(joints.dom() =~= joints0.dom());
    lemma_same_links(bodies0, bodies, now.bodies.ends, now.bodies.lists, now.bodies.pending);
    lemma_same_links(
        contacts0,
        contacts,
        now.contacts.ends,
        now.contacts.lists,
        now.contacts.pending,
    );
    lemma_same_links(joints0, joints, now.joints.ends, now.joints.lists, now.joints.pending);
    assert forall|n: Entity| #[trigger] cluster.bodies.contains(n) implies view.bodies.contains(
        n,
    ) by {}
    assert forall|n: ContactId| #[trigger]
        cluster.contacts.contains(n) implies view.contacts.contains(n) by {}
    assert forall|n: JointId| #[trigger] cluster.joints.contains(n) implies view.joints.contains(
        n,
    ) by {}
    assert(members_of(bodies, island) =~= members_of(bodies0, island));
    assert(pairs_fit_at(contacts, cluster.contact_pairs, bodies, island)) by {
        assert forall|c: ContactId| #[trigger]
            contacts.contains_key(c) && (contacts[c].island_id == island || has_member(
                cluster.contact_pairs,
                members_of(bodies, island),
                c,
            )) implies cluster.contact_pairs.contains_key(c) && pair_fits(
            bodies,
            cluster.contact_pairs[c],
            contacts[c].island_id,
        ) by {
            assert(contacts0.contains_key(c));
            assert(pair_fits(bodies0, cluster.contact_pairs[c], contacts0[c].island_id));
        }
    }
    assert(pairs_fit_at(joints, cluster.joint_pairs, bodies, island)) by {
        assert forall|c: JointId| #[trigger]
            joints.contains_key(c) && (joints[c].island_id == island || has_member(
                cluster.joint_pairs,
                members_of(bodies, island),
                c,
            )) implies cluster.joint_pairs.contains_key(c) && pair_fits(
            bodies,
            cluster.joint_pairs[c],
            joints[c].island_id,
        ) by {
            assert(joints0.contains_key(c));
            assert(pair_fits(bodies0, cluster.joint_pairs[c], joints0[c].island_id));
        }
    }
    lemma_edges_begin(
        now.contacts,
        contacts,
        cluster.contact_pairs,
        cluster.contacts,
        cluster.bodies,
        bodies,
        island,
        island,
    );
    lemma_edges_begin(
        now.joints,
        joints,
        cluster.joint_pairs,
        cluster.joints,
        cluster.bodies,
        bodies,
        island,
        island,
    );
    reveal(bodies_inv);
}

/// Of the members of the old island, those that are marked as visited are linked to a new one.
proof fn lemma_visited_is_linked(
    now: Search,
    map: Map<IslandId, PhysicsIsland>,
    map0: Map<IslandId, PhysicsIsland>,
    bodies: Map<Entity, IslandNode<Entity>>,
    bodies0: Map<Entity, IslandNode<Entity>>,
    body_seqs: Map<IslandId, Seq<Entity>>,
    contact_seqs: Map<IslandId, Seq<ContactId>>,
    joint_seqs: Map<IslandId, Seq<JointId>>,
    cluster: Cluster,
    current: IslandId,
    island: IslandId,
    seed: Entity,
)
    requires
        bodies_inv(
            now.bodies,
            bodies,
            (Front { fresh: now.fresh, current, stack: Seq::empty(), body: None }),
        ),
        now.bodies.ends == body_lists(map),
        split_progress(
            now,
            map,
            map0,
            body_seqs,
            contact_seqs,
            joint_seqs,
            cluster,
            island,
        ),
        holds_lists(bodies0, body_lists(map0), body_seqs, Set::empty()),
        body_seqs.contains_key(island),
        cluster.bodies == body_seqs[island].to_set(),
        cluster.bodies.contains(seed),
        bodies.contains_key(seed),
    ensures
        bodies[seed].is_visited <==> !now.bodies.pending.contains(seed),
        !now.bodies.pending.contains(seed) ==> now.fresh.contains(bodies[seed].island_id)
            && now.bodies.lists[bodies[seed].island_id].contains(seed),
{
    reveal(bodies_inv);
    reveal(split_progress);
    if now.bodies.pending.contains(seed) {
        assert(!Seq::<Entity>::empty().contains(seed));
    } else {
        lemma_label(bodies, now.bodies.ends, now.bodies.lists, now.bodies.pending);
        let k = bodies[seed].island_id;
        assert(map.contains_key(k));
        if !now.fresh.contains(k) {
            assert(map0.contains_key(k) && k != island);
            lemma_label(bodies0, body_lists(map0), body_seqs, Set::empty());
            assert(body_seqs[island].contains(seed));
            assert(body_seqs.contains_key(k)) by {
                assert(body_lists(map0).contains_key(k));
            }
            lemma_lists_disjoint(
                bodies0,
                body_lists(map0),
                body_seqs,
                Set::empty(),
                k,
                island,
                seed,
            );
        }
    }
}

/// A new island that was filled is a step of a split.
proof fn lemma_progress(
    now: Search,
    was: Search,
    map: Map<IslandId, PhysicsIsland>,
    was_map: Map<IslandId, PhysicsIsland>,
    map0: Map<IslandId, PhysicsIsland>,
    body_seqs: Map<IslandId, Seq<Entity>>,
    contact_seqs: Map<IslandId, Seq<ContactId>>,
    joint_seqs: Map<IslandId, Seq<JointId>>,
    cluster: Cluster,
    new_id: IslandId,
    island: IslandId,
    seed: Entity,
    new_island: PhysicsIsland,
)
    requires
        split_progress(
            was,
            was_map,
            map0,
            body_seqs,
            contact_seqs,
            joint_seqs,
            cluster,
            island,
        ),
        was.bodies.ends == body_lists(was_map),
        was.contacts.ends == contact_lists(was_map),
        was.joints.ends == joint_lists(was_map),
        was.bodies.lists.dom() == was.bodies.ends.dom(),
        was.contacts.lists.dom() == was.contacts.ends.dom(),
        was.joints.lists.dom() == was.joints.ends.dom(),
        was.bodies.pending.subset_of(cluster.bodies),
        was.contacts.pending.subset_of(cluster.contacts),
        was.joints.pending.subset_of(cluster.joints),
        !was_map.contains_key(new_id),
        now.grew_from(was.with_island(new_id), new_id),
        map == was_map.insert(new_id, new_island),
        new_island.sleep_timer == 0,
        !new_island.is_sleeping,
        new_island.constraints_removed == 0,
        now.bodies.lists[new_id].len() > 0,
        now.bodies.lists[new_id][0] == seed,
        forall|b: Entity| #[trigger]
            now.bodies.lists[new_id].contains(b) ==> cluster.connected(seed, b),
    ensures
        split_progress(
            now,
            map,
            map0,
            body_seqs,
            contact_seqs,
            joint_seqs,
            cluster,
            island,
        ),
{
    reveal(split_progress);
    let with = was.with_island(new_id);
    assert forall|k: IslandId| #[trigger] was_map.contains_key(k) implies k != new_id
        && now.bodies.lists[k] == was.bodies.lists[k] && now.contacts.lists[k]
        == was.contacts.lists[k] && now.joints.lists[k] == was.joints.lists[k] by {
        assert(was.bodies.ends.contains_key(k));
        assert(was.contacts.ends.contains_key(k));
        assert(was.joints.ends.contains_key(k));
        assert(with.bodies.lists.contains_key(k));
        assert(with.contacts.lists.contains_key(k));
        assert(with.joints.lists.contains_key(k));
    }
    assert forall|b: Entity| #[trigger]
        now.bodies.lists[new_id].to_set().contains(b) implies cluster.bodies.contains(b) by {
        let i = choose|i: int|
            0 <= i < now.bodies.lists[new_id].len() && now.bodies.lists[new_id][i] == b;
        assert(now.bodies.lists[new_id][i] == b);
    }
    assert forall|b: ContactId| #[trigger]
        now.contacts.lists[new_id].to_set().contains(b) implies cluster.contacts.contains(b) by {
        let i = choose|i: int|
            0 <= i < now.contacts.lists[new_id].len() && now.contacts.lists[new_id][i] == b;
        assert(now.contacts.lists[new_id][i] == b);
    }
    assert forall|b: JointId| #[trigger]
        now.joints.lists[new_id].to_set().contains(b) implies cluster.joints.contains(b) by {
        let i = choose|i: int|
            0 <= i < now.joints.lists[new_id].len() && now.joints.lists[new_id][i] == b;
        assert(now.joints.lists[new_id][i] == b);
    }
    assert forall|k: IslandId| #[trigger] now.fresh.contains(k) && k != new_id implies was.fresh.contains(
        k,
    ) by {}
    assert(now.fresh == was.fresh.insert(new_id));
}

/// After a split, the other islands have the members that they had, and the new ones have members
/// of the old one.
proof fn lemma_members_after(
    now: Search,
    map: Map<IslandId, PhysicsIsland>,
    map0: Map<IslandId, PhysicsIsland>,
    bodies: Map<Entity, IslandNode<Entity>>,
    contacts: Map<ContactId, IslandNode<ContactId>>,
    joints: Map<JointId, IslandNode<JointId>>,
    bodies0: Map<Entity, IslandNode<Entity>>,
    contacts0: Map<ContactId, IslandNode<ContactId>>,
    joints0: Map<JointId, IslandNode<JointId>>,
    cluster: Cluster,
    island: IslandId,
    k: IslandId,
)
    requires
        nodes_wf(map0, bodies0, contacts0, joints0),
        holds_lists(bodies, body_lists(map), now.bodies.lists, Set::empty()),
        holds_lists(contacts, contact_lists(map), now.contacts.lists, Set::empty()),
        holds_lists(joints, joint_lists(map), now.joints.lists, Set::empty()),
        bodies.dom() == bodies0.dom(),
        contacts.dom() == contacts0.dom(),
        joints.dom() == joints0.dom(),
        split_progress(
            now,
            map,
            map0,
            lists_of(bodies0, body_lists(map0)),
            lists_of(contacts0, contact_lists(map0)),
            lists_of(joints0, joint_lists(map0)),
            cluster,
            island,
        ),
        map.contains_key(k),
    ensures
        map0.contains_key(k) && k != island ==> {
            &&& members_of(bodies, k) == members_of(bodies0, k)
            &&& forall|c: ContactId| #[trigger]
                contacts.contains_key(c) ==> (contacts[c].island_id == k
                    <==> contacts0[c].island_id == k)
            &&& forall|j: JointId| #[trigger]
                joints.contains_key(j) ==> (joints[j].island_id == k <==> joints0[j].island_id
                    == k)
        },
        !(map0.contains_key(k) && k != island) ==> {
            &&& members_of(bodies, k).subset_of(cluster.bodies)
            &&& forall|c: ContactId| #[trigger]
                contacts.contains_key(c) && contacts[c].island_id == k ==> cluster.contacts.contains(
                    c,
                )
            &&& forall|j: JointId| #[trigger]
                joints.contains_key(j) && joints[j].island_id == k ==> cluster.joints.contains(j)
        },
{
    let body_seqs = lists_of(bodies0, body_lists(map0));
    let contact_seqs = lists_of(contacts0, contact_lists(map0));
    let joint_seqs = lists_of(joints0, joint_lists(map0));
    reveal(split_progress);
    lemma_members(bodies, body_lists(map), now.bodies.lists, k);
    lemma_members(contacts, contact_lists(map), now.contacts.lists, k);
    lemma_members(joints, joint_lists(map), now.joints.lists, k);
    if map0.contains_key(k) && k != island {
        lemma_members(bodies0, body_lists(map0), body_seqs, k);
        lemma_members(contacts0, contact_lists(map0), contact_seqs, k);
        lemma_members(joints0, joint_lists(map0), joint_seqs, k);
        assert(forall|b: Entity| #[trigger]
            bodies.dom().contains(b) <==> bodies0.dom().contains(b));
        assert(forall|c: ContactId| #[trigger]
            contacts.dom().contains(c) <==> contacts0.dom().contains(c));
        assert(forall|j: JointId| #[trigger]
            joints.dom().contains(j) <==> joints0.dom().contains(j));
        assert(members_of(bodies, k) =~= members_of(bodies0, k));
    } else {
        assert(now.fresh.contains(k));
        assert forall|c: ContactId| #[trigger]
            contacts.contains_key(c) && contacts[c].island_id == k implies cluster.contacts.contains(
            c,
        ) by {
            assert(now.contacts.lists[k].to_set().contains(c));
        }
        assert forall|j: JointId| #[trigger]
            joints.contains_key(j) && joints[j].island_id == k implies cluster.joints.contains(
            j,
        ) by {
            assert(now.joints.lists[k].to_set().contains(j));
        }
        assert forall|b: Entity| #[trigger]
            members_of(bodies, k).contains(b) implies cluster.bodies.contains(b) by {
            assert(now.bodies.lists[k].to_set().contains(b));
        }
    }
}

/// What holds of the colliders of some bodies holds of those of fewer bodies.
proof fn lemma_fewer_members(
    contacts: Set<ContactId>,
    graph: Map<ContactId, ContactEdge>,
    colliders: Map<Entity, Seq<Entity>>,
    members: Set<Entity>,
    fewer: Set<Entity>,
)
    requires
        colliders_fit(contacts, graph, colliders, members),
        fewer.subset_of(members),
    ensures
        colliders_fit(contacts, graph, colliders, fewer),
{
    assert forall|c: ContactId| #[trigger]
        contacts.contains(c) && graph.contains_key(c) implies edge_fits(
        graph[c],
        colliders,
        fewer,
    ) by {
        assert(edge_fits(graph[c], colliders, members));
    }
}

/// The members of an island are what its list holds.
proof fn lemma_members<Id>(
    nodes: Map<Id, IslandNode<Id>>,
    ends: Map<IslandId, ListEnds<Id>>,
    lists: Map<IslandId, Seq<Id>>,
    k: IslandId,
)
    requires
        holds_lists(nodes, ends, lists, Set::empty()),
        ends.contains_key(k),
    ensures
        forall|n: Id| #[trigger]
            nodes.contains_key(n) ==> (nodes[n].island_id == k <==> lists[k].contains(n)),
        forall|n: Id| #[trigger] lists[k].contains(n) ==> nodes.contains_key(n),
{
    lemma_label(nodes, ends, lists, Set::empty());
    lemma_member(nodes, ends, lists, Set::empty());
}

/// All bodies that are linked are the result of a split.
#[verifier::rlimit(30)]
proof fn lemma_split_end(
    now: Search,
    map: Map<IslandId, PhysicsIsland>,
    map0: Map<IslandId, PhysicsIsland>,
    bodies: Map<Entity, IslandNode<Entity>>,
    contacts: Map<ContactId, IslandNode<ContactId>>,
    joints: Map<JointId, IslandNode<JointId>>,
    bodies0: Map<Entity, IslandNode<Entity>>,
    contacts0: Map<ContactId, IslandNode<ContactId>>,
    joints0: Map<JointId, IslandNode<JointId>>,
    cluster: Cluster,
    current: IslandId,
    island: IslandId,
)
    requires
        nodes_wf(map0, bodies0, contacts0, joints0),
        map0.contains_key(island),
        bodies.dom() == bodies0.dom(),
        contacts.dom() == contacts0.dom(),
        joints.dom() == joints0.dom(),
        now.resting(bodies, contacts, joints, cluster, current, Seq::empty()),
        now.bodies.ends == body_lists(map),
        now.contacts.ends == contact_lists(map),
        now.joints.ends == joint_lists(map),
        now.bodies.pending == Set::<Entity>::empty(),
        split_progress(
            now,
            map,
            map0,
            lists_of(bodies0, body_lists(map0)),
            lists_of(contacts0, contact_lists(map0)),
            lists_of(joints0, joint_lists(map0)),
            cluster,
            island,
        ),
        cluster.bodies == island_views(map0, bodies0, contacts0, joints0)[island].bodies.to_set(),
        cluster.contacts == island_views(
            map0,
            bodies0,
            contacts0,
            joints0,
        )[island].contacts.to_set(),
        cluster.joints == island_views(map0, bodies0, contacts0, joints0)[island].joints.to_set(),
    ensures
        nodes_wf(map, bodies, contacts, joints),
        is_split(
            island_views(map0, bodies0, contacts0, joints0),
            island_views(map, bodies, contacts, joints),
            island,
        ),
        forall|k: IslandId| #[trigger]
            map.contains_key(k) ==> (is_other_island(
                island_views(map0, bodies0, contacts0, joints0),
                island,
                k,
            ) ==> pairs_fit_at(contacts0, cluster.contact_pairs, bodies0, k)) ==> pairs_fit_at(
                contacts,
                cluster.contact_pairs,
                bodies,
                k,
            ),
        forall|k: IslandId| #[trigger]
            map.contains_key(k) ==> (is_other_island(
                island_views(map0, bodies0, contacts0, joints0),
                island,
                k,
            ) ==> pairs_fit_at(joints0, cluster.joint_pairs, bodies0, k)) ==> pairs_fit_at(
                joints,
                cluster.joint_pairs,
                bodies,
                k,
            ),
        forall|k: IslandId| #[trigger]
            map.contains_key(k) ==> if is_other_island(
                island_views(map0, bodies0, contacts0, joints0),
                island,
                k,
            ) {
                members_of(bodies, k) == members_of(bodies0, k)
            } else {
                members_of(bodies, k).subset_of(cluster.bodies)
            },
        forall|a: Entity, b: Entity|
            cluster.bodies.contains(a) && cluster.bodies.contains(b) ==> (bodies[a].island_id
                == bodies[b].island_id <==> #[trigger] cluster.connected(a, b)),
{
    let before = island_views(map0, bodies0, contacts0, joints0);
    let after = island_views(map, bodies, contacts, joints);
    let body_seqs = lists_of(bodies0, body_lists(map0));
    let contact_seqs = lists_of(contacts0, contact_lists(map0));
    let joint_seqs = lists_of(joints0, joint_lists(map0));
    let front = Front { fresh: now.fresh, current, stack: Seq::empty(), body: None };
    reveal(split_progress);
    lemma_search_doms(now, bodies, contacts, joints, cluster, current, Seq::empty());
    lemma_edges_end(
        now.contacts,
        contacts,
        cluster.contact_pairs,
        cluster.contacts,
        cluster.bodies,
        bodies,
        now.bodies.pending,
        front,
    );
    lemma_edges_end(
        now.joints,
        joints,
        cluster.joint_pairs,
        cluster.joints,
        cluster.bodies,
        bodies,
        now.bodies.pending,
        front,
    );
    lemma_views(
        map,
        bodies,
        contacts,
        joints,
        now.bodies.lists,
        now.contacts.lists,
        now.joints.lists,
    );
    lemma_wf_views(map0, bodies0, contacts0, joints0, island);
    lemma_label(bodies, now.bodies.ends, now.bodies.lists, Set::empty());
    lemma_label(contacts, now.contacts.ends, now.contacts.lists, Set::empty());
    lemma_label(joints, now.joints.ends, now.joints.lists, Set::empty());
    lemma_member(bodies0, body_lists(map0), body_seqs, Set::empty());
    lemma_member(contacts0, contact_lists(map0), contact_seqs, Set::empty());
    lemma_member(joints0, joint_lists(map0), joint_seqs, Set::empty());
    lemma_member(bodies, now.bodies.ends, now.bodies.lists, Set::empty());
    lemma_member(contacts, now.contacts.ends, now.contacts.lists, Set::empty());
    lemma_member(joints, now.joints.ends, now.joints.lists, Set::empty());
    lemma_label(bodies0, body_lists(map0), body_seqs, Set::empty());
    lemma_label(contacts0, contact_lists(map0), contact_seqs, Set::empty());
    lemma_label(joints0, joint_lists(map0), joint_seqs, Set::empty());
    assert forall|k: IslandId| #[trigger] is_other_island(before, island, k) implies after.contains_key(
        k,
    ) && after[k] == before[k] by {
        assert(map0.contains_key(k));
        assert(map.contains_key(k));
        lemma_wf_views(map0, bodies0, contacts0, joints0, k);
    }
    assert forall|k: IslandId| #[trigger]
        after.contains_key(k) && !is_other_island(before, island, k) implies is_part_of(
        after[k],
        before[island],
    ) by {
        assert(map.contains_key(k));
        assert(now.fresh.contains(k));
    }
    assert forall|b: Entity| #[trigger] before[island].bodies.contains(b) implies exists|
        k: IslandId,
    | #[trigger] after.contains_key(k) && after[k].bodies.contains(b) by {
        assert(body_seqs[island].contains(b));
        assert(bodies.contains_key(b));
        let k = bodies[b].island_id;
        assert(after.contains_key(k) && after[k].bodies.contains(b));
    }
    assert forall|b: ContactId| #[trigger] before[island].contacts.contains(b) implies exists|
        k: IslandId,
    | #[trigger] after.contains_key(k) && after[k].contacts.contains(b) by {
        assert(contact_seqs[island].contains(b));
        assert(contacts.contains_key(b));
        let k = contacts[b].island_id;
        assert(after.contains_key(k) && after[k].contacts.contains(b));
    }
    assert forall|b: JointId| #[trigger] before[island].joints.contains(b) implies exists|
        k: IslandId,
    | #[trigger] after.contains_key(k) && after[k].joints.contains(b) by {
        assert(joint_seqs[island].contains(b));
        assert(joints.contains_key(b));
        let k = joints[b].island_id;
        assert(after.contains_key(k) && after[k].joints.contains(b));
    }
    assert forall|k: IslandId| #[trigger] map.contains_key(k) implies {
        &&& is_other_island(before, island, k) ==> members_of(bodies, k) == members_of(bodies0, k)
        &&& !is_other_island(before, island, k) ==> members_of(bodies, k).subset_of(cluster.bodies)
        &&& (is_other_island(before, island, k) ==> pairs_fit_at(
            contacts0,
            cluster.contact_pairs,
            bodies0,
            k,
        )) ==> pairs_fit_at(contacts, cluster.contact_pairs, bodies, k)
        &&& (is_other_island(before, island, k) ==> pairs_fit_at(
            joints0,
            cluster.joint_pairs,
            bodies0,
            k,
        )) ==> pairs_fit_at(joints, cluster.joint_pairs, bodies, k)
    } by {
        lemma_members_after(now, map, map0, bodies, contacts, joints, bodies0, contacts0, joints0, cluster, island, k);
        if is_other_island(before, island, k) {
            if pairs_fit_at(contacts0, cluster.contact_pairs, bodies0, k) {
                lemma_fits_other(contacts, contacts0, cluster.contact_pairs, bodies, bodies0, k);
            }
            if pairs_fit_at(joints0, cluster.joint_pairs, bodies0, k) {
                lemma_fits_other(joints, joints0, cluster.joint_pairs, bodies, bodies0, k);
            }
        } else {
            lemma_fits_new(
                contacts,
                cluster.contact_pairs,
                cluster.contacts,
                cluster.bodies,
                bodies,
                k,
            );
            lemma_fits_new(joints, cluster.joint_pairs, cluster.joints, cluster.bodies, bodies, k);
        }
    }
    assert(cluster.bodies.subset_of(bodies.dom())) by {
        assert forall|b: Entity| #[trigger] cluster.bodies.contains(b) implies bodies.contains_key(
            b,
        ) by {
            assert(body_seqs[island].contains(b));
        }
    }
    assert forall|a: Entity, b: Entity|
        cluster.bodies.contains(a) && cluster.bodies.contains(b) implies (bodies[a].island_id
        == bodies[b].island_id <==> #[trigger] cluster.connected(a, b)) by {
        if cluster.connected(a, b) {
            connected_share_island(cluster, bodies, contacts, joints, a, b);
        } else if bodies[a].island_id == bodies[b].island_id {
            let k = bodies[a].island_id;
            assert(bodies.contains_key(a) && bodies.contains_key(b));
            assert(now.bodies.lists[k].contains(a));
            assert(now.bodies.lists[k].contains(b));
            assert(map.contains_key(k));
            if !now.fresh.contains(k) {
                assert(body_seqs[k].contains(a));
                assert(body_seqs[island].contains(a));
                lemma_lists_disjoint(
                    bodies0,
                    body_lists(map0),
                    body_seqs,
                    Set::empty(),
                    k,
                    island,
                    a,
                );
            }
            let first = now.bodies.lists[k][0];
            connected_is_symmetric(cluster, first, a);
            connected_is_transitive(cluster, a, first, b);
        }
    }
}

impl PhysicsIslands {
    /// The islands, by identifier.
    pub closed spec fn map(&self) -> Map<IslandId, PhysicsIsland> {
        Map::new(
            |k: IslandId| self.islands@.contains_key(k.0 as usize),
            |k: IslandId| self.islands@[k.0 as usize],
        )
    }

    /// The nodes that link contacts to islands.
    pub closed spec fn contact_map(&self) -> Map<ContactId, IslandNode<ContactId>> {
        self.contact_nodes.nodes()
    }

    /// The nodes that link joints to islands.
    pub closed spec fn joint_map(&self) -> Map<JointId, IslandNode<JointId>> {
        self.joint_nodes.nodes()
    }

    /// The number of identifiers ever used.
    pub closed spec fn slots(&self) -> nat {
        self.islands.slots()
    }

    /// The identifier that the next island gets.
    pub closed spec fn next_island(&self) -> IslandId {
        IslandId(self.islands.next_index() as u32)
    }

    /// The island that is to be split next.
    pub closed spec fn candidate(&self) -> Option<IslandId> {
        self.split_candidate
    }

    /// The largest sleep timer of the island that is to be split next.
    pub closed spec fn candidate_timer(&self) -> u32 {
        self.split_candidate_sleep_timer
    }

    /// Whether the island that is to be split next exists.
    pub open spec fn candidate_exists(&self) -> bool {
        self.candidate() matches Some(k) ==> self.map().contains_key(k)
    }

    /// Whether the table of islands is in order, apart from the lists.
    pub closed spec fn table_wf(&self) -> bool {
        &&& self.islands.wf()
        &&& self.islands.slots() <= u32::MAX
    }

    /// Whether every island is stored under its own identifier.
    pub open spec fn ids_wf(&self) -> bool {
        forall|k: IslandId| #[trigger] self.map().contains_key(k) ==> self.map()[k].id == k
    }

    /// Whether the islands, the nodes of contacts and joints, and the nodes of the given bodies
    /// fit together: everything that has a node is a member of the list of exactly one island.
    pub open spec fn wf(&self, bodies: &BodyIslands) -> bool {
        &&& self.table_wf()
        &&& self.ids_wf()
        &&& nodes_wf(self.map(), bodies.nodes(), self.contact_map(), self.joint_map())
    }

    /// What all islands hold.
    pub open spec fn model(&self, bodies: &BodyIslands) -> Map<IslandId, IslandView> {
        island_views(self.map(), bodies.nodes(), self.contact_map(), self.joint_map())
    }

    /// Whether an island is awake and had constraints removed, so that it is to be split.
    pub open spec fn needs_split(&self, island: IslandId) -> bool {
        !self.map()[island].is_sleeping && self.map()[island].constraints_removed > 0
    }

    /// Whether an island can be split: it fits together with the graphs, and there are identifiers
    /// left for the parts.
    pub open spec fn splittable(
        &self,
        bodies: &BodyIslands,
        colliders: Map<Entity, Seq<Entity>>,
        contact_graph: Map<ContactId, ContactEdge>,
        joint_graph: Map<JointId, JointGraphEdge>,
        island: IslandId,
    ) -> bool {
        &&& graphs_fit(
            bodies.nodes(),
            self.contact_map(),
            self.joint_map(),
            colliders,
            contact_graph,
            joint_graph,
            island,
        )
        &&& self.slots() + self.map()[island].body_count <= u32::MAX
    }

    /// Whether the islands are what splitting an island leaves.
    pub open spec fn splits_into(
        &self,
        bodies: &BodyIslands,
        after: &Self,
        after_bodies: &BodyIslands,
        colliders: Map<Entity, Seq<Entity>>,
        contact_graph: Map<ContactId, ContactEdge>,
        joint_graph: Map<JointId, JointGraphEdge>,
        island: IslandId,
    ) -> bool {
        let before = self.model(bodies);
        let cluster = cluster_of(before[island], contact_graph, joint_graph);
        &&& is_split(before, after.model(after_bodies), island)
        // Two bodies end up in the same island exactly if they hang together.
        &&& forall|a: Entity, b: Entity|
            cluster.bodies.contains(a) && cluster.bodies.contains(b) ==> (
            after_bodies.nodes()[a].island_id == after_bodies.nodes()[b].island_id
                <==> #[trigger] cluster.connected(a, b))
        // The new islands fit together with the graphs, and so do the others that did.
        &&& forall|k: IslandId| #[trigger]
            after.map().contains_key(k) ==> (is_other_island(before, island, k) ==> graphs_fit(
                bodies.nodes(),
                self.contact_map(),
                self.joint_map(),
                colliders,
                contact_graph,
                joint_graph,
                k,
            )) ==> graphs_fit(
                after_bodies.nodes(),
                after.contact_map(),
                after.joint_map(),
                colliders,
                contact_graph,
                joint_graph,
                k,
            )
        // An island that is gone is not to be split next.
        &&& after.candidate() == if self.candidate() == Some(island) {
            None
        } else {
            self.candidate()
        }
        &&& self.slots() <= after.slots() <= self.slots() + self.map()[island].body_count
    }

    /// The number of identifiers ever used.
    pub fn slot_count(&self) -> (slots: usize)
        ensures
            slots == self.slots(),
    {
        self.islands.slot_count()
    }

    /// The identifier of the next island is not in use.
    pub proof fn lemma_next_is_free(&self)
        requires
            self.table_wf(),
        ensures
            !self.map().contains_key(self.next_island()),
            self.slots() <= u32::MAX,
            self.map().dom().finite(),
    {
        self.islands.lemma_bounds();
        let ids = self.islands@.dom().map(|i: usize| IslandId(i as u32));
        self.islands@.dom().lemma_map_finite(|i: usize| IslandId(i as u32));
        assert forall|k: IslandId| #[trigger] self.map().dom().contains(k) implies ids.contains(
            k,
        ) by {
            assert(self.islands@.dom().contains(k.0 as usize));
            assert(IslandId((k.0 as usize) as u32) == k);
        }
        vstd::set_lib::lemma_set_subset_finite(ids, self.map().dom());
    }

    /// No islands.
    pub fn new() -> (islands: Self)
        ensures
            islands.table_wf(),
            islands.map() == Map::<IslandId, PhysicsIsland>::empty(),
            islands.contact_map() == Map::<ContactId, IslandNode<ContactId>>::empty(),
            islands.joint_map() == Map::<JointId, IslandNode<JointId>>::empty(),
            islands.slots() == 0,
            islands.next_island() == IslandId(0),
            islands.candidate() is None,
            islands.candidate_exists(),
            islands.candidate_timer() == 0,
            forall|bodies: &BodyIslands|
                bodies.nodes() == Map::<Entity, IslandNode<Entity>>::empty()
                    ==> #[trigger] islands.wf(bodies),
    {
        let islands = PhysicsIslands {
            islands: StableVec::new(),
            contact_nodes: NodeTable::new(),
            joint_nodes: NodeTable::new(),
            split_candidate: None,
            split_candidate_sleep_timer: 0,
        };
        proof {
            assert(islands.map() =~= Map::<IslandId, PhysicsIsland>::empty());
            assert(body_lists(islands.map()).dom() =~= Set::<IslandId>::empty());
            assert(contact_lists(islands.map()).dom() =~= Set::<IslandId>::empty());
            assert(joint_lists(islands.map()).dom() =~= Set::<IslandId>::empty());
            lemma_no_lists::<Entity>(body_lists(islands.map()));
            lemma_no_lists::<ContactId>(contact_lists(islands.map()));
            lemma_no_lists::<JointId>(joint_lists(islands.map()));
        }
        islands
    }

    /// Creates a new island, and has `init` set it up before it joins the others.
    pub fn create_island_with<F: FnOnce(&mut PhysicsIsland)>(&mut self, init: F) -> (id: IslandId)
        requires
            old(self).table_wf(),
            old(self).slots() < u32::MAX,
            forall|island: &mut PhysicsIsland|
                *island == new_island(old(self).next_island()) ==> #[trigger] init.requires(
                    (island,),
                ),
        ensures
            final(self).table_wf(),
            id == old(self).next_island(),
            !old(self).map().contains_key(id),
            exists|island: &mut PhysicsIsland|
                {
                    &&& *island == new_island(id)
                    &&& #[trigger] init.ensures((island,), ())
                    &&& final(self).map() == old(self).map().insert(id, *final(island))
                },
            final(self).contact_map() == old(self).contact_map(),
            final(self).joint_map() == old(self).joint_map(),
            final(self).candidate() == old(self).candidate(),
            final(self).candidate_timer() == old(self).candidate_timer(),
            old(self).candidate_exists() ==> final(self).candidate_exists(),
            final(self).slots() <= old(self).slots() + 1,
    {
        proof {
            self.islands.lemma_bounds();
        }
        let island_id = self.next_id();
        let mut island = PhysicsIsland::new(island_id);
        init(&mut island);
        let index: usize = self.islands.push(island);
        assert(self.map() =~= old(self).map().insert(island_id, island));
        IslandId(index as u32)
    }

    /// The identifier that the next island gets.
    pub fn next_id(&self) -> (id: IslandId)
        requires
            self.table_wf(),
        ensures
            id == self.next_island(),
    {
        proof {
            self.islands.lemma_bounds();
        }
        IslandId(self.islands.next_push_index() as u32)
    }

    /// Whether two sets of islands differ at most in which island is to be split next.
    pub open spec fn same_but_candidate(&self, other: &Self) -> bool {
        &&& self.map() == other.map()
        &&& self.contact_map() == other.contact_map()
        &&& self.joint_map() == other.joint_map()
        &&& self.slots() == other.slots()
        &&& self.next_island() == other.next_island()
        &&& self.table_wf() == other.table_wf()
    }

    /// The island that is to be split next.
    pub fn split_candidate(&self) -> (candidate: Option<IslandId>)
        ensures
            candidate == self.candidate(),
    {
        self.split_candidate
    }

    /// The largest sleep timer of the island that is to be split next.
    pub fn split_candidate_sleep_timer(&self) -> (timer: u32)
        ensures
            timer == self.candidate_timer(),
    {
        self.split_candidate_sleep_timer
    }

    /// Sets which island is to be split next.
    pub fn set_split_candidate(&mut self, candidate: Option<IslandId>, sleep_timer: u32)
        ensures
            final(self).same_but_candidate(old(self)),
            final(self).candidate() == candidate,
            final(self).candidate_timer() == sleep_timer,
    {
        self.split_candidate = candidate;
        self.split_candidate_sleep_timer = sleep_timer;
    }

    /// Removes the island with the given identifier. The island is assumed to be empty.
    pub fn remove_island(&mut self, island_id: IslandId) -> (island: PhysicsIsland)
        requires
            old(self).table_wf(),
            old(self).map().contains_key(island_id),
        ensures
            final(self).table_wf(),
            island == old(self).map()[island_id],
            final(self).map() == old(self).map().remove(island_id),
            final(self).contact_map() == old(self).contact_map(),
            final(self).joint_map() == old(self).joint_map(),
            final(self).candidate() == if old(self).candidate() == Some(island_id) {
                None
            } else {
                old(self).candidate()
            },
            final(self).candidate_timer() == old(self).candidate_timer(),
            old(self).candidate_exists() ==> final(self).candidate_exists(),
            final(self).slots() == old(self).slots(),
            final(self).next_island() == island_id,
    {
        if let Some(candidate) = self.split_candidate {
            if candidate.0 == island_id.0 {
                self.split_candidate = None;
            }
        }
        let island = self.islands.remove(island_id.0 as usize);
        assert(self.map() =~= old(self).map().remove(island_id));
        island
    }

    /// Removes the island with the given identifier if it exists and has no bodies, contacts, or
    /// joints.
    ///
    /// This cleans up islands that are taken apart over several operations: an island may have no
    /// bodies any more while its contacts are still to be removed.
    pub fn remove_island_if_empty(&mut self, island_id: IslandId)
        requires
            old(self).table_wf(),
        ensures
            final(self).table_wf(),
            ({
                let remove = old(self).map().contains_key(island_id)
                    && old(self).map()[island_id].body_count == 0
                    && old(self).map()[island_id].contact_count == 0
                    && old(self).map()[island_id].joint_count == 0;
                &&& final(self).map() == if remove {
                    old(self).map().remove(island_id)
                } else {
                    old(self).map()
                }
                &&& final(self).candidate() == if remove && old(self).candidate() == Some(
                    island_id,
                ) {
                    None
                } else {
                    old(self).candidate()
                }
                &&& final(self).next_island() == if remove {
                    island_id
                } else {
                    old(self).next_island()
                }
            }),
            final(self).contact_map() == old(self).contact_map(),
            final(self).joint_map() == old(self).joint_map(),
            final(self).candidate_timer() == old(self).candidate_timer(),
            old(self).candidate_exists() ==> final(self).candidate_exists(),
            final(self).slots() == old(self).slots(),
    {
        let remove = match self.islands.get(island_id.0 as usize) {
            Some(island) => island.body_count == 0 && island.contact_count == 0
                && island.joint_count == 0,
            None => false,
        };
        if remove {
            self.remove_island(island_id);
        }
    }

    /// The node that links a contact to its island, if the contact is part of one.
    pub fn contact_node(&self, contact_id: ContactId) -> (node: Option<IslandNode<ContactId>>)
        ensures
            node is Some <==> self.contact_map().contains_key(contact_id),
            node matches Some(n) ==> n == self.contact_map()[contact_id],
    {
        self.contact_nodes.node(contact_id)
    }

    /// The node that links a joint to its island, if the joint is part of one.
    pub fn joint_node(&self, joint_id: JointId) -> (node: Option<IslandNode<JointId>>)
        ensures
            node is Some <==> self.joint_map().contains_key(joint_id),
            node matches Some(n) ==> n == self.joint_map()[joint_id],
    {
        self.joint_nodes.node(joint_id)
    }

    /// The nodes that link contacts to islands.
    pub fn contact_nodes(&self) -> (nodes: &NodeTable<ContactId>)
        ensures
            nodes.nodes() == self.contact_map(),
    {
        &self.contact_nodes
    }

    /// The nodes that link joints to islands.
    pub fn joint_nodes(&self) -> (nodes: &NodeTable<JointId>)
        ensures
            nodes.nodes() == self.joint_map(),
    {
        &self.joint_nodes
    }

    /// The island with the given identifier, if there is one.
    pub fn get(&self, island_id: IslandId) -> (island: Option<&PhysicsIsland>)
        ensures
            island is Some <==> self.map().contains_key(island_id),
            island matches Some(i) ==> *i == self.map()[island_id],
    {
        self.islands.get(island_id.0 as usize)
    }

    /// The island with the given identifier, to be changed, if there is one.
    pub fn get_mut(&mut self, island_id: IslandId) -> (island: Option<&mut PhysicsIsland>)
        requires
            old(self).table_wf(),
        ensures
            island is Some <==> old(self).map().contains_key(island_id),
            island is None ==> *final(self) == *old(self),
            island matches Some(i) ==> {
                &&& *i == old(self).map()[island_id]
                &&& final(self).table_wf()
                &&& final(self).map() == old(self).map().insert(island_id, *final(i))
                &&& final(self).contact_map() == old(self).contact_map()
                &&& final(self).joint_map() == old(self).joint_map()
                &&& final(self).candidate() == old(self).candidate()
                &&& final(self).candidate_timer() == old(self).candidate_timer()
                &&& final(self).slots() == old(self).slots()
                &&& final(self).next_island() == old(self).next_island()
            },
    {
        self.islands.get_mut(island_id.0 as usize)
    }

    /// The number of islands.
    pub fn len(&self) -> (len: usize)
        requires
            self.table_wf(),
        ensures
            len == self.map().dom().len(),
    {
        proof {
            self.islands.lemma_bounds();
            let f = |i: usize| IslandId(i as u32);
            let ids = self.islands@.dom().map(f);
            assert(vstd::relations::injective_on(f, self.islands@.dom())) by {
                assert forall|i: usize, j: usize|
                    self.islands@.dom().contains(i) && self.islands@.dom().contains(j) && #[trigger] f(
                        i,
                    ) == #[trigger] f(j) implies i == j by {}
            }
            vstd::set_lib::lemma_map_size(self.islands@.dom(), ids, f);
            assert forall|k: IslandId| self.map().dom().contains(k) implies ids.contains(k) by {
                assert(self.islands@.dom().contains(k.0 as usize));
                assert(f(k.0 as usize) == k);
            }
            assert(self.map().dom() =~= ids);
        }
        self.islands.len()
    }

    /// Whether there are no islands.
    pub fn is_empty(&self) -> (empty: bool)
        requires
            self.table_wf(),
        ensures
            empty == (self.map() == Map::<IslandId, PhysicsIsland>::empty()),
    {
        let empty = self.islands.is_empty();
        proof {
            self.islands.lemma_bounds();
            if empty {
                assert(self.map() =~= Map::<IslandId, PhysicsIsland>::empty());
            } else if self.map() == Map::<IslandId, PhysicsIsland>::empty() {
                assert forall|i: usize| !(#[trigger] self.islands@.contains_key(i)) by {
                    if self.islands@.contains_key(i) {
                        assert(self.map().contains_key(IslandId(i as u32)));
                    }
                }
                assert(self.islands@ =~= Map::<usize, PhysicsIsland>::empty());
            }
        }
        empty
    }

    /// The islands, by ascending identifier.
    pub fn iter(&self) -> (islands: Vec<PhysicsIsland>)
        requires
            self.table_wf(),
            self.ids_wf(),
        ensures
            forall|i: int|
                0 <= i < islands@.len() ==> self.map().contains_key((#[trigger] islands@[i]).id)
                    && self.map()[islands@[i].id] == islands@[i],
            forall|k: IslandId| #[trigger]
                self.map().contains_key(k) ==> exists|i: int|
                    0 <= i < islands@.len() && (#[trigger] islands@[i]).id == k,
            forall|i: int, j: int|
                0 <= i < j < islands@.len() ==> (#[trigger] islands@[i]).id.0 < (
                #[trigger] islands@[j]).id.0,
    {
        let mut islands: Vec<PhysicsIsland> = Vec::new();
        let slots: usize = self.islands.slot_count();
        let mut i: usize = 0;
        while i < slots
            invariant
                self.table_wf(),
                self.ids_wf(),
                slots == self.slots(),
                i <= slots,
                forall|n: int|
                    0 <= n < islands@.len() ==> self.map().contains_key((#[trigger] islands@[n]).id)
                        && self.map()[islands@[n].id] == islands@[n] && islands@[n].id.0 < i,
                forall|k: IslandId| #[trigger]
                    self.map().contains_key(k) && k.0 < i ==> exists|n: int|
                        0 <= n < islands@.len() && (#[trigger] islands@[n]).id == k,
                forall|n: int, m: int|
                    0 <= n < m < islands@.len() ==> (#[trigger] islands@[n]).id.0 < (
                    #[trigger] islands@[m]).id.0,
            decreases slots - i,
        {
            let ghost before = islands@;
            if let Some(island) = self.islands.get(i) {
                assert(self.map().contains_key(IslandId(i as u32)));
                islands.push(*island);
                assert(islands@[before.len() as int].id == IslandId(i as u32));
            }
            i = i + 1;
            proof {
                assert forall|k: IslandId| #[trigger]
                    self.map().contains_key(k) && k.0 < i implies exists|n: int|
                    0 <= n < islands@.len() && (#[trigger] islands@[n]).id == k by {
                    if k.0 < i - 1 {
                        let n = choose|n: int| 0 <= n < before.len() && before[n].id == k;
                        assert(islands@[n].id == k);
                    } else {
                        assert(islands@[before.len() as int].id == k);
                    }
                }
            }
        }
        proof {
            self.islands.lemma_bounds();
            assert forall|k: IslandId| #[trigger] self.map().contains_key(k) implies exists|n: int|
                0 <= n < islands@.len() && (#[trigger] islands@[n]).id == k by {
                assert(self.islands@.contains_key(k.0 as usize));
            }
        }
        islands
    }

    /// Merges the islands of two bodies, and returns the resulting island.
    ///
    /// The smaller island is appended to the larger one and removed. If the smaller island is
    /// sleeping, the resulting island sleeps. It is up to the caller to wake it up if needed.
    pub fn merge_islands(
        &mut self,
        body1: Entity,
        body2: Entity,
        body_islands: &mut BodyIslands,
    ) -> (island_id: IslandId)
        requires
            old(self).wf(old(body_islands)),
            old(body_islands).nodes().contains_key(body1) || old(body_islands).nodes().contains_key(
                body2,
            ),
            ({
                let (island1, island2) = islands_of_pair(old(body_islands).nodes(), body1, body2);
                let model = old(self).model(old(body_islands));
                island1 != island2 ==> can_merge(model[island1], model[island2])
            }),
        ensures
            final(self).wf(final(body_islands)),
            ({
                let (island1, island2) = islands_of_pair(old(body_islands).nodes(), body1, body2);
                let model = old(self).model(old(body_islands));
                &&& model.contains_key(island1) && model.contains_key(island2)
                &&& island_id == kept_island(model, island1, island2)
                &&& final(self).model(final(body_islands)) == merged_model(model, island1, island2)
                // Where there is nothing to merge, nothing changes.
                &&& island1 == island2 ==> *final(self) == *old(self) && *final(body_islands)
                    == *old(body_islands)
                // Otherwise the island counts what both islands lost, and sleeps if one of them did.
                &&& final(self).map().contains_key(island_id)
                &&& island1 != island2 ==> {
                    let now = final(self).map()[island_id];
                    let then1 = old(self).map()[island1];
                    let then2 = old(self).map()[island2];
                    &&& now.constraints_removed == then1.constraints_removed
                        + then2.constraints_removed
                    &&& now.is_sleeping == (then1.is_sleeping || then2.is_sleeping)
                    &&& now.body_count == then1.body_count + then2.body_count
                    &&& now.contact_count == then1.contact_count + then2.contact_count
                    &&& now.joint_count == then1.joint_count + then2.joint_count
                }
                &&& final(self).candidate() == if island1 != island2 && old(self).candidate()
                    == Some(absorbed_island(model, island1, island2)) {
                    None
                } else {
                    old(self).candidate()
                }
            }),
            final(self).candidate_timer() == old(self).candidate_timer(),
            old(self).candidate_exists() ==> final(self).candidate_exists(),
            final(self).slots() == old(self).slots(),
            final(body_islands).nodes().dom() == old(body_islands).nodes().dom(),
            final(self).contact_map().dom() == old(self).contact_map().dom(),
            final(self).joint_map().dom() == old(self).joint_map().dom(),
    {
        let ghost nodes = body_islands.nodes();
        let ghost model = self.model(body_islands);
        proof {
            let ends = body_lists(self.map());
            lemma_label(nodes, ends, lists_of(nodes, ends), Set::empty());
        }
        let island_id1 = match body_islands.node(body1) {
            Some(node) => node.island_id,
            None => {
                return body_islands.node(body2).unwrap().island_id;
            },
        };
        let island_id2 = match body_islands.node(body2) {
            Some(node) => node.island_id,
            None => {
                return island_id1;
            },
        };
        if island_id1.0 == island_id2.0 {
            // Merging an island with itself changes nothing.
            return island_id1;
        }
        // Keep the island with more bodies.
        let island1 = *self.get(island_id1).unwrap();
        let island2 = *self.get(island_id2).unwrap();
        proof {
            lemma_wf_views(
                self.map(),
                nodes,
                self.contact_map(),
                self.joint_map(),
                island_id1,
            );
            lemma_wf_views(
                self.map(),
                nodes,
                self.contact_map(),
                self.joint_map(),
                island_id2,
            );
        }
        let (mut big, small) = if island1.body_count < island2.body_count {
            (island2, island1)
        } else {
            (island1, island2)
        };
        let ghost big_before = big;
        let ghost body_seqs = lists_of(nodes, body_lists(self.map()));
        let ghost contact_seqs = lists_of(self.contact_map(), contact_lists(self.map()));
        let ghost joint_seqs = lists_of(self.joint_map(), joint_lists(self.map()));
        proof {
            lemma_merge(nodes, body_lists(self.map()), body_seqs, big.id, small.id);
            lemma_merge(
                self.contact_map(),
                contact_lists(self.map()),
                contact_seqs,
                big.id,
                small.id,
            );
            lemma_merge(self.joint_map(), joint_lists(self.map()), joint_seqs, big.id, small.id);
        }
        // Move the bodies and constraints of the smaller island to the larger one.
        relabel(body_islands, small.id, small.body_ends(), big.id);
        relabel(&mut self.contact_nodes, small.id, small.contact_ends(), big.id);
        relabel(&mut self.joint_nodes, small.id, small.joint_ends(), big.id);
        // Connect the lists.
        let body_ends = join(body_islands, big.body_ends(), small.body_ends());
        let contact_ends = join(
            &mut self.contact_nodes,
            big.contact_ends(),
            small.contact_ends(),
        );
        let joint_ends = join(&mut self.joint_nodes, big.joint_ends(), small.joint_ends());
        big.set_body_ends(body_ends);
        big.set_contact_ends(contact_ends);
        big.set_joint_ends(joint_ends);
        big.constraints_removed = big.constraints_removed + small.constraints_removed;
        // The resulting island sleeps if the smaller one does.
        if small.is_sleeping {
            big.is_sleeping = true;
            big.sleep_timer = larger(small.sleep_timer, big.sleep_timer);
        }
        self.islands.set(big.id.0 as usize, big);
        self.remove_island(small.id);
        proof {
            let before = old(self).map();
            let map = self.map();
            assert(map =~= before.insert(big.id, big).remove(small.id));
            assert(body_lists(map) =~= body_lists(before).remove(small.id).insert(
                big.id,
                join_ends(big_before.body_list(), small.body_list()),
            ));
            assert(contact_lists(map) =~= contact_lists(before).remove(small.id).insert(
                big.id,
                join_ends(big_before.contact_list(), small.contact_list()),
            ));
            assert(joint_lists(map) =~= joint_lists(before).remove(small.id).insert(
                big.id,
                join_ends(big_before.joint_list(), small.joint_list()),
            ));
            lemma_views(
                map,
                body_islands.nodes(),
                self.contact_map(),
                self.joint_map(),
                body_seqs.remove(small.id).insert(
                    big.id,
                    body_seqs[big.id] + body_seqs[small.id],
                ),
                contact_seqs.remove(small.id).insert(
                    big.id,
                    contact_seqs[big.id] + contact_seqs[small.id],
                ),
                joint_seqs.remove(small.id).insert(
                    big.id,
                    joint_seqs[big.id] + joint_seqs[small.id],
                ),
            );
            assert(self.model(body_islands) =~= merged_model(model, island_id1, island_id2));
            assert(map[big.id] == big);
            assert(before[island_id1] == island1 && before[island_id2] == island2);
            assert(can_merge(model[island_id1], model[island_id2]));
            lemma_wf_views(
                map,
                body_islands.nodes(),
                self.contact_map(),
                self.joint_map(),
                big.id,
            );
            assert(self.model(body_islands).contains_key(big.id));
            assert(body_islands.nodes().dom() =~= nodes.dom());
            assert(self.contact_map().dom() =~= old(self).contact_map().dom());
            assert(self.joint_map().dom() =~= old(self).joint_map().dom());
        }
        big.id
    }

    /// Splits an island into the parts that hang together.
    ///
    /// Only awake islands are split, and only if constraints were removed from them.
    pub fn split_island(
        &mut self,
        island_id: IslandId,
        body_islands: &mut BodyIslands,
        body_colliders: &BodyColliders,
        contact_graph: &ContactGraph,
        joint_graph: &JointGraph,
    )
        requires
            old(self).wf(old(body_islands)),
            old(self).map().contains_key(island_id),
            old(self).needs_split(island_id) ==> {
                &&& contact_graph.wf()
                &&& joint_graph.wf()
                &&& old(self).splittable(
                    old(body_islands),
                    body_colliders@,
                    contact_graph@,
                    joint_graph@,
                    island_id,
                )
            },
        ensures
            final(self).wf(final(body_islands)),
            !old(self).needs_split(island_id) ==> *final(self) == *old(self)
                && *final(body_islands) == *old(body_islands),
            old(self).needs_split(island_id) ==> old(self).splits_into(
                old(body_islands),
                final(self),
                final(body_islands),
                body_colliders@,
                contact_graph@,
                joint_graph@,
                island_id,
            ),
            final(self).candidate_timer() == old(self).candidate_timer(),
            old(self).candidate_exists() ==> final(self).candidate_exists(),
            final(body_islands).nodes().dom() == old(body_islands).nodes().dom(),
            final(self).contact_map().dom() == old(self).contact_map().dom(),
            final(self).joint_map().dom() == old(self).joint_map().dom(),
    {
        let island = *self.get(island_id).unwrap();
        if island.is_sleeping {
            // Only awake islands can be split.
            return;
        }
        if island.constraints_removed == 0 {
            // No constraints have been removed, so there is no need to split the island.
            return;
        }
        let ghost before = self.model(body_islands);
        let ghost cluster = cluster_of(before[island_id], contact_graph@, joint_graph@);
        let ghost map0 = self.map();
        let ghost bodies0 = body_islands.nodes();
        let ghost contacts0 = self.contact_map();
        let ghost joints0 = self.joint_map();
        let ghost body_seqs = lists_of(bodies0, body_lists(map0));
        let ghost contact_seqs = lists_of(contacts0, contact_lists(map0));
        let ghost joint_seqs = lists_of(joints0, joint_lists(map0));
        proof {
            lemma_wf_views(map0, bodies0, contacts0, joints0, island_id);
            lemma_dissolve(bodies0, body_lists(map0), body_seqs, island_id);
            lemma_dissolve(contacts0, contact_lists(map0), contact_seqs, island_id);
            lemma_dissolve(joints0, joint_lists(map0), joint_seqs, island_id);
        }
        // The bodies are the seeds of the search. Clear the marks of visits.
        let body_ids = clear_visited(body_islands, island_id, island.body_ends());
        clear_visited(&mut self.contact_nodes, island_id, island.contact_ends());
        clear_visited(&mut self.joint_nodes, island_id, island.joint_ends());
        self.remove_island(island_id);
        let ghost mut now = Search {
            bodies: Lists {
                ends: body_lists(map0).remove(island_id),
                lists: body_seqs.remove(island_id),
                pending: cluster.bodies,
            },
            contacts: Lists {
                ends: contact_lists(map0).remove(island_id),
                lists: contact_seqs.remove(island_id),
                pending: cluster.contacts,
            },
            joints: Lists {
                ends: joint_lists(map0).remove(island_id),
                lists: joint_seqs.remove(island_id),
                pending: cluster.joints,
            },
            fresh: Set::empty(),
        };
        let ghost mut current = island_id;
        proof {
            lemma_begin(
                now,
                bodies0,
                contacts0,
                joints0,
                body_islands.nodes(),
                self.contact_map(),
                self.joint_map(),
                cluster,
                before[island_id],
                island_id,
            );
            assert(now.bodies.ends =~= body_lists(self.map()));
            assert(now.contacts.ends =~= contact_lists(self.map()));
            assert(now.joints.ends =~= joint_lists(self.map()));
            assert(members_of(bodies0, island_id) =~= cluster.bodies);
            reveal(split_progress);
            assert(forall|k: IslandId| map0.contains_key(k) && k != island_id ==> self.map().contains_key(k));
        }
        let mut i: usize = 0;
        while i < body_ids.len()
            invariant
                contact_graph.wf(),
                joint_graph.wf(),
                cluster.contact_pairs == contact_pairs(contact_graph@),
                cluster.joint_pairs == joint_pairs(joint_graph@),
                colliders_fit(contacts0.dom(), contact_graph@, body_colliders@, cluster.bodies),
                body_islands.nodes().dom() == bodies0.dom(),
                self.contact_map().dom() == contacts0.dom(),
                self.joint_map().dom() == joints0.dom(),
                self.table_wf(),
                self.ids_wf(),
                self.slots() + (body_ids.len() - i) <= u32::MAX,
                old(self).slots() <= self.slots() <= old(self).slots() + i,
                self.candidate() == if old(self).candidate() == Some(island_id) {
                    None
                } else {
                    old(self).candidate()
                },
                self.candidate_timer() == old(self).candidate_timer(),
                i <= body_ids.len(),
                body_ids@ == before[island_id].bodies,
                cluster.bodies == before[island_id].bodies.to_set(),
                cluster.bodies.subset_of(bodies0.dom()),
                now.resting(
                    body_islands.nodes(),
                    self.contact_map(),
                    self.joint_map(),
                    cluster,
                    current,
                    Seq::empty(),
                ),
                now.is_countable(),
                now.bodies.ends == body_lists(self.map()),
                now.contacts.ends == contact_lists(self.map()),
                now.joints.ends == joint_lists(self.map()),
                forall|n: int|
                    0 <= n < i ==> !now.bodies.pending.contains(#[trigger] body_ids@[n]),
                split_progress(
                    now,
                    self.map(),
                    map0,
                    body_seqs,
                    contact_seqs,
                    joint_seqs,
                    cluster,
                    island_id,
                ),
                holds_lists(bodies0, body_lists(map0), body_seqs, Set::empty()),
                body_seqs.contains_key(island_id),
                cluster.bodies == body_seqs[island_id].to_set(),
            decreases body_ids.len() - i,
        {
            let seed = body_ids[i];
            proof {
                assert(cluster.bodies.contains(body_ids@[i as int]));
                lemma_visited_is_linked(
                    now,
                    self.map(),
                    map0,
                    body_islands.nodes(),
                    bodies0,
                    body_seqs,
                    contact_seqs,
                    joint_seqs,
                    cluster,
                    current,
                    island_id,
                    seed,
                );
            }
            let node = body_islands.node(seed).unwrap();
            if !node.is_visited {
                proof {
                    self.lemma_next_is_free();
                    self.islands.lemma_bounds();
                }
                let new_id = self.next_id();
                let ghost was = now;
                let ghost was_map = self.map();
                let ghost bodies_was = body_islands.nodes();
                let ghost contacts_was = self.contact_map();
                let ghost joints_was = self.joint_map();
                let (new_island, Ghost(after)) = explore(
                    seed,
                    new_id,
                    body_islands,
                    &mut self.contact_nodes,
                    &mut self.joint_nodes,
                    body_colliders,
                    contact_graph,
                    joint_graph,
                    Ghost(now),
                    Ghost(cluster),
                    Ghost(current),
                );
                self.islands.push(new_island);
                proof {
                    lemma_search_doms(
                        was,
                        bodies_was,
                        contacts_was,
                        joints_was,
                        cluster,
                        current,
                        Seq::empty(),
                    );
                    now = after;
                    current = new_id;
                    assert(self.map() =~= was_map.insert(new_id, new_island));
                    lemma_progress(
                        now,
                        was,
                        self.map(),
                        was_map,
                        map0,
                        body_seqs,
                        contact_seqs,
                        joint_seqs,
                        cluster,
                        new_id,
                        island_id,
                        seed,
                        new_island,
                    );
                    assert(self.contact_map().dom() =~= contacts0.dom());
                }
            }
            i = i + 1;
        }
        proof {
            assert forall|b: Entity| !now.bodies.pending.contains(b) by {
                if now.bodies.pending.contains(b) {
                    assert(cluster.bodies.contains(b));
                    assert(before[island_id].bodies.contains(b));
                    let n = choose|n: int| 0 <= n < body_ids@.len() && body_ids@[n] == b;
                    assert(!now.bodies.pending.contains(body_ids@[n]));
                }
            }
            assert(now.bodies.pending =~= Set::<Entity>::empty());
            lemma_split_end(
                now,
                self.map(),
                map0,
                body_islands.nodes(),
                self.contact_map(),
                self.joint_map(),
                bodies0,
                contacts0,
                joints0,
                cluster,
                current,
                island_id,
            );
            assert forall|k: IslandId| #[trigger] self.map().contains_key(k) && (is_other_island(
                before,
                island_id,
                k,
            ) ==> graphs_fit(
                bodies0,
                contacts0,
                joints0,
                body_colliders@,
                contact_graph@,
                joint_graph@,
                k,
            )) implies graphs_fit(
                body_islands.nodes(),
                self.contact_map(),
                self.joint_map(),
                body_colliders@,
                contact_graph@,
                joint_graph@,
                k,
            ) by {
                if !is_other_island(before, island_id, k) {
                    lemma_fewer_members(
                        contacts0.dom(),
                        contact_graph@,
                        body_colliders@,
                        cluster.bodies,
                        members_of(body_islands.nodes(), k),
                    );
                }
            }
        }
    }

    /// Splits the island that is to be split next, if there is one.
    ///
    /// Called once per step, so that at most one island is split per step.
    pub fn split_candidate_island(
        &mut self,
        body_islands: &mut BodyIslands,
        body_colliders: &BodyColliders,
        contact_graph: &ContactGraph,
        joint_graph: &JointGraph,
    )
        requires
            old(self).wf(old(body_islands)),
            old(self).candidate_exists(),
            old(self).candidate() matches Some(k) ==> old(self).needs_split(k) ==> {
                &&& contact_graph.wf()
                &&& joint_graph.wf()
                &&& old(self).splittable(
                    old(body_islands),
                    body_colliders@,
                    contact_graph@,
                    joint_graph@,
                    k,
                )
            },
        ensures
            final(self).wf(final(body_islands)),
            final(self).candidate_exists(),
            (old(self).candidate() is None || !old(self).needs_split(old(self).candidate()->0))
                ==> *final(self) == *old(self) && *final(body_islands) == *old(body_islands),
            old(self).candidate() matches Some(k) ==> old(self).needs_split(k)
                ==> old(self).splits_into(
                old(body_islands),
                final(self),
                final(body_islands),
                body_colliders@,
                contact_graph@,
                joint_graph@,
                k,
            ),
            final(self).candidate_timer() == old(self).candidate_timer(),
            final(body_islands).nodes().dom() == old(body_islands).nodes().dom(),
            final(self).contact_map().dom() == old(self).contact_map().dom(),
            final(self).joint_map().dom() == old(self).joint_map().dom(),
    {
        if let Some(island_id) = self.split_candidate {
            self.split_island(
                island_id,
                body_islands,
                body_colliders,
                contact_graph,
                joint_graph,
            );
        }
    }

    /// Puts a contact in front of the contacts of an island.
    fn link_contact(
        &mut self,
        contact_id: ContactId,
        island_id: IslandId,
        body_islands: &BodyIslands,
    )
        requires
            old(self).wf(body_islands),
            old(self).map().contains_key(island_id),
            !old(self).contact_map().contains_key(contact_id),
            old(self).model(body_islands)[island_id].contacts.len() < u32::MAX,
        ensures
            final(self).wf(body_islands),
            final(self).model(body_islands) == with_contact(
                old(self).model(body_islands),
                island_id,
                contact_id,
            ),
            final(self).contact_map().dom() == old(self).contact_map().dom().insert(contact_id),
            final(self).joint_map() == old(self).joint_map(),
            final(self).candidate() == old(self).candidate(),
            final(self).candidate_timer() == old(self).candidate_timer(),
            old(self).candidate_exists() ==> final(self).candidate_exists(),
            final(self).slots() == old(self).slots(),
    {
        let ghost before = self.map();
        let ghost nodes = body_islands.nodes();
        let ghost body_seqs = lists_of(nodes, body_lists(before));
        let ghost contact_seqs = lists_of(self.contact_map(), contact_lists(before));
        let ghost joint_seqs = lists_of(self.joint_map(), joint_lists(before));
        proof {
            lemma_wf_views(before, nodes, self.contact_map(), self.joint_map(), island_id);
            lemma_push_front(
                self.contact_map(),
                contact_lists(before),
                contact_seqs,
                island_id,
                contact_id,
            );
        }
        let mut island = *self.get(island_id).unwrap();
        let ghost ends = island.contact_list();
        let pushed = push_front(
            &mut self.contact_nodes,
            island.id,
            island.contact_ends(),
            contact_id,
        );
        island.set_contact_ends(pushed);
        self.islands.set(island_id.0 as usize, island);
        proof {
            let map = self.map();
            assert(map =~= before.insert(island_id, island));
            assert(body_lists(map) =~= body_lists(before));
            assert(contact_lists(map) =~= contact_lists(before).insert(
                island_id,
                push_front_ends(ends, contact_id),
            ));
            assert(joint_lists(map) =~= joint_lists(before));
            lemma_views(
                map,
                nodes,
                self.contact_map(),
                self.joint_map(),
                body_seqs,
                contact_seqs.insert(island_id, seq![contact_id] + contact_seqs[island_id]),
                joint_seqs,
            );
            assert(self.model(body_islands) =~= with_contact(
                old(self).model(body_islands),
                island_id,
                contact_id,
            ));
            assert(self.contact_map().dom() =~= old(self).contact_map().dom().insert(contact_id));
        }
    }

    /// Puts a joint in front of the joints of an island.
    fn link_joint(&mut self, joint_id: JointId, island_id: IslandId, body_islands: &BodyIslands)
        requires
            old(self).wf(body_islands),
            old(self).map().contains_key(island_id),
            !old(self).joint_map().contains_key(joint_id),
            old(self).model(body_islands)[island_id].joints.len() < u32::MAX,
        ensures
            final(self).wf(body_islands),
            final(self).model(body_islands) == with_joint(
                old(self).model(body_islands),
                island_id,
                joint_id,
            ),
            final(self).contact_map() == old(self).contact_map(),
            final(self).joint_map().dom() == old(self).joint_map().dom().insert(joint_id),
            final(self).candidate() == old(self).candidate(),
            final(self).candidate_timer() == old(self).candidate_timer(),
            old(self).candidate_exists() ==> final(self).candidate_exists(),
            final(self).slots() == old(self).slots(),
    {
        let ghost before = self.map();
        let ghost nodes = body_islands.nodes();
        let ghost body_seqs = lists_of(nodes, body_lists(before));
        let ghost contact_seqs = lists_of(self.contact_map(), contact_lists(before));
        let ghost joint_seqs = lists_of(self.joint_map(), joint_lists(before));
        proof {
            lemma_wf_views(before, nodes, self.contact_map(), self.joint_map(), island_id);
            lemma_push_front(
                self.joint_map(),
                joint_lists(before),
                joint_seqs,
                island_id,
                joint_id,
            );
        }
        let mut island = *self.get(island_id).unwrap();
        let ghost ends = island.joint_list();
        let pushed = push_front(&mut self.joint_nodes, island.id, island.joint_ends(), joint_id);
        island.set_joint_ends(pushed);
        self.islands.set(island_id.0 as usize, island);
        proof {
            let map = self.map();
            assert(map =~= before.insert(island_id, island));
            assert(body_lists(map) =~= body_lists(before));
            assert(contact_lists(map) =~= contact_lists(before));
            assert(joint_lists(map) =~= joint_lists(before).insert(
                island_id,
                push_front_ends(ends, joint_id),
            ));
            lemma_views(
                map,
                nodes,
                self.contact_map(),
                self.joint_map(),
                body_seqs,
                contact_seqs,
                joint_seqs.insert(island_id, seq![joint_id] + joint_seqs[island_id]),
            );
            assert(self.model(body_islands) =~= with_joint(
                old(self).model(body_islands),
                island_id,
                joint_id,
            ));
            assert(self.joint_map().dom() =~= old(self).joint_map().dom().insert(joint_id));
        }
    }

    /// Adds a contact to the islands. Returns the island that it was added to.
    ///
    /// Merges the islands of the bodies of the contact, and links the contact to the resulting
    /// island. A contact of colliders of which one has no body is part of no island.
    ///
    /// Called when a touching contact is created between two bodies.
    pub fn add_contact(
        &mut self,
        contact_id: ContactId,
        body_islands: &mut BodyIslands,
        contact_graph: &ContactGraph,
    ) -> (island: Option<&PhysicsIsland>)
        requires
            old(self).wf(old(body_islands)),
            contact_graph@.contains_key(contact_id),
            contact_graph@[contact_id].is_touching,
            !old(self).contact_map().contains_key(contact_id),
            contact_graph@[contact_id].body1 matches Some(body1) ==>
                contact_graph@[contact_id].body2 matches Some(body2) ==> {
                let nodes = old(body_islands).nodes();
                let (island1, island2) = islands_of_pair(nodes, body1, body2);
                let model = old(self).model(old(body_islands));
                &&& nodes.contains_key(body1) || nodes.contains_key(body2)
                &&& island1 != island2 ==> can_merge(model[island1], model[island2])
                &&& merged_model(model, island1, island2)[kept_island(
                    model,
                    island1,
                    island2,
                )].contacts.len() < u32::MAX
            },
        ensures
            final(self).wf(final(body_islands)),
            island is Some <==> contact_graph@[contact_id].body1 is Some
                && contact_graph@[contact_id].body2 is Some,
            island is None ==> *final(self) == *old(self)
                && *final(body_islands) == *old(body_islands),
            island matches Some(island) ==> {
                let body1 = contact_graph@[contact_id].body1->0;
                let body2 = contact_graph@[contact_id].body2->0;
                let (island1, island2) = islands_of_pair(old(body_islands).nodes(), body1, body2);
                let model = old(self).model(old(body_islands));
                let kept = kept_island(model, island1, island2);
                &&& final(self).map().contains_key(kept)
                &&& *island == final(self).map()[kept]
                &&& final(self).model(final(body_islands)) == with_contact(
                    merged_model(model, island1, island2),
                    kept,
                    contact_id,
                )
                &&& final(self).candidate() == if island1 != island2 && old(self).candidate()
                    == Some(absorbed_island(model, island1, island2)) {
                    None
                } else {
                    old(self).candidate()
                }
                &&& final(self).contact_map().dom() == old(self).contact_map().dom().insert(
                    contact_id,
                )
            },
            final(self).candidate_timer() == old(self).candidate_timer(),
            old(self).candidate_exists() ==> final(self).candidate_exists(),
            final(self).slots() == old(self).slots(),
            final(body_islands).nodes().dom() == old(body_islands).nodes().dom(),
            final(self).joint_map().dom() == old(self).joint_map().dom(),
    {
        let contact = contact_graph.get_edge_by_id(contact_id).unwrap();
        if let (Some(body1), Some(body2)) = (contact.body1, contact.body2) {
            let island_id = self.merge_islands(body1, body2, body_islands);
            assert(self.model(body_islands).contains_key(island_id));
            self.link_contact(contact_id, island_id, body_islands);
            assert(self.model(body_islands).contains_key(island_id));
            self.get(island_id)
        } else {
            None
        }
    }

    /// Adds a joint to the islands. Returns the island that it was added to.
    ///
    /// Merges the islands of the bodies that the joint connects, and links the joint to the
    /// resulting island.
    ///
    /// Called when a joint is created between two bodies.
    pub fn add_joint(
        &mut self,
        joint_id: JointId,
        body_islands: &mut BodyIslands,
        joint_graph: &JointGraph,
    ) -> (island: Option<&PhysicsIsland>)
        requires
            old(self).wf(old(body_islands)),
            joint_graph@.contains_key(joint_id),
            !old(self).joint_map().contains_key(joint_id),
            ({
                let body1 = joint_graph@[joint_id].body1;
                let body2 = joint_graph@[joint_id].body2;
                let nodes = old(body_islands).nodes();
                let (island1, island2) = islands_of_pair(nodes, body1, body2);
                let model = old(self).model(old(body_islands));
                &&& nodes.contains_key(body1) || nodes.contains_key(body2)
                &&& island1 != island2 ==> can_merge(model[island1], model[island2])
                &&& merged_model(model, island1, island2)[kept_island(
                    model,
                    island1,
                    island2,
                )].joints.len() < u32::MAX
            }),
        ensures
            final(self).wf(final(body_islands)),
            island matches Some(island) && {
                let body1 = joint_graph@[joint_id].body1;
                let body2 = joint_graph@[joint_id].body2;
                let (island1, island2) = islands_of_pair(old(body_islands).nodes(), body1, body2);
                let model = old(self).model(old(body_islands));
                let kept = kept_island(model, island1, island2);
                &&& final(self).map().contains_key(kept)
                &&& *island == final(self).map()[kept]
                &&& final(self).model(final(body_islands)) == with_joint(
                    merged_model(model, island1, island2),
                    kept,
                    joint_id,
                )
                &&& final(self).candidate() == if island1 != island2 && old(self).candidate()
                    == Some(absorbed_island(model, island1, island2)) {
                    None
                } else {
                    old(self).candidate()
                }
            },
            final(self).candidate_timer() == old(self).candidate_timer(),
            old(self).candidate_exists() ==> final(self).candidate_exists(),
            final(self).slots() == old(self).slots(),
            final(body_islands).nodes().dom() == old(body_islands).nodes().dom(),
            final(self).contact_map().dom() == old(self).contact_map().dom(),
            final(self).joint_map().dom() == old(self).joint_map().dom().insert(joint_id),
    {
        let joint = joint_graph.get_by_id(joint_id).unwrap();
        let island_id = self.merge_islands(joint.body1, joint.body2, body_islands);
        assert(self.model(body_islands).contains_key(island_id));
        self.link_joint(joint_id, island_id, body_islands);
        assert(self.model(body_islands).contains_key(island_id));
        self.get(island_id)
    }

    /// Removes a contact from the islands. Returns the island that it was removed from.
    ///
    /// Unlinks the contact from its island, and counts the removed constraint.
    ///
    /// Called when a contact is destroyed or no longer touching.
    pub fn remove_contact(
        &mut self,
        contact_id: ContactId,
        body_islands: &BodyIslands,
    ) -> (island: &PhysicsIsland)
        requires
            old(self).table_wf(),
            unlinkable(old(self).contact_map(), contact_id),
            ({
                let k = old(self).contact_map()[contact_id].island_id;
                &&& old(self).map().contains_key(k)
                &&& old(self).map()[k].contact_count > 0
                &&& old(self).map()[k].constraints_removed < u32::MAX
            }),
        ensures
            final(self).table_wf(),
            ({
                let node = old(self).contact_map()[contact_id];
                let k = node.island_id;
                let before = old(self).map()[k];
                &&& final(self).map().contains_key(k)
                &&& *island == final(self).map()[k]
                &&& final(self).contact_map() == unlink_nodes(old(self).contact_map(), contact_id)
                &&& final(self).map() == old(self).map().insert(
                    k,
                    PhysicsIsland {
                        constraints_removed: (before.constraints_removed + 1) as u32,
                        ..before.with_contact_list(
                            unlink_ends(before.contact_list(), contact_id, node),
                        )
                    },
                )
                &&& old(self).wf(body_islands) ==> final(self).wf(body_islands)
                    && final(self).model(body_islands) == without_contact(
                    old(self).model(body_islands),
                    k,
                    contact_id,
                )
            }),
            final(self).joint_map() == old(self).joint_map(),
            final(self).candidate() == old(self).candidate(),
            final(self).candidate_timer() == old(self).candidate_timer(),
            old(self).candidate_exists() ==> final(self).candidate_exists(),
            final(self).slots() == old(self).slots(),
    {
        let ghost before = self.map();
        let ghost contacts = self.contact_map();
        let node = unlink(&mut self.contact_nodes, contact_id);
        let mut island = *self.get(node.island_id).unwrap();
        let ghost island_before = island;
        let ends = unlinked_ends(island.contact_ends(), contact_id, node);
        island.set_contact_ends(ends);
        island.constraints_removed = island.constraints_removed + 1;
        self.islands.set(node.island_id.0 as usize, island);
        proof {
            let k = node.island_id;
            let map = self.map();
            assert(map =~= before.insert(k, island));
            if old(self).wf(body_islands) {
                let nodes = body_islands.nodes();
                let body_seqs = lists_of(nodes, body_lists(before));
                let contact_seqs = lists_of(contacts, contact_lists(before));
                let joint_seqs = lists_of(self.joint_map(), joint_lists(before));
                lemma_unlink(contacts, contact_lists(before), contact_seqs, contact_id);
                assert(body_lists(map) =~= body_lists(before));
                assert(contact_lists(map) =~= contact_lists(before).insert(
                    k,
                    unlink_ends(island_before.contact_list(), contact_id, node),
                ));
                assert(joint_lists(map) =~= joint_lists(before));
                lemma_wf_views(before, nodes, contacts, self.joint_map(), k);
                lemma_views(
                    map,
                    nodes,
                    self.contact_map(),
                    self.joint_map(),
                    body_seqs,
                    contact_seqs.insert(k, without(contact_seqs[k], contact_id)),
                    joint_seqs,
                );
                assert(self.model(body_islands) =~= without_contact(
                    old(self).model(body_islands),
                    k,
                    contact_id,
                ));
            }
        }
        self.get(node.island_id).unwrap()
    }

    /// Removes a joint from the islands. Returns the island that it was removed from, if the
    /// island still exists.
    ///
    /// Unlinks the joint from its island, and counts the removed constraint.
    ///
    /// Called when a joint is destroyed or no longer connected to the bodies.
    pub fn remove_joint(
        &mut self,
        joint_id: JointId,
        body_islands: &BodyIslands,
    ) -> (island: Option<&PhysicsIsland>)
        requires
            old(self).table_wf(),
            unlinkable(old(self).joint_map(), joint_id),
            ({
                let k = old(self).joint_map()[joint_id].island_id;
                old(self).map().contains_key(k) ==> old(self).map()[k].joint_count > 0
                    && old(self).map()[k].constraints_removed < u32::MAX
            }),
        ensures
            final(self).table_wf(),
            ({
                let node = old(self).joint_map()[joint_id];
                let k = node.island_id;
                let before = old(self).map()[k];
                &&& island is Some <==> old(self).map().contains_key(k)
                &&& island matches Some(i) ==> final(self).map().contains_key(k)
                    && *i == final(self).map()[k]
                &&& final(self).joint_map() == unlink_nodes(old(self).joint_map(), joint_id)
                &&& final(self).map() == if island is Some {
                    old(self).map().insert(
                        k,
                        PhysicsIsland {
                            constraints_removed: (before.constraints_removed + 1) as u32,
                            ..before.with_joint_list(
                                unlink_ends(before.joint_list(), joint_id, node),
                            )
                        },
                    )
                } else {
                    old(self).map()
                }
                &&& old(self).wf(body_islands) ==> island is Some && final(self).wf(body_islands)
                    && final(self).model(body_islands) == without_joint(
                    old(self).model(body_islands),
                    k,
                    joint_id,
                )
            }),
            final(self).contact_map() == old(self).contact_map(),
            final(self).candidate() == old(self).candidate(),
            final(self).candidate_timer() == old(self).candidate_timer(),
            old(self).candidate_exists() ==> final(self).candidate_exists(),
            final(self).slots() == old(self).slots(),
    {
        let ghost before = self.map();
        let ghost joints = self.joint_map();
        proof {
            if self.wf(body_islands) {
                let joint_seqs = lists_of(joints, joint_lists(before));
                lemma_unlink(joints, joint_lists(before), joint_seqs, joint_id);
                lemma_label(joints, joint_lists(before), joint_seqs, Set::empty());
            }
        }
        let node = unlink(&mut self.joint_nodes, joint_id);
        let mut island = match self.islands.get(node.island_id.0 as usize) {
            Some(island) => *island,
            None => {
                assert(self.map() =~= before);
                return None;
            },
        };
        let ghost island_before = island;
        let ends = unlinked_ends(island.joint_ends(), joint_id, node);
        island.set_joint_ends(ends);
        island.constraints_removed = island.constraints_removed + 1;
        self.islands.set(node.island_id.0 as usize, island);
        proof {
            let k = node.island_id;
            let map = self.map();
            assert(map =~= before.insert(k, island));
            if old(self).wf(body_islands) {
                let nodes = body_islands.nodes();
                let body_seqs = lists_of(nodes, body_lists(before));
                let contact_seqs = lists_of(self.contact_map(), contact_lists(before));
                let joint_seqs = lists_of(joints, joint_lists(before));
                assert(body_lists(map) =~= body_lists(before));
                assert(contact_lists(map) =~= contact_lists(before));
                assert(joint_lists(map) =~= joint_lists(before).insert(
                    k,
                    unlink_ends(island_before.joint_list(), joint_id, node),
                ));
                lemma_wf_views(before, nodes, self.contact_map(), joints, k);
                lemma_views(
                    map,
                    nodes,
                    self.contact_map(),
                    self.joint_map(),
                    body_seqs,
                    contact_seqs,
                    joint_seqs.insert(k, without(joint_seqs[k], joint_id)),
                );
                assert(self.model(body_islands) =~= without_joint(
                    old(self).model(body_islands),
                    k,
                    joint_id,
                ));
            }
        }
        self.get(node.island_id)
    }
}

/// What can be removed is what is linked, once the islands are in order.
pub proof fn linked_is_removable(islands: &PhysicsIslands, body_islands: &BodyIslands)
    requires
        islands.wf(body_islands),
    ensures
        forall|contact: ContactId| #[trigger]
            islands.contact_map().contains_key(contact) ==> {
                let k = islands.contact_map()[contact].island_id;
                &&& unlinkable(islands.contact_map(), contact)
                &&& islands.map().contains_key(k)
                &&& islands.map()[k].contact_count > 0
                &&& islands.model(body_islands)[k].contacts.contains(contact)
            },
        forall|joint: JointId| #[trigger]
            islands.joint_map().contains_key(joint) ==> {
                let k = islands.joint_map()[joint].island_id;
                &&& unlinkable(islands.joint_map(), joint)
                &&& islands.map().contains_key(k)
                &&& islands.map()[k].joint_count > 0
                &&& islands.model(body_islands)[k].joints.contains(joint)
            },
        forall|body: Entity| #[trigger]
            body_islands.nodes().contains_key(body) ==> {
                let k = body_islands.nodes()[body].island_id;
                &&& unlinkable(body_islands.nodes(), body)
                &&& islands.map().contains_key(k)
                &&& islands.map()[k].body_count > 0
                &&& islands.model(body_islands)[k].bodies.contains(body)
            },
{
    let map = islands.map();
    let nodes = body_islands.nodes();
    let body_seqs = lists_of(nodes, body_lists(map));
    let contact_seqs = lists_of(islands.contact_map(), contact_lists(map));
    let joint_seqs = lists_of(islands.joint_map(), joint_lists(map));
    lemma_label(nodes, body_lists(map), body_seqs, Set::empty());
    lemma_label(islands.contact_map(), contact_lists(map), contact_seqs, Set::empty());
    lemma_label(islands.joint_map(), joint_lists(map), joint_seqs, Set::empty());
    assert forall|contact: ContactId| #[trigger]
        islands.contact_map().contains_key(contact) implies {
        let k = islands.contact_map()[contact].island_id;
        &&& unlinkable(islands.contact_map(), contact)
        &&& islands.map().contains_key(k)
        &&& islands.map()[k].contact_count > 0
        &&& islands.model(body_islands)[k].contacts.contains(contact)
    } by {
        lemma_unlink(islands.contact_map(), contact_lists(map), contact_seqs, contact);
    }
    assert forall|joint: JointId| #[trigger] islands.joint_map().contains_key(joint) implies {
        let k = islands.joint_map()[joint].island_id;
        &&& unlinkable(islands.joint_map(), joint)
        &&& islands.map().contains_key(k)
        &&& islands.map()[k].joint_count > 0
        &&& islands.model(body_islands)[k].joints.contains(joint)
    } by {
        lemma_unlink(islands.joint_map(), joint_lists(map), joint_seqs, joint);
    }
    assert forall|body: Entity| #[trigger] nodes.contains_key(body) implies {
        let k = nodes[body].island_id;
        &&& unlinkable(nodes, body)
        &&& islands.map().contains_key(k)
        &&& islands.map()[k].body_count > 0
        &&& islands.model(body_islands)[k].bodies.contains(body)
    } by {
        lemma_unlink(nodes, body_lists(map), body_seqs, body);
    }
}

impl BodyIslandNode {
    /// Gives a body that is part of no island an island of its own.
    pub fn on_add(body: Entity, islands: &mut PhysicsIslands, body_islands: &mut BodyIslands)
        requires
            old(islands).wf(old(body_islands)),
            old(islands).slots() < u32::MAX,
            !old(body_islands).nodes().contains_key(body),
        ensures
            final(islands).wf(final(body_islands)),
            final(islands).model(final(body_islands)) == old(islands).model(
                old(body_islands),
            ).insert(old(islands).next_island(), lone_body(body)),
            !old(islands).map().contains_key(old(islands).next_island()),
            final(body_islands).nodes() == old(body_islands).nodes().insert(
                body,
                new_node(old(islands).next_island()),
            ),
            final(islands).contact_map() == old(islands).contact_map(),
            final(islands).joint_map() == old(islands).joint_map(),
            final(islands).candidate() == old(islands).candidate(),
            final(islands).candidate_timer() == old(islands).candidate_timer(),
            old(islands).candidate_exists() ==> final(islands).candidate_exists(),
            final(islands).slots() <= old(islands).slots() + 1,
    {
        let ghost before = islands.map();
        let ghost nodes = body_islands.nodes();
        let ghost contacts = islands.contact_map();
        let ghost joints = islands.joint_map();
        let ghost body_seqs = lists_of(nodes, body_lists(before));
        let ghost contact_seqs = lists_of(contacts, contact_lists(before));
        let ghost joint_seqs = lists_of(joints, joint_lists(before));
        let init = |island: &mut PhysicsIsland|
            ensures
                *final(island) == old(island).with_body_list(lone_ends(body)),
            {
                island.head_body = Some(body);
                island.tail_body = Some(body);
                island.body_count = 1;
            };
        let island_id = islands.create_island_with(init);
        body_islands.put(body, IslandNode::new(island_id));
        proof {
            let map = islands.map();
            let island = new_island(island_id).with_body_list(lone_ends(body));
            assert(map == before.insert(island_id, island));
            lemma_add_empty(nodes, body_lists(before), body_seqs, Set::empty(), island_id);
            lemma_add_empty(contacts, contact_lists(before), contact_seqs, Set::empty(), island_id);
            lemma_add_empty(joints, joint_lists(before), joint_seqs, Set::empty(), island_id);
            let ends = body_lists(before).insert(island_id, empty_ends());
            let seqs = body_seqs.insert(island_id, Seq::empty());
            lemma_label(nodes, ends, seqs, Set::empty());
            lemma_push_front(nodes, ends, seqs, island_id, body);
            assert(body_islands.nodes() =~= push_front_nodes(
                nodes,
                island_id,
                empty_ends(),
                body,
            ));
            assert(body_lists(map) =~= ends.insert(
                island_id,
                push_front_ends(empty_ends(), body),
            ));
            assert(contact_lists(map) =~= contact_lists(before).insert(island_id, empty_ends()));
            assert(joint_lists(map) =~= joint_lists(before).insert(island_id, empty_ends()));
            assert(seq![body] + Seq::<Entity>::empty() =~= seq![body]);
            lemma_views(
                map,
                body_islands.nodes(),
                contacts,
                joints,
                seqs.insert(island_id, seq![body] + seqs[island_id]),
                contact_seqs.insert(island_id, Seq::empty()),
                joint_seqs.insert(island_id, Seq::empty()),
            );
            assert(islands.model(body_islands) =~= old(islands).model(old(body_islands)).insert(
                island_id,
                lone_body(body),
            ));
        }
    }

    /// Takes a body out of its island.
    ///
    /// The island is removed if nothing is left in it. It may still hold contacts that are yet to
    /// be removed: then it stays, and is removed once they are gone.
    pub fn on_remove(body: Entity, islands: &mut PhysicsIslands, body_islands: &mut BodyIslands)
        requires
            old(islands).wf(old(body_islands)),
            old(body_islands).nodes().contains_key(body),
        ensures
            final(islands).wf(final(body_islands)),
            ({
                let k = old(body_islands).nodes()[body].island_id;
                let model = old(islands).model(old(body_islands));
                &&& model.contains_key(k)
                &&& final(islands).model(final(body_islands)) == without_body(model, k, body)
                &&& final(islands).candidate() == if !without_body(model, k, body).contains_key(k)
                    && old(islands).candidate() == Some(k) {
                    None
                } else {
                    old(islands).candidate()
                }
            }),
            final(body_islands).nodes() == unlink_nodes(old(body_islands).nodes(), body),
            final(islands).contact_map() == old(islands).contact_map(),
            final(islands).joint_map() == old(islands).joint_map(),
            final(islands).candidate_timer() == old(islands).candidate_timer(),
            old(islands).candidate_exists() ==> final(islands).candidate_exists(),
            final(islands).slots() == old(islands).slots(),
    {
        let ghost before = islands.map();
        let ghost nodes = body_islands.nodes();
        let ghost contacts = islands.contact_map();
        let ghost joints = islands.joint_map();
        let ghost body_seqs = lists_of(nodes, body_lists(before));
        let ghost contact_seqs = lists_of(contacts, contact_lists(before));
        let ghost joint_seqs = lists_of(joints, joint_lists(before));
        proof {
            lemma_label(nodes, body_lists(before), body_seqs, Set::empty());
            lemma_unlink(nodes, body_lists(before), body_seqs, body);
            lemma_wf_views(before, nodes, contacts, joints, nodes[body].island_id);
        }
        let node = unlink(body_islands, body);
        let island_id = node.island_id;
        let mut island = *islands.get(island_id).unwrap();
        let ghost island_before = island;
        let ends = unlinked_ends(island.body_ends(), body, node);
        island.set_body_ends(ends);
        islands.islands.set(island_id.0 as usize, island);
        let ghost middle = islands.map();
        let ghost body_seqs1 = body_seqs.insert(island_id, without(body_seqs[island_id], body));
        proof {
            assert(middle =~= before.insert(island_id, island));
            assert(body_lists(middle) =~= body_lists(before).insert(
                island_id,
                unlink_ends(island_before.body_list(), body, node),
            ));
            assert(contact_lists(middle) =~= contact_lists(before));
            assert(joint_lists(middle) =~= joint_lists(before));
            lemma_views(
                middle,
                body_islands.nodes(),
                contacts,
                joints,
                body_seqs1,
                contact_seqs,
                joint_seqs,
            );
            lemma_wf_views(middle, body_islands.nodes(), contacts, joints, island_id);
        }
        islands.remove_island_if_empty(island_id);
        proof {
            let map = islands.map();
            if !map.contains_key(island_id) {
                lemma_remove_empty(
                    body_islands.nodes(),
                    body_lists(middle),
                    body_seqs1,
                    Set::empty(),
                    island_id,
                );
                lemma_remove_empty(
                    contacts,
                    contact_lists(middle),
                    contact_seqs,
                    Set::empty(),
                    island_id,
                );
                lemma_remove_empty(
                    joints,
                    joint_lists(middle),
                    joint_seqs,
                    Set::empty(),
                    island_id,
                );
                assert(map =~= middle.remove(island_id));
                assert(body_lists(map) =~= body_lists(middle).remove(island_id));
                assert(contact_lists(map) =~= contact_lists(middle).remove(island_id));
                assert(joint_lists(map) =~= joint_lists(middle).remove(island_id));
                lemma_views(
                    map,
                    body_islands.nodes(),
                    contacts,
                    joints,
                    body_seqs1.remove(island_id),
                    contact_seqs.remove(island_id),
                    joint_seqs.remove(island_id),
                );
            }
            assert(islands.model(body_islands) =~= without_body(
                old(islands).model(old(body_islands)),
                island_id,
                body,
            ));
        }
    }
}

} // verus!
