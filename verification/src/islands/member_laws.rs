//! What holds of the members of islands as islands are made, merged, split, and removed.

use vstd::prelude::*;

use crate::contact_graph::ContactEdge;
use crate::entity::{ContactId, Entity, JointId};
use crate::float_bits::{is_above, larger_is_not_below};
use crate::islands::island::{is_walk, new_island, step_ok, walkable};
use crate::islands::laws::members_name_their_island;
use crate::islands::list::{
    is_list, lemma_ends, node_ok, unlink_ends, unlink_nodes, unlinkable, without, ListEnds,
};
use crate::islands::manager::{
    absorbed_island, can_merge, cluster_of, graphs_fit, is_other_island, is_part_of, islands_of_pair,
    kept_island, lemma_wf_views, lone_body, merged_model, with_contact, with_joint, without_body,
    without_contact, without_joint, IslandView, PhysicsIslands,
};
use crate::islands::node::{
    decimal, new_node, BodyIslands, IslandId, IslandNode, NodeStore, PLACEHOLDER_ISLAND,
};
use crate::islands::search::{
    contact_pairs, edge_fits, fits_body, has_member, joint_pairs, members_of, pair_fits,
    pairs_fit_at,
};
use crate::joint_graph::JointGraphEdge;

verus! {

// Merging.

/// When two islands become one, the one with more bodies is kept, or the first one of two that have
/// as many, and the other one goes.
pub proof fn larger_island_is_kept(
    model: Map<IslandId, IslandView>,
    island1: IslandId,
    island2: IslandId,
)
    requires
        island1 != island2,
        model.contains_key(island1),
        model.contains_key(island2),
    ensures
        model[island1].bodies.len() >= model[island2].bodies.len() ==> kept_island(
            model,
            island1,
            island2,
        ) == island1 && absorbed_island(model, island1, island2) == island2,
        model[island1].bodies.len() < model[island2].bodies.len() ==> kept_island(
            model,
            island1,
            island2,
        ) == island2 && absorbed_island(model, island1, island2) == island1,
        !merged_model(model, island1, island2).contains_key(
            absorbed_island(model, island1, island2),
        ),
        merged_model(model, island1, island1) == model,
{
}

/// When two islands become one, the removed constraints of both are counted, whether they sleep or
/// not. So the resulting island has lost constraints exactly if one of the two has.
pub proof fn merging_adds_up_removed_constraints(
    model: Map<IslandId, IslandView>,
    island1: IslandId,
    island2: IslandId,
)
    requires
        island1 != island2,
        model.contains_key(island1),
        model.contains_key(island2),
        model[island1].constraints_removed + model[island2].constraints_removed <= u32::MAX,
    ensures
        ({
            let after = merged_model(model, island1, island2)[kept_island(
                model,
                island1,
                island2,
            )];
            &&& after.constraints_removed == model[island1].constraints_removed
                + model[island2].constraints_removed
            &&& after.constraints_removed > 0 <==> model[island1].constraints_removed > 0
                || model[island2].constraints_removed > 0
        }),
{
}

/// When two islands become one, the members of the island that is kept come first, then those of the
/// other one, both in their order.
pub proof fn merging_appends_the_members(
    model: Map<IslandId, IslandView>,
    island1: IslandId,
    island2: IslandId,
)
    requires
        island1 != island2,
        model.contains_key(island1),
        model.contains_key(island2),
    ensures
        ({
            let more = model[island1].bodies.len() >= model[island2].bodies.len();
            let big = if more {
                model[island1]
            } else {
                model[island2]
            };
            let small = if more {
                model[island2]
            } else {
                model[island1]
            };
            let after = merged_model(model, island1, island2)[if more {
                island1
            } else {
                island2
            }];
            &&& after.bodies == big.bodies + small.bodies
            &&& after.contacts == big.contacts + small.contacts
            &&& after.joints == big.joints + small.joints
            &&& after.is_sleeping <==> big.is_sleeping || small.is_sleeping
            &&& !small.is_sleeping ==> after.sleep_timer == big.sleep_timer
            &&& small.is_sleeping ==> {
                &&& after.sleep_timer == big.sleep_timer || after.sleep_timer == small.sleep_timer
                &&& !is_above(big.sleep_timer, after.sleep_timer)
                &&& !is_above(small.sleep_timer, after.sleep_timer)
            }
        }),
{
    let more = model[island1].bodies.len() >= model[island2].bodies.len();
    if more {
        larger_is_not_below(model[island2].sleep_timer, model[island1].sleep_timer);
    } else {
        larger_is_not_below(model[island1].sleep_timer, model[island2].sleep_timer);
    }
}

/// Two bodies bring together the islands that they are part of. One that is part of none brings
/// nothing.
pub proof fn pairs_bring_their_islands(
    bodies: Map<Entity, IslandNode<Entity>>,
    body1: Entity,
    body2: Entity,
)
    requires
        bodies.contains_key(body1) || bodies.contains_key(body2),
    ensures
        bodies.contains_key(body1) ==> islands_of_pair(bodies, body1, body2).0
            == bodies[body1].island_id,
        bodies.contains_key(body2) ==> islands_of_pair(bodies, body1, body2).1
            == bodies[body2].island_id,
        !bodies.contains_key(body1) || !bodies.contains_key(body2) ==> islands_of_pair(
            bodies,
            body1,
            body2,
        ).0 == islands_of_pair(bodies, body1, body2).1,
{
}

// Adding and removing constraints and bodies.

/// Adding a contact puts it in front of the contacts of its island, and changes nothing else.
pub proof fn added_contacts_come_first(
    model: Map<IslandId, IslandView>,
    island: IslandId,
    contact: ContactId,
)
    requires
        model.contains_key(island),
    ensures
        ({
            let after = with_contact(model, island, contact);
            &&& after.dom() == model.dom()
            &&& after[island].contacts.len() == model[island].contacts.len() + 1
            &&& after[island].contacts[0] == contact
            &&& after[island].contacts.skip(1) == model[island].contacts
            &&& after[island].bodies == model[island].bodies
            &&& after[island].joints == model[island].joints
            &&& after[island].sleep_timer == model[island].sleep_timer
            &&& after[island].is_sleeping == model[island].is_sleeping
            &&& after[island].constraints_removed == model[island].constraints_removed
            &&& forall|k: IslandId|
                k != island && model.contains_key(k) ==> #[trigger] after[k] == model[k]
        }),
{
    let after = with_contact(model, island, contact);
    assert(after.dom() =~= model.dom());
    assert(after[island].contacts.skip(1) =~= model[island].contacts);
}

/// Adding a joint puts it in front of the joints of its island, and changes nothing else.
pub proof fn added_joints_come_first(
    model: Map<IslandId, IslandView>,
    island: IslandId,
    joint: JointId,
)
    requires
        model.contains_key(island),
    ensures
        ({
            let after = with_joint(model, island, joint);
            &&& after.dom() == model.dom()
            &&& after[island].joints.len() == model[island].joints.len() + 1
            &&& after[island].joints[0] == joint
            &&& after[island].joints.skip(1) == model[island].joints
            &&& after[island].bodies == model[island].bodies
            &&& after[island].contacts == model[island].contacts
            &&& after[island].sleep_timer == model[island].sleep_timer
            &&& after[island].is_sleeping == model[island].is_sleeping
            &&& after[island].constraints_removed == model[island].constraints_removed
            &&& forall|k: IslandId|
                k != island && model.contains_key(k) ==> #[trigger] after[k] == model[k]
        }),
{
    let after = with_joint(model, island, joint);
    assert(after.dom() =~= model.dom());
    assert(after[island].joints.skip(1) =~= model[island].joints);
}

/// A list without one of its members is what came before it, and then what came after it.
pub proof fn removing_closes_the_gap<Id>(s: Seq<Id>, i: int)
    requires
        s.no_duplicates(),
        0 <= i < s.len(),
    ensures
        without(s, s[i]) == s.take(i) + s.skip(i + 1),
        without(s, s[i]).len() == s.len() - 1,
        !without(s, s[i]).contains(s[i]),
        forall|x: Id|
            x != s[i] ==> (#[trigger] without(s, s[i]).contains(x) <==> s.contains(x)),
{
    assert(s.contains(s[i]));
    let n = s.index_of(s[i]);
    assert(s[n] == s[i]);
    assert(n == i);
    let rest = without(s, s[i]);
    assert(rest =~= s.take(i) + s.skip(i + 1));
    assert forall|x: Id| x != s[i] implies (#[trigger] rest.contains(x) <==> s.contains(x)) by {
        if rest.contains(x) {
            let m = choose|m: int| 0 <= m < rest.len() && rest[m] == x;
            if m < i {
                assert(s[m] == x);
            } else {
                assert(s[m + 1] == x);
            }
        }
        if s.contains(x) {
            let m = choose|m: int| 0 <= m < s.len() && s[m] == x;
            if m < i {
                assert(rest[m] == x);
            } else {
                assert(rest[m - 1] == x);
            }
        }
    }
    if rest.contains(s[i]) {
        let m = choose|m: int| 0 <= m < rest.len() && rest[m] == s[i];
        if m < i {
            assert(s[m] == s[i]);
        } else {
            assert(s[m + 1] == s[i]);
        }
    }
}

/// Removing a contact takes it out of its island, which has then lost one more constraint, and
/// changes nothing else.
pub proof fn removed_contacts_are_counted(
    model: Map<IslandId, IslandView>,
    island: IslandId,
    i: int,
)
    requires
        model.contains_key(island),
        model[island].contacts.no_duplicates(),
        0 <= i < model[island].contacts.len(),
        model[island].constraints_removed < u32::MAX,
    ensures
        ({
            let before = model[island].contacts;
            let after = without_contact(model, island, before[i]);
            &&& after.dom() == model.dom()
            &&& after[island].contacts == before.take(i) + before.skip(i + 1)
            &&& after[island].constraints_removed == model[island].constraints_removed + 1
            &&& after[island].bodies == model[island].bodies
            &&& after[island].joints == model[island].joints
            &&& after[island].sleep_timer == model[island].sleep_timer
            &&& after[island].is_sleeping == model[island].is_sleeping
            &&& forall|k: IslandId|
                k != island && model.contains_key(k) ==> #[trigger] after[k] == model[k]
        }),
{
    let before = model[island].contacts;
    removing_closes_the_gap(before, i);
    assert(without_contact(model, island, before[i]).dom() =~= model.dom());
}

/// Removing a joint takes it out of its island, which has then lost one more constraint, and changes
/// nothing else.
pub proof fn removed_joints_are_counted(
    model: Map<IslandId, IslandView>,
    island: IslandId,
    i: int,
)
    requires
        model.contains_key(island),
        model[island].joints.no_duplicates(),
        0 <= i < model[island].joints.len(),
        model[island].constraints_removed < u32::MAX,
    ensures
        ({
            let before = model[island].joints;
            let after = without_joint(model, island, before[i]);
            &&& after.dom() == model.dom()
            &&& after[island].joints == before.take(i) + before.skip(i + 1)
            &&& after[island].constraints_removed == model[island].constraints_removed + 1
            &&& after[island].bodies == model[island].bodies
            &&& after[island].contacts == model[island].contacts
            &&& after[island].sleep_timer == model[island].sleep_timer
            &&& after[island].is_sleeping == model[island].is_sleeping
            &&& forall|k: IslandId|
                k != island && model.contains_key(k) ==> #[trigger] after[k] == model[k]
        }),
{
    let before = model[island].joints;
    removing_closes_the_gap(before, i);
    assert(without_joint(model, island, before[i]).dom() =~= model.dom());
}

/// Removing a body takes it out of its island and changes nothing else, not even the count of lost
/// constraints. The island goes if the body was all that it held.
pub proof fn removed_bodies_leave_their_island(
    model: Map<IslandId, IslandView>,
    island: IslandId,
    i: int,
)
    requires
        model.contains_key(island),
        model[island].bodies.no_duplicates(),
        0 <= i < model[island].bodies.len(),
    ensures
        ({
            let before = model[island];
            let after = without_body(model, island, before.bodies[i]);
            let last = before.bodies.len() == 1 && before.contacts.len() == 0
                && before.joints.len() == 0;
            &&& last ==> after.dom() == model.dom().remove(island)
            &&& !last ==> {
                &&& after.dom() == model.dom()
                &&& after[island].bodies == before.bodies.take(i) + before.bodies.skip(i + 1)
                &&& after[island].contacts == before.contacts
                &&& after[island].joints == before.joints
                &&& after[island].sleep_timer == before.sleep_timer
                &&& after[island].is_sleeping == before.is_sleeping
                &&& after[island].constraints_removed == before.constraints_removed
            }
            &&& forall|k: IslandId|
                k != island && model.contains_key(k) ==> #[trigger] after[k] == model[k]
        }),
{
    let before = model[island];
    removing_closes_the_gap(before.bodies, i);
    let after = without_body(model, island, before.bodies[i]);
    if before.bodies.len() == 1 && before.contacts.len() == 0 && before.joints.len() == 0 {
        assert(after.dom() =~= model.dom().remove(island));
    } else {
        assert(after.dom() =~= model.dom());
    }
}

/// A new island holds nothing, is awake, and has lost no constraints. That of a body which is part of
/// no other holds the body and nothing else. A new node is linked to nothing. The island that stands
/// for none has the largest number.
pub proof fn new_islands_hold_nothing(id: IslandId, body: Entity)
    ensures
        new_island(id).id == id,
        new_island(id).head_body is None,
        new_island(id).tail_body is None,
        new_island(id).body_count == 0,
        new_island(id).head_contact is None,
        new_island(id).tail_contact is None,
        new_island(id).contact_count == 0,
        new_island(id).head_joint is None,
        new_island(id).tail_joint is None,
        new_island(id).joint_count == 0,
        new_island(id).sleep_timer == 0,
        !new_island(id).is_sleeping,
        new_island(id).constraints_removed == 0,
        lone_body(body).bodies.len() == 1,
        lone_body(body).bodies[0] == body,
        lone_body(body).contacts.len() == 0,
        lone_body(body).joints.len() == 0,
        lone_body(body).sleep_timer == 0,
        !lone_body(body).is_sleeping,
        lone_body(body).constraints_removed == 0,
        new_node::<Entity>(id).island_id == id,
        new_node::<Entity>(id).prev is None,
        new_node::<Entity>(id).next is None,
        !new_node::<Entity>(id).is_visited,
        PLACEHOLDER_ISLAND == 0xffff_ffff,
{
}

// What islands hold.

/// What an island is seen to hold is what it and the nodes say: its counts are the lengths of the
/// lists, its heads and tails their ends, and each node leads to its neighbours.
pub proof fn islands_hold_what_the_nodes_link(
    islands: &PhysicsIslands,
    bodies: &BodyIslands,
    k: IslandId,
)
    requires
        islands.wf(bodies),
        islands.map().contains_key(k),
    ensures
        islands.model(bodies).dom() == islands.map().dom(),
        ({
            let view = islands.model(bodies)[k];
            let island = islands.map()[k];
            &&& island.id == k
            &&& view.sleep_timer == island.sleep_timer
            &&& view.is_sleeping == island.is_sleeping
            &&& view.constraints_removed == island.constraints_removed
            &&& view.bodies.len() == island.body_count
            &&& view.contacts.len() == island.contact_count
            &&& view.joints.len() == island.joint_count
            &&& view.bodies.no_duplicates()
            &&& view.contacts.no_duplicates()
            &&& view.joints.no_duplicates()
            &&& view.bodies.len() > 0 ==> island.head_body == Some(view.bodies[0])
                && island.tail_body == Some(view.bodies.last())
            &&& view.contacts.len() > 0 ==> island.head_contact == Some(view.contacts[0])
                && island.tail_contact == Some(view.contacts.last())
            &&& view.joints.len() > 0 ==> island.head_joint == Some(view.joints[0])
                && island.tail_joint == Some(view.joints.last())
            &&& view.bodies.len() == 0 ==> island.head_body is None && island.tail_body is None
            &&& view.contacts.len() == 0 ==> island.head_contact is None && island.tail_contact
                is None
            &&& view.joints.len() == 0 ==> island.head_joint is None && island.tail_joint is None
            &&& forall|i: int|
                0 <= i < view.bodies.len() ==> {
                    let node = bodies.nodes()[#[trigger] view.bodies[i]];
                    &&& bodies.nodes().contains_key(view.bodies[i])
                    &&& node.island_id == k
                    &&& i > 0 ==> node.prev == Some(view.bodies[i - 1])
                    &&& i == 0 ==> node.prev is None
                    &&& i + 1 < view.bodies.len() ==> node.next == Some(view.bodies[i + 1])
                    &&& i + 1 == view.bodies.len() ==> node.next is None
                }
            &&& forall|i: int|
                0 <= i < view.contacts.len() ==> {
                    let node = islands.contact_map()[#[trigger] view.contacts[i]];
                    &&& islands.contact_map().contains_key(view.contacts[i])
                    &&& node.island_id == k
                    &&& i > 0 ==> node.prev == Some(view.contacts[i - 1])
                    &&& i == 0 ==> node.prev is None
                    &&& i + 1 < view.contacts.len() ==> node.next == Some(view.contacts[i + 1])
                    &&& i + 1 == view.contacts.len() ==> node.next is None
                }
            &&& forall|i: int|
                0 <= i < view.joints.len() ==> {
                    let node = islands.joint_map()[#[trigger] view.joints[i]];
                    &&& islands.joint_map().contains_key(view.joints[i])
                    &&& node.island_id == k
                    &&& i > 0 ==> node.prev == Some(view.joints[i - 1])
                    &&& i == 0 ==> node.prev is None
                    &&& i + 1 < view.joints.len() ==> node.next == Some(view.joints[i + 1])
                    &&& i + 1 == view.joints.len() ==> node.next is None
                }
        }),
{
    let map = islands.map();
    let view = islands.model(bodies)[k];
    lemma_wf_views(map, bodies.nodes(), islands.contact_map(), islands.joint_map(), k);
    lemma_ends(bodies.nodes(), k, view.bodies, map[k].body_list());
    lemma_ends(islands.contact_map(), k, view.contacts, map[k].contact_list());
    lemma_ends(islands.joint_map(), k, view.joints, map[k].joint_list());
    lemma_links(bodies.nodes(), k, view.bodies, map[k].body_list());
    lemma_links(islands.contact_map(), k, view.contacts, map[k].contact_list());
    lemma_links(islands.joint_map(), k, view.joints, map[k].joint_list());
    assert(islands.model(bodies).dom() =~= map.dom());
}

proof fn lemma_links<Id>(
    nodes: Map<Id, IslandNode<Id>>,
    k: IslandId,
    s: Seq<Id>,
    ends: ListEnds<Id>,
)
    requires
        is_list(nodes, k, s, ends),
    ensures
        forall|i: int|
            0 <= i < s.len() ==> {
                let node = nodes[#[trigger] s[i]];
                &&& nodes.contains_key(s[i])
                &&& node.island_id == k
                &&& i > 0 ==> node.prev == Some(s[i - 1])
                &&& i == 0 ==> node.prev is None
                &&& i + 1 < s.len() ==> node.next == Some(s[i + 1])
                &&& i + 1 == s.len() ==> node.next is None
            },
{
    reveal(is_list);
    assert forall|i: int| 0 <= i < s.len() implies {
        let node = nodes[#[trigger] s[i]];
        &&& nodes.contains_key(s[i])
        &&& node.island_id == k
        &&& i > 0 ==> node.prev == Some(s[i - 1])
        &&& i == 0 ==> node.prev is None
        &&& i + 1 < s.len() ==> node.next == Some(s[i + 1])
        &&& i + 1 == s.len() ==> node.next is None
    } by {
        assert(node_ok(nodes, k, s, i));
    }
}

/// Taking a node out of its list links its neighbours to each other, and changes no other node.
pub proof fn unlinking_joins_the_neighbours<Id>(nodes: Map<Id, IslandNode<Id>>, id: Id)
    requires
        unlinkable(nodes, id),
        nodes[id].prev != nodes[id].next || nodes[id].prev is None,
    ensures
        ({
            let after = unlink_nodes(nodes, id);
            let prev = nodes[id].prev;
            let next = nodes[id].next;
            &&& after.dom() == nodes.dom().remove(id)
            &&& prev matches Some(p) ==> after[p].next == next && after[p].prev == nodes[p].prev
                && after[p].island_id == nodes[p].island_id
            &&& next matches Some(n) ==> after[n].prev == prev && after[n].next == nodes[n].next
                && after[n].island_id == nodes[n].island_id
            &&& forall|x: Id|
                nodes.contains_key(x) && x != id && prev != Some(x) && next != Some(x)
                    ==> #[trigger] after[x] == nodes[x]
        }),
{
    assert(unlink_nodes(nodes, id).dom() =~= nodes.dom().remove(id));
}

/// The ends of a list move on to the neighbours of a member that is taken out, and count one less.
pub proof fn unlinking_moves_the_ends<Id>(ends: ListEnds<Id>, id: Id, node: IslandNode<Id>)
    requires
        ends.count > 0,
    ensures
        unlink_ends(ends, id, node).count == ends.count - 1,
        ends.head == Some(id) ==> unlink_ends(ends, id, node).head == node.next,
        ends.head != Some(id) ==> unlink_ends(ends, id, node).head == ends.head,
        ends.tail == Some(id) ==> unlink_ends(ends, id, node).tail == node.prev,
        ends.tail != Some(id) ==> unlink_ends(ends, id, node).tail == ends.tail,
{
}

/// A list is valid exactly if its nodes lead from its head to its tail, past as many nodes as it
/// counts, all of them nodes of the island, and no further.
pub proof fn valid_lists_can_be_walked<Id>(
    nodes: Map<Id, IslandNode<Id>>,
    island: IslandId,
    ends: ListEnds<Id>,
)
    ensures
        walkable(nodes, island, ends) <==> exists|s: Seq<Id>|
            {
                &&& #[trigger] s.len() == ends.count
                &&& s.len() == 0 ==> ends.head is None && ends.tail is None
                &&& s.len() > 0 ==> ends.head == Some(s[0]) && ends.tail == Some(s[s.len() - 1])
                    && nodes[s[s.len() - 1]].next is None
                &&& forall|i: int|
                    0 <= i < s.len() ==> nodes.contains_key(#[trigger] s[i])
                        && nodes[s[i]].island_id == island
                &&& forall|i: int, j: int|
                    0 <= i < s.len() && j == i + 1 && j < s.len() ==> nodes[#[trigger] s[i]].next
                        == Some(#[trigger] s[j])
            },
{
    if walkable(nodes, island, ends) {
        let s = choose|s: Seq<Id>| is_walk(nodes, island, s, ends);
        assert(forall|i: int| 0 <= i < s.len() ==> step_ok(nodes, island, s, i));
        assert(s.len() == ends.count);
        assert forall|i: int| 0 <= i < s.len() implies nodes.contains_key(#[trigger] s[i])
            && nodes[s[i]].island_id == island by {
            assert(step_ok(nodes, island, s, i));
        }
        assert forall|i: int, j: int|
            0 <= i < s.len() && j == i + 1 && j < s.len() implies nodes[#[trigger] s[i]].next
            == Some(#[trigger] s[j]) by {
            assert(step_ok(nodes, island, s, i));
        }
    }
    if exists|s: Seq<Id>|
        {
            &&& #[trigger] s.len() == ends.count
            &&& s.len() == 0 ==> ends.head is None && ends.tail is None
            &&& s.len() > 0 ==> ends.head == Some(s[0]) && ends.tail == Some(s[s.len() - 1])
                && nodes[s[s.len() - 1]].next is None
            &&& forall|i: int|
                0 <= i < s.len() ==> nodes.contains_key(#[trigger] s[i])
                    && nodes[s[i]].island_id == island
            &&& forall|i: int, j: int|
                0 <= i < s.len() && j == i + 1 && j < s.len() ==> nodes[#[trigger] s[i]].next
                    == Some(#[trigger] s[j])
        } {
        let s = choose|s: Seq<Id>|
            {
                &&& #[trigger] s.len() == ends.count
                &&& s.len() == 0 ==> ends.head is None && ends.tail is None
                &&& s.len() > 0 ==> ends.head == Some(s[0]) && ends.tail == Some(s[s.len() - 1])
                    && nodes[s[s.len() - 1]].next is None
                &&& forall|i: int|
                    0 <= i < s.len() ==> nodes.contains_key(#[trigger] s[i])
                        && nodes[s[i]].island_id == island
                &&& forall|i: int, j: int|
                    0 <= i < s.len() && j == i + 1 && j < s.len() ==> nodes[#[trigger] s[i]].next
                        == Some(#[trigger] s[j])
            };
        assert forall|i: int| 0 <= i < s.len() implies #[trigger] step_ok(nodes, island, s, i) by {
            assert(nodes.contains_key(s[i]));
            if i + 1 < s.len() {
                assert(nodes[s[i]].next == Some(s[i + 1]));
            }
        }
        assert(is_walk(nodes, island, s, ends));
    }
}

// Splitting.

/// A contact connects its two bodies, and a joint does.
pub proof fn constraints_connect_their_bodies(
    view: IslandView,
    contacts: Map<ContactId, ContactEdge>,
    joints: Map<JointId, JointGraphEdge>,
    a: Entity,
    b: Entity,
)
    requires
        view.bodies.contains(a),
        view.bodies.contains(b),
    ensures
        ({
            let cluster = cluster_of(view, contacts, joints);
            &&& (exists|c: ContactId| #[trigger]
                view.contacts.contains(c) && contacts.contains_key(c) && contacts[c].body1 == Some(
                    a,
                ) && contacts[c].body2 == Some(b)) ==> cluster.connected(a, b)
                && cluster.connected(b, a)
            &&& (exists|j: JointId| #[trigger]
                view.joints.contains(j) && joints.contains_key(j) && joints[j].body1 == a
                    && joints[j].body2 == b) ==> cluster.connected(a, b) && cluster.connected(b, a)
            &&& cluster.connected(a, a)
        }),
{
    let cluster = cluster_of(view, contacts, joints);
    let alone = seq![a];
    assert(cluster.is_path(alone));
    assert(alone[0] == a && alone.last() == a);
    let there = seq![a, b];
    let back = seq![b, a];
    assert(there[0] == a && there.last() == b && back[0] == b && back.last() == a);
    if exists|c: ContactId| #[trigger]
        view.contacts.contains(c) && contacts.contains_key(c) && contacts[c].body1 == Some(a)
            && contacts[c].body2 == Some(b) {
        let c = choose|c: ContactId| #[trigger]
            view.contacts.contains(c) && contacts.contains_key(c) && contacts[c].body1 == Some(a)
                && contacts[c].body2 == Some(b);
        assert(cluster.contacts.contains(c));
        assert(cluster.contact_pairs[c] == (a, b));
        assert(cluster.step(there, 0) && cluster.step(back, 0));
        assert(cluster.is_path(there) && cluster.is_path(back));
    }
    if exists|j: JointId| #[trigger]
        view.joints.contains(j) && joints.contains_key(j) && joints[j].body1 == a && joints[j].body2
            == b {
        let j = choose|j: JointId| #[trigger]
            view.joints.contains(j) && joints.contains_key(j) && joints[j].body1 == a
                && joints[j].body2 == b;
        assert(cluster.joints.contains(j));
        assert(cluster.joint_pairs[j] == (a, b));
        assert(cluster.step(there, 0) && cluster.step(back, 0));
        assert(cluster.is_path(there) && cluster.is_path(back));
    }
}

/// Bodies hang together only through contacts and joints between bodies of the island: no way leads
/// out of a set of bodies that neither a contact nor a joint leads out of.
pub proof fn nothing_else_connects_bodies(
    view: IslandView,
    contacts: Map<ContactId, ContactEdge>,
    joints: Map<JointId, JointGraphEdge>,
    set: Set<Entity>,
    a: Entity,
    b: Entity,
)
    requires
        forall|c: ContactId| #[trigger]
            view.contacts.contains(c) ==> contacts.contains_key(c) && contacts[c].body1 is Some
                && contacts[c].body2 is Some,
        forall|c: ContactId| #[trigger]
            view.contacts.contains(c) && view.bodies.contains(contacts[c].body1->0)
                && view.bodies.contains(contacts[c].body2->0) ==> (set.contains(
                contacts[c].body1->0,
            ) <==> set.contains(contacts[c].body2->0)),
        forall|j: JointId| #[trigger] view.joints.contains(j) ==> joints.contains_key(j),
        forall|j: JointId| #[trigger]
            view.joints.contains(j) && view.bodies.contains(joints[j].body1)
                && view.bodies.contains(joints[j].body2) ==> (set.contains(joints[j].body1)
                <==> set.contains(joints[j].body2)),
        set.contains(a),
        cluster_of(view, contacts, joints).connected(a, b),
    ensures
        set.contains(b),
{
    let cluster = cluster_of(view, contacts, joints);
    let path = choose|path: Seq<Entity>|
        path.len() > 0 && path[0] == a && path.last() == b && #[trigger] cluster.is_path(path);
    lemma_path_stays(view, contacts, joints, set, path, path.len() - 1);
}

proof fn lemma_path_stays(
    view: IslandView,
    contacts: Map<ContactId, ContactEdge>,
    joints: Map<JointId, JointGraphEdge>,
    set: Set<Entity>,
    path: Seq<Entity>,
    i: int,
)
    requires
        forall|c: ContactId| #[trigger]
            view.contacts.contains(c) ==> contacts.contains_key(c) && contacts[c].body1 is Some
                && contacts[c].body2 is Some,
        forall|c: ContactId| #[trigger]
            view.contacts.contains(c) && view.bodies.contains(contacts[c].body1->0)
                && view.bodies.contains(contacts[c].body2->0) ==> (set.contains(
                contacts[c].body1->0,
            ) <==> set.contains(contacts[c].body2->0)),
        forall|j: JointId| #[trigger] view.joints.contains(j) ==> joints.contains_key(j),
        forall|j: JointId| #[trigger]
            view.joints.contains(j) && view.bodies.contains(joints[j].body1)
                && view.bodies.contains(joints[j].body2) ==> (set.contains(joints[j].body1)
                <==> set.contains(joints[j].body2)),
        cluster_of(view, contacts, joints).is_path(path),
        0 <= i < path.len(),
        set.contains(path[0]),
    ensures
        set.contains(path[i]),
    decreases i,
{
    if i > 0 {
        let cluster = cluster_of(view, contacts, joints);
        lemma_path_stays(view, contacts, joints, set, path, i - 1);
        assert(cluster.step(path, i - 1));
        assert(cluster.adjacent(path[i - 1], path[i]));
        assert(view.bodies.contains(path[i - 1]) && view.bodies.contains(path[i]));
        assert forall|c: ContactId| #[trigger] cluster.contacts.contains(c) implies view.contacts.contains(
            c,
        ) && cluster.contact_pairs[c] == (contacts[c].body1->0, contacts[c].body2->0) by {
            assert(view.contacts.contains(c));
        }
        assert forall|j: JointId| #[trigger] cluster.joints.contains(j) implies view.joints.contains(
            j,
        ) && cluster.joint_pairs[j] == (joints[j].body1, joints[j].body2) by {
            assert(view.joints.contains(j));
        }
    }
}

/// After a split, the bodies of a contact or of a joint that are part of an island are part of the
/// same one, and the contact or the joint is part of that one too.
pub proof fn splitting_keeps_constrained_bodies_together(
    islands: &PhysicsIslands,
    bodies: &BodyIslands,
    after: &PhysicsIslands,
    after_bodies: &BodyIslands,
    colliders: Map<Entity, Seq<Entity>>,
    contact_graph: Map<ContactId, ContactEdge>,
    joint_graph: Map<JointId, JointGraphEdge>,
    island: IslandId,
)
    requires
        islands.wf(bodies),
        islands.map().contains_key(island),
        after.wf(after_bodies),
        islands.splits_into(
            bodies,
            after,
            after_bodies,
            colliders,
            contact_graph,
            joint_graph,
            island,
        ),
        after_bodies.nodes().dom() == bodies.nodes().dom(),
        after.contact_map().dom() == islands.contact_map().dom(),
        after.joint_map().dom() == islands.joint_map().dom(),
    ensures
        ({
            let view = islands.model(bodies)[island];
            let nodes = after_bodies.nodes();
            &&& forall|c: ContactId, b: Entity|
                #![trigger view.contacts.contains(c), view.bodies.contains(b)]
                view.contacts.contains(c) && view.bodies.contains(b) && contact_graph.contains_key(
                    c,
                ) && contact_graph[c].body1 is Some && contact_graph[c].body2 is Some && (
                contact_graph[c].body1 == Some(b) || contact_graph[c].body2 == Some(b))
                    ==> after.contact_map()[c].island_id == nodes[b].island_id
            &&& forall|j: JointId, b: Entity|
                #![trigger view.joints.contains(j), view.bodies.contains(b)]
                view.joints.contains(j) && view.bodies.contains(b) && joint_graph.contains_key(j)
                    && (joint_graph[j].body1 == b || joint_graph[j].body2 == b)
                    ==> after.joint_map()[j].island_id == nodes[b].island_id
        }),
{
    let before = islands.model(bodies);
    let view = before[island];
    let nodes = after_bodies.nodes();
    members_name_their_island(islands, bodies);
    members_name_their_island(after, after_bodies);
    assert(before.contains_key(island));
    assert forall|b: Entity| #[trigger] view.bodies.contains(b) implies nodes.contains_key(b)
        && after.map().contains_key(nodes[b].island_id) && !is_other_island(
        before,
        island,
        nodes[b].island_id,
    ) by {
        assert(bodies.nodes().contains_key(b));
        assert(bodies.nodes().dom().contains(b));
        assert(nodes.dom().contains(b));
        assert(nodes.contains_key(b));
        let k = nodes[b].island_id;
        assert(after.model(after_bodies).contains_key(k));
        if is_other_island(before, island, k) {
            assert(after.model(after_bodies)[k].bodies.contains(b));
            assert(before[k].bodies.contains(b));
        }
    }
    assert forall|c: ContactId, b: Entity|
        #![trigger view.contacts.contains(c), view.bodies.contains(b)]
        view.contacts.contains(c) && view.bodies.contains(b) && contact_graph.contains_key(c)
            && contact_graph[c].body1 is Some && contact_graph[c].body2 is Some && (
        contact_graph[c].body1 == Some(b) || contact_graph[c].body2 == Some(
            b,
        )) implies after.contact_map()[c].island_id == nodes[b].island_id by {
        let k = nodes[b].island_id;
        assert(graphs_fit(
            nodes,
            after.contact_map(),
            after.joint_map(),
            colliders,
            contact_graph,
            joint_graph,
            k,
        ));
        assert(islands.contact_map().contains_key(c));
        assert(islands.contact_map().dom().contains(c));
        assert(after.contact_map().dom().contains(c));
        assert(after.contact_map().contains_key(c));
        assert(members_of(nodes, k).contains(b));
        assert(has_member(contact_pairs(contact_graph), members_of(nodes, k), c));
    }
    assert forall|j: JointId, b: Entity|
        #![trigger view.joints.contains(j), view.bodies.contains(b)]
        view.joints.contains(j) && view.bodies.contains(b) && joint_graph.contains_key(j) && (
        joint_graph[j].body1 == b || joint_graph[j].body2
            == b) implies after.joint_map()[j].island_id == nodes[b].island_id by {
        let k = nodes[b].island_id;
        assert(graphs_fit(
            nodes,
            after.contact_map(),
            after.joint_map(),
            colliders,
            contact_graph,
            joint_graph,
            k,
        ));
        assert(islands.joint_map().contains_key(j));
        assert(islands.joint_map().dom().contains(j));
        assert(after.joint_map().dom().contains(j));
        assert(after.joint_map().contains_key(j));
        assert(members_of(nodes, k).contains(b));
        assert(has_member(joint_pairs(joint_graph), members_of(nodes, k), j));
    }
}

/// An island that a split made holds at least one body, holds members of the island that was split
/// only, is awake, and has lost no constraints. The other islands are as they were.
pub proof fn splitting_makes_awake_islands(
    islands: &PhysicsIslands,
    bodies: &BodyIslands,
    after: &PhysicsIslands,
    after_bodies: &BodyIslands,
    colliders: Map<Entity, Seq<Entity>>,
    contact_graph: Map<ContactId, ContactEdge>,
    joint_graph: Map<JointId, JointGraphEdge>,
    island: IslandId,
    k: IslandId,
)
    requires
        islands.splits_into(
            bodies,
            after,
            after_bodies,
            colliders,
            contact_graph,
            joint_graph,
            island,
        ),
    ensures
        ({
            let model = islands.model(bodies);
            let now = after.model(after_bodies);
            &&& model.contains_key(k) && k != island ==> now.contains_key(k) && now[k] == model[k]
            &&& now.contains_key(k) && (!model.contains_key(k) || k == island) ==> {
                &&& now[k].bodies.len() > 0
                &&& forall|b: Entity| #[trigger]
                    now[k].bodies.contains(b) ==> model[island].bodies.contains(b)
                &&& forall|c: ContactId| #[trigger]
                    now[k].contacts.contains(c) ==> model[island].contacts.contains(c)
                &&& forall|j: JointId| #[trigger]
                    now[k].joints.contains(j) ==> model[island].joints.contains(j)
                &&& now[k].sleep_timer == 0
                &&& !now[k].is_sleeping
                &&& now[k].constraints_removed == 0
            }
        }),
{
    let model = islands.model(bodies);
    let now = after.model(after_bodies);
    if model.contains_key(k) && k != island {
        assert(is_other_island(model, island, k));
    } else if now.contains_key(k) {
        assert(!is_other_island(model, island, k));
        assert(is_part_of(now[k], model[island]));
        assert forall|b: Entity| #[trigger] now[k].bodies.contains(b) implies model[island].bodies.contains(
        b) by {
            assert(now[k].bodies.to_set().contains(b));
        }
        assert forall|c: ContactId| #[trigger] now[k].contacts.contains(c) implies model[island].contacts.contains(
        c) by {
            assert(now[k].contacts.to_set().contains(c));
        }
        assert forall|j: JointId| #[trigger] now[k].joints.contains(j) implies model[island].joints.contains(
        j) by {
            assert(now[k].joints.to_set().contains(j));
        }
    }
}

/// A split forgets which island is to be split next if that was the one that was split, and not
/// otherwise. It takes no more new identifiers than the island had bodies, and takes back none.
pub proof fn splitting_settles_the_candidate(
    islands: &PhysicsIslands,
    bodies: &BodyIslands,
    after: &PhysicsIslands,
    after_bodies: &BodyIslands,
    colliders: Map<Entity, Seq<Entity>>,
    contact_graph: Map<ContactId, ContactEdge>,
    joint_graph: Map<JointId, JointGraphEdge>,
    island: IslandId,
)
    requires
        islands.splits_into(
            bodies,
            after,
            after_bodies,
            colliders,
            contact_graph,
            joint_graph,
            island,
        ),
    ensures
        islands.candidate() == Some(island) ==> after.candidate() is None,
        islands.candidate() != Some(island) ==> after.candidate() == islands.candidate(),
        islands.slots() <= after.slots(),
        after.slots() <= islands.slots() + islands.map()[island].body_count,
{
}

/// After a split, two bodies of the island that was split are part of the same island exactly if they
/// hang together. So a set of its bodies that neither a contact nor a joint leads out of holds all
/// bodies of the new island of a body that it holds.
pub proof fn splitting_parts_what_does_not_hang_together(
    islands: &PhysicsIslands,
    bodies: &BodyIslands,
    after: &PhysicsIslands,
    after_bodies: &BodyIslands,
    colliders: Map<Entity, Seq<Entity>>,
    contact_graph: Map<ContactId, ContactEdge>,
    joint_graph: Map<JointId, JointGraphEdge>,
    island: IslandId,
    set: Set<Entity>,
    a: Entity,
    b: Entity,
)
    requires
        islands.splits_into(
            bodies,
            after,
            after_bodies,
            colliders,
            contact_graph,
            joint_graph,
            island,
        ),
        ({
            let view = islands.model(bodies)[island];
            &&& view.bodies.contains(a)
            &&& view.bodies.contains(b)
            &&& forall|c: ContactId| #[trigger]
                view.contacts.contains(c) ==> contact_graph.contains_key(c)
                    && contact_graph[c].body1 is Some && contact_graph[c].body2 is Some
            &&& forall|c: ContactId| #[trigger]
                view.contacts.contains(c) && view.bodies.contains(contact_graph[c].body1->0)
                    && view.bodies.contains(contact_graph[c].body2->0) ==> (set.contains(
                    contact_graph[c].body1->0,
                ) <==> set.contains(contact_graph[c].body2->0))
            &&& forall|j: JointId| #[trigger]
                view.joints.contains(j) ==> joint_graph.contains_key(j)
            &&& forall|j: JointId| #[trigger]
                view.joints.contains(j) && view.bodies.contains(joint_graph[j].body1)
                    && view.bodies.contains(joint_graph[j].body2) ==> (set.contains(
                    joint_graph[j].body1,
                ) <==> set.contains(joint_graph[j].body2))
        }),
        set.contains(a),
        after_bodies.nodes()[a].island_id == after_bodies.nodes()[b].island_id,
    ensures
        set.contains(b),
{
    let view = islands.model(bodies)[island];
    let cluster = cluster_of(view, contact_graph, joint_graph);
    assert(cluster.bodies.contains(a) && cluster.bodies.contains(b));
    assert(cluster.connected(a, b));
    nothing_else_connects_bodies(view, contact_graph, joint_graph, set, a, b);
}

/// Islands that are the same but for the one to be split next hold the same islands, nodes, and
/// identifiers. The one to be split next exists if there is an island with its identifier.
pub proof fn only_the_candidate_differs(islands: &PhysicsIslands, others: &PhysicsIslands)
    ensures
        islands.same_but_candidate(others) <==> {
            &&& islands.map() == others.map()
            &&& islands.contact_map() == others.contact_map()
            &&& islands.joint_map() == others.joint_map()
            &&& islands.slots() == others.slots()
            &&& islands.next_island() == others.next_island()
            &&& islands.table_wf() == others.table_wf()
        },
        islands.candidate_exists() <==> islands.candidate() is None || islands.map().contains_key(
            islands.candidate()->0,
        ),
{
}

/// Two islands can be merged as long as their counts add up to numbers of 32 bits.
pub proof fn islands_that_can_be_counted_can_merge(a: IslandView, b: IslandView)
    ensures
        can_merge(a, b) <==> {
            &&& a.bodies.len() + b.bodies.len() <= 0xffff_ffff
            &&& a.contacts.len() + b.contacts.len() <= 0xffff_ffff
            &&& a.joints.len() + b.joints.len() <= 0xffff_ffff
            &&& a.constraints_removed + b.constraints_removed <= 0xffff_ffff
        },
{
}

/// An island is to be split if it is awake and has lost constraints. It can be split as long as each
/// linked constraint that is linked to it, or has a body in it, has no body in another island, each
/// contact is found through the colliders of those of its bodies that are in the island, and there are
/// identifiers left.
pub proof fn islands_in_order_can_be_split(
    islands: &PhysicsIslands,
    bodies: &BodyIslands,
    colliders: Map<Entity, Seq<Entity>>,
    contact_graph: Map<ContactId, ContactEdge>,
    joint_graph: Map<JointId, JointGraphEdge>,
    island: IslandId,
)
    requires
        islands.slots() + islands.map()[island].body_count <= u32::MAX,
        forall|c: ContactId| #[trigger]
            islands.contact_map().contains_key(c) ==> {
                let k = islands.contact_map()[c].island_id;
                let edge = contact_graph[c];
                let nodes = bodies.nodes();
                &&& contact_graph.contains_key(c)
                &&& edge.body1 is Some
                &&& edge.body2 is Some
                &&& nodes.contains_key(edge.body1->0) || nodes.contains_key(edge.body2->0)
                &&& nodes.contains_key(edge.body1->0) ==> nodes[edge.body1->0].island_id == k
                &&& nodes.contains_key(edge.body2->0) ==> nodes[edge.body2->0].island_id == k
                &&& edge.body1 != edge.body2
            },
        forall|j: JointId| #[trigger]
            islands.joint_map().contains_key(j) ==> {
                let k = islands.joint_map()[j].island_id;
                let edge = joint_graph[j];
                let nodes = bodies.nodes();
                &&& joint_graph.contains_key(j)
                &&& nodes.contains_key(edge.body1) || nodes.contains_key(edge.body2)
                &&& nodes.contains_key(edge.body1) ==> nodes[edge.body1].island_id == k
                &&& nodes.contains_key(edge.body2) ==> nodes[edge.body2].island_id == k
            },
        forall|b: Entity| #[trigger]
            bodies.nodes().contains_key(b) && colliders.contains_key(b)
                ==> colliders[b].no_duplicates(),
        forall|c: ContactId, b: Entity|
            #![trigger islands.contact_map().contains_key(c), bodies.nodes().contains_key(b)]
            islands.contact_map().contains_key(c) && bodies.nodes().contains_key(b) ==> {
                &&& contact_graph[c].body1 == Some(b) <==> colliders.contains_key(b)
                    && colliders[b].contains(contact_graph[c].collider1)
                &&& contact_graph[c].body2 == Some(b) <==> colliders.contains_key(b)
                    && colliders[b].contains(contact_graph[c].collider2)
            },
    ensures
        islands.splittable(bodies, colliders, contact_graph, joint_graph, island),
        islands.needs_split(island) <==> islands.map()[island].is_sleeping == false
            && islands.map()[island].constraints_removed > 0,
{
    let nodes = bodies.nodes();
    assert(pairs_fit_at(islands.contact_map(), contact_pairs(contact_graph), nodes, island)) by {
        assert forall|c: ContactId| #[trigger] islands.contact_map().contains_key(c) implies
            contact_pairs(contact_graph).contains_key(c) && pair_fits(
            nodes,
            contact_pairs(contact_graph)[c],
            islands.contact_map()[c].island_id,
        ) by {}
    }
    assert(pairs_fit_at(islands.joint_map(), joint_pairs(joint_graph), nodes, island));
    assert forall|c: ContactId| #[trigger]
        islands.contact_map().dom().contains(c) && contact_graph.contains_key(c) implies edge_fits(
        contact_graph[c],
        colliders,
        members_of(nodes, island),
    ) by {
        assert(islands.contact_map().contains_key(c));
        assert forall|b: Entity| #[trigger] members_of(nodes, island).contains(b) implies fits_body(
            contact_graph[c],
            colliders,
            b,
        ) by {
            assert(nodes.contains_key(b));
        }
    }
}

/// An island that can be split is in order: the constraints that are linked to it have their bodies in
/// it, its bodies list each collider once, its contacts are found through the colliders of their bodies,
/// and there are identifiers left.
pub proof fn islands_that_can_be_split_are_in_order(
    islands: &PhysicsIslands,
    bodies: &BodyIslands,
    colliders: Map<Entity, Seq<Entity>>,
    contact_graph: Map<ContactId, ContactEdge>,
    joint_graph: Map<JointId, JointGraphEdge>,
    island: IslandId,
)
    requires
        islands.splittable(bodies, colliders, contact_graph, joint_graph, island),
    ensures
        islands.slots() + islands.map()[island].body_count <= u32::MAX,
        forall|c: ContactId| #[trigger]
            islands.contact_map().contains_key(c) && islands.contact_map()[c].island_id == island
                ==> {
                let edge = contact_graph[c];
                let nodes = bodies.nodes();
                &&& contact_graph.contains_key(c)
                &&& edge.body1 is Some
                &&& edge.body2 is Some
                &&& nodes.contains_key(edge.body1->0) || nodes.contains_key(edge.body2->0)
                &&& nodes.contains_key(edge.body1->0) ==> nodes[edge.body1->0].island_id == island
                &&& nodes.contains_key(edge.body2->0) ==> nodes[edge.body2->0].island_id == island
            },
        forall|j: JointId| #[trigger]
            islands.joint_map().contains_key(j) && islands.joint_map()[j].island_id == island ==> {
                let edge = joint_graph[j];
                let nodes = bodies.nodes();
                &&& joint_graph.contains_key(j)
                &&& nodes.contains_key(edge.body1) || nodes.contains_key(edge.body2)
                &&& nodes.contains_key(edge.body1) ==> nodes[edge.body1].island_id == island
                &&& nodes.contains_key(edge.body2) ==> nodes[edge.body2].island_id == island
            },
        forall|b: Entity| #[trigger]
            bodies.nodes().contains_key(b) && bodies.nodes()[b].island_id == island
                && colliders.contains_key(b) ==> colliders[b].no_duplicates(),
        forall|c: ContactId, b: Entity|
            #![trigger islands.contact_map().contains_key(c), bodies.nodes().contains_key(b)]
            islands.contact_map().contains_key(c) && contact_graph.contains_key(c)
                && bodies.nodes().contains_key(b) && bodies.nodes()[b].island_id == island ==> {
                &&& contact_graph[c].body1 == Some(b) <==> colliders.contains_key(b)
                    && colliders[b].contains(contact_graph[c].collider1)
                &&& contact_graph[c].body2 == Some(b) <==> colliders.contains_key(b)
                    && colliders[b].contains(contact_graph[c].collider2)
                &&& !(contact_graph[c].body1 == Some(b) && contact_graph[c].body2 == Some(b))
            },
{
    let nodes = bodies.nodes();
    let members = members_of(nodes, island);
    assert(pairs_fit_at(islands.contact_map(), contact_pairs(contact_graph), nodes, island));
    assert(pairs_fit_at(islands.joint_map(), joint_pairs(joint_graph), nodes, island));
    assert forall|c: ContactId| #[trigger]
        islands.contact_map().contains_key(c) && islands.contact_map()[c].island_id
            == island implies contact_pairs(contact_graph).contains_key(c) && pair_fits(
        nodes,
        contact_pairs(contact_graph)[c],
        island,
    ) by {}
    assert forall|j: JointId| #[trigger]
        islands.joint_map().contains_key(j) && islands.joint_map()[j].island_id
            == island implies joint_pairs(joint_graph).contains_key(j) && pair_fits(
        nodes,
        joint_pairs(joint_graph)[j],
        island,
    ) by {}
    assert forall|b: Entity| #[trigger]
        nodes.contains_key(b) && nodes[b].island_id == island && colliders.contains_key(
            b,
        ) implies colliders[b].no_duplicates() by {
        assert(members.contains(b));
    }
    assert forall|c: ContactId, b: Entity|
        #![trigger islands.contact_map().contains_key(c), nodes.contains_key(b)]
        islands.contact_map().contains_key(c) && contact_graph.contains_key(c)
            && nodes.contains_key(b) && nodes[b].island_id == island implies fits_body(
        contact_graph[c],
        colliders,
        b,
    ) by {
        assert(islands.contact_map().dom().contains(c));
        assert(edge_fits(contact_graph[c], colliders, members));
        assert(members.contains(b));
    }
}

/// A contact connects bodies exactly if it is there and has two, and a joint if it is there.
pub proof fn constraints_have_two_bodies(
    contacts: Map<ContactId, ContactEdge>,
    joints: Map<JointId, JointGraphEdge>,
    c: ContactId,
    j: JointId,
)
    ensures
        contact_pairs(contacts).contains_key(c) <==> contacts.contains_key(c) && contacts[c].body1
            is Some && contacts[c].body2 is Some,
        contact_pairs(contacts).contains_key(c) ==> contacts[c].body1 == Some(
            contact_pairs(contacts)[c].0,
        ) && contacts[c].body2 == Some(contact_pairs(contacts)[c].1),
        joint_pairs(joints).contains_key(j) <==> joints.contains_key(j),
        joints.contains_key(j) ==> joint_pairs(joints)[j].0 == joints[j].body1
            && joint_pairs(joints)[j].1 == joints[j].body2,
{
}

// Labels.

/// The number that decimal digits stand for.
pub open spec fn number_of(text: Seq<char>) -> int
    decreases text.len(),
{
    if text.len() == 0 {
        0
    } else {
        10 * number_of(text.drop_last()) + (text.last() as int - '0' as int)
    }
}

/// A number in decimal digits reads as the number, and has no digits in front that it does not need.
pub proof fn decimal_digits_read_as_the_number(n: nat)
    ensures
        number_of(decimal(n)) == n,
        decimal(n).len() > 0,
        forall|i: int|
            0 <= i < decimal(n).len() ==> '0' <= #[trigger] decimal(n)[i] && decimal(n)[i] <= '9',
        decimal(n).len() > 1 ==> decimal(n)[0] != '0',
    decreases n,
{
    if n >= 10 {
        decimal_digits_read_as_the_number(n / 10);
        let front = decimal(n / 10);
        assert(decimal(n).drop_last() =~= front);
        assert(decimal(n)[0] == front[0]);
        if front.len() == 1 {
            assert(front.drop_last() =~= Seq::empty());
            assert(number_of(front.drop_last()) == 0);
        }
    } else {
        assert(decimal(n).drop_last() =~= Seq::empty());
        assert(number_of(decimal(n).drop_last()) == 0);
    }
}

} // verus!
