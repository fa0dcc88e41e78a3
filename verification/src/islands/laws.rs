//! What holds of the islands of a simulation, whatever is done to them.

use vstd::prelude::*;

use crate::entity::{ContactId, Entity, JointId};
use crate::islands::island::{list_is_walkable, walkable};
use crate::islands::list::{lemma_ends, lemma_label, lemma_member, lists_of, without};
use crate::islands::manager::{
    absorbed_island, body_lists, contact_lists, is_other_island, is_part_of, is_split,
    islands_of_pair, joint_lists, kept_island, lemma_wf_views, lone_body, merged_model,
    with_contact, with_joint, without_body, without_contact, without_joint, IslandView,
    PhysicsIslands,
};
use crate::islands::node::{BodyIslands, IslandId, IslandNode, NodeStore};
use crate::islands::search::{is_of, pair_fits, pairs_fit, pairs_fit_at};

verus! {

/// A body, contact, or joint is a member of an island exactly if its node names the island.
pub proof fn members_name_their_island(islands: &PhysicsIslands, bodies: &BodyIslands)
    requires
        islands.wf(bodies),
    ensures
        forall|k: IslandId, b: Entity|
            #![trigger islands.model(bodies)[k].bodies.contains(b)]
            islands.model(bodies).contains_key(k) ==> (islands.model(bodies)[k].bodies.contains(b)
                <==> bodies.nodes().contains_key(b) && bodies.nodes()[b].island_id == k),
        forall|k: IslandId, c: ContactId|
            #![trigger islands.model(bodies)[k].contacts.contains(c)]
            islands.model(bodies).contains_key(k) ==> (islands.model(bodies)[k].contacts.contains(c)
                <==> islands.contact_map().contains_key(c) && islands.contact_map()[c].island_id
                == k),
        forall|k: IslandId, j: JointId|
            #![trigger islands.model(bodies)[k].joints.contains(j)]
            islands.model(bodies).contains_key(k) ==> (islands.model(bodies)[k].joints.contains(j)
                <==> islands.joint_map().contains_key(j) && islands.joint_map()[j].island_id == k),
        forall|b: Entity| #[trigger]
            bodies.nodes().contains_key(b) ==> islands.model(bodies).contains_key(
                bodies.nodes()[b].island_id,
            ),
        forall|c: ContactId| #[trigger]
            islands.contact_map().contains_key(c) ==> islands.model(bodies).contains_key(
                islands.contact_map()[c].island_id,
            ),
        forall|j: JointId| #[trigger]
            islands.joint_map().contains_key(j) ==> islands.model(bodies).contains_key(
                islands.joint_map()[j].island_id,
            ),
{
    let map = islands.map();
    let nodes = bodies.nodes();
    let contacts = islands.contact_map();
    let joints = islands.joint_map();
    lemma_label(nodes, body_lists(map), lists_of(nodes, body_lists(map)), Set::empty());
    lemma_label(contacts, contact_lists(map), lists_of(contacts, contact_lists(map)), Set::empty());
    lemma_label(joints, joint_lists(map), lists_of(joints, joint_lists(map)), Set::empty());
    lemma_member(nodes, body_lists(map), lists_of(nodes, body_lists(map)), Set::empty());
    lemma_member(contacts, contact_lists(map), lists_of(contacts, contact_lists(map)), Set::empty());
    lemma_member(joints, joint_lists(map), lists_of(joints, joint_lists(map)), Set::empty());
    let model = islands.model(bodies);
    assert forall|k: IslandId, b: Entity|
        #![trigger islands.model(bodies)[k].bodies.contains(b)]
        model.contains_key(k) implies (model[k].bodies.contains(b) <==> nodes.contains_key(b)
        && nodes[b].island_id == k) by {
        assert(model[k].bodies == lists_of(nodes, body_lists(map))[k]);
    }
    assert forall|k: IslandId, c: ContactId|
        #![trigger islands.model(bodies)[k].contacts.contains(c)]
        model.contains_key(k) implies (model[k].contacts.contains(c) <==> contacts.contains_key(c)
        && contacts[c].island_id == k) by {
        assert(model[k].contacts == lists_of(contacts, contact_lists(map))[k]);
    }
    assert forall|k: IslandId, j: JointId|
        #![trigger islands.model(bodies)[k].joints.contains(j)]
        model.contains_key(k) implies (model[k].joints.contains(j) <==> joints.contains_key(j)
        && joints[j].island_id == k) by {
        assert(model[k].joints == lists_of(joints, joint_lists(map))[k]);
    }
}

/// No body, contact, or joint is a member of two islands, or twice a member of one.
pub proof fn islands_are_disjoint(
    islands: &PhysicsIslands,
    bodies: &BodyIslands,
    k: IslandId,
    l: IslandId,
)
    requires
        islands.wf(bodies),
        islands.model(bodies).contains_key(k),
        islands.model(bodies).contains_key(l),
        k != l,
    ensures
        islands.model(bodies)[k].bodies.to_set().disjoint(islands.model(bodies)[l].bodies.to_set()),
        islands.model(bodies)[k].contacts.to_set().disjoint(
            islands.model(bodies)[l].contacts.to_set(),
        ),
        islands.model(bodies)[k].joints.to_set().disjoint(islands.model(bodies)[l].joints.to_set()),
        islands.model(bodies)[k].bodies.no_duplicates(),
        islands.model(bodies)[k].contacts.no_duplicates(),
        islands.model(bodies)[k].joints.no_duplicates(),
{
    members_name_their_island(islands, bodies);
    lists_have_no_duplicates(islands, bodies, k);
    let model = islands.model(bodies);
    assert forall|b: Entity|
        !(model[k].bodies.to_set().contains(b) && model[l].bodies.to_set().contains(b)) by {
        if model[k].bodies.contains(b) && model[l].bodies.contains(b) {
            assert(bodies.nodes()[b].island_id == k);
        }
    }
    assert forall|c: ContactId|
        !(model[k].contacts.to_set().contains(c) && model[l].contacts.to_set().contains(c)) by {
        if model[k].contacts.contains(c) && model[l].contacts.contains(c) {
            assert(islands.contact_map()[c].island_id == k);
        }
    }
    assert forall|j: JointId|
        !(model[k].joints.to_set().contains(j) && model[l].joints.to_set().contains(j)) by {
        if model[k].joints.contains(j) && model[l].joints.contains(j) {
            assert(islands.joint_map()[j].island_id == k);
        }
    }
}

proof fn lists_have_no_duplicates(islands: &PhysicsIslands, bodies: &BodyIslands, k: IslandId)
    requires
        islands.wf(bodies),
        islands.model(bodies).contains_key(k),
    ensures
        islands.model(bodies)[k].bodies.no_duplicates(),
        islands.model(bodies)[k].contacts.no_duplicates(),
        islands.model(bodies)[k].joints.no_duplicates(),
{
    let map = islands.map();
    lemma_wf_views(map, bodies.nodes(), islands.contact_map(), islands.joint_map(), k);
    lemma_ends(
        bodies.nodes(),
        k,
        islands.model(bodies)[k].bodies,
        map[k].body_list(),
    );
    lemma_ends(
        islands.contact_map(),
        k,
        islands.model(bodies)[k].contacts,
        map[k].contact_list(),
    );
    lemma_ends(
        islands.joint_map(),
        k,
        islands.model(bodies)[k].joints,
        map[k].joint_list(),
    );
}

/// Islands that are in order pass validation.
pub proof fn islands_in_order_are_valid(
    islands: &PhysicsIslands,
    bodies: &BodyIslands,
    k: IslandId,
)
    requires
        islands.wf(bodies),
        islands.map().contains_key(k),
    ensures
        walkable(bodies.nodes(), islands.map()[k].id, islands.map()[k].body_list()),
        walkable(islands.contact_map(), islands.map()[k].id, islands.map()[k].contact_list()),
        walkable(islands.joint_map(), islands.map()[k].id, islands.map()[k].joint_list()),
{
    let map = islands.map();
    lemma_wf_views(map, bodies.nodes(), islands.contact_map(), islands.joint_map(), k);
    let view = islands.model(bodies)[k];
    list_is_walkable(bodies.nodes(), k, view.bodies, map[k].body_list());
    list_is_walkable(islands.contact_map(), k, view.contacts, map[k].contact_list());
    list_is_walkable(islands.joint_map(), k, view.joints, map[k].joint_list());
}

/// A sleeping island stays asleep when it is merged with an awake one, whichever is kept.
pub proof fn merging_keeps_asleep(
    model: Map<IslandId, IslandView>,
    island1: IslandId,
    island2: IslandId,
)
    requires
        island1 != island2,
        model.contains_key(island1),
        model.contains_key(island2),
    ensures
        merged_model(model, island1, island2)[kept_island(model, island1, island2)].is_sleeping
            == (model[island1].is_sleeping || model[island2].is_sleeping),
{
}

/// Merging moves all members of both islands to the one that is kept, which has no fewer bodies,
/// and changes no other island.
pub proof fn merging_moves_all_members(
    model: Map<IslandId, IslandView>,
    island1: IslandId,
    island2: IslandId,
)
    requires
        island1 != island2,
        model.contains_key(island1),
        model.contains_key(island2),
    ensures
        ({
            let after = merged_model(model, island1, island2);
            let kept = kept_island(model, island1, island2);
            let absorbed = absorbed_island(model, island1, island2);
            &&& model[kept].bodies.len() >= model[absorbed].bodies.len()
            &&& after.dom() == model.dom().remove(absorbed)
            &&& after[kept].bodies.to_multiset() == model[island1].bodies.to_multiset().add(
                model[island2].bodies.to_multiset(),
            )
            &&& after[kept].contacts.to_multiset() == model[island1].contacts.to_multiset().add(
                model[island2].contacts.to_multiset(),
            )
            &&& after[kept].joints.to_multiset() == model[island1].joints.to_multiset().add(
                model[island2].joints.to_multiset(),
            )
            &&& forall|k: IslandId|
                k != island1 && k != island2 && model.contains_key(k) ==> #[trigger] after[k]
                    == model[k]
        }),
{
    let after = merged_model(model, island1, island2);
    let kept = kept_island(model, island1, island2);
    let absorbed = absorbed_island(model, island1, island2);
    vstd::seq_lib::lemma_multiset_commutative(model[kept].bodies, model[absorbed].bodies);
    vstd::seq_lib::lemma_multiset_commutative(model[kept].contacts, model[absorbed].contacts);
    vstd::seq_lib::lemma_multiset_commutative(model[kept].joints, model[absorbed].joints);
    assert(after.dom() =~= model.dom().remove(absorbed));
    assert(after[kept].bodies.to_multiset() =~= model[island1].bodies.to_multiset().add(
        model[island2].bodies.to_multiset(),
    ));
    assert(after[kept].contacts.to_multiset() =~= model[island1].contacts.to_multiset().add(
        model[island2].contacts.to_multiset(),
    ));
    assert(after[kept].joints.to_multiset() =~= model[island1].joints.to_multiset().add(
        model[island2].joints.to_multiset(),
    ));
}

/// Removing a contact that was just added to an island leaves the island as it was, with one more
/// removed constraint.
pub proof fn removing_undoes_adding_a_contact(
    model: Map<IslandId, IslandView>,
    island: IslandId,
    contact: ContactId,
)
    requires
        model.contains_key(island),
        !model[island].contacts.contains(contact),
    ensures
        without_contact(with_contact(model, island, contact), island, contact) == model.insert(
            island,
            (IslandView {
                constraints_removed: (model[island].constraints_removed + 1) as u32,
                ..model[island]
            }),
        ),
{
    lemma_front_is_removed(model[island].contacts, contact);
    assert(without_contact(with_contact(model, island, contact), island, contact) =~= model.insert(
        island,
        (IslandView {
            constraints_removed: (model[island].constraints_removed + 1) as u32,
            ..model[island]
        }),
    ));
}

/// Removing a joint that was just added to an island leaves the island as it was, with one more
/// removed constraint.
pub proof fn removing_undoes_adding_a_joint(
    model: Map<IslandId, IslandView>,
    island: IslandId,
    joint: JointId,
)
    requires
        model.contains_key(island),
        !model[island].joints.contains(joint),
    ensures
        without_joint(with_joint(model, island, joint), island, joint) == model.insert(
            island,
            (IslandView {
                constraints_removed: (model[island].constraints_removed + 1) as u32,
                ..model[island]
            }),
        ),
{
    lemma_front_is_removed(model[island].joints, joint);
    assert(without_joint(with_joint(model, island, joint), island, joint) =~= model.insert(
        island,
        (IslandView {
            constraints_removed: (model[island].constraints_removed + 1) as u32,
            ..model[island]
        }),
    ));
}

proof fn lemma_front_is_removed<Id>(s: Seq<Id>, id: Id)
    requires
        !s.contains(id),
    ensures
        without(seq![id] + s, id) == s,
{
    let t = seq![id] + s;
    assert(t[0] == id);
    assert(t.contains(id));
    let at = t.index_of(id);
    if at > 0 {
        assert(s[at - 1] == id);
    }
    assert(t.remove(0) =~= s);
}

/// Removing a body that was just given an island of its own leaves the islands as they were.
pub proof fn removing_undoes_adding_a_body(
    model: Map<IslandId, IslandView>,
    island: IslandId,
    body: Entity,
)
    requires
        !model.contains_key(island),
    ensures
        without_body(model.insert(island, lone_body(body)), island, body) == model,
{
    let s = seq![body];
    assert(s[0] == body);
    assert(s.contains(body));
    assert(s.remove(0) =~= Seq::empty());
    assert(model.insert(island, lone_body(body)).remove(island) =~= model);
}

/// An island that a split made is not to be split again.
pub proof fn split_parts_need_no_split(
    before: Map<IslandId, IslandView>,
    islands: &PhysicsIslands,
    bodies: &BodyIslands,
    island: IslandId,
    k: IslandId,
)
    requires
        islands.wf(bodies),
        is_split(before, islands.model(bodies), island),
        islands.map().contains_key(k),
        !is_other_island(before, island, k),
    ensures
        !islands.needs_split(k),
{
    assert(islands.model(bodies).contains_key(k));
    assert(is_part_of(islands.model(bodies)[k], before[island]));
}

/// The islands that a split made.
pub open spec fn new_islands(
    before: Map<IslandId, IslandView>,
    after: Map<IslandId, IslandView>,
    island: IslandId,
) -> Set<IslandId> {
    Set::new(|k: IslandId| after.contains_key(k) && !is_other_island(before, island, k))
}

/// How many members the lists of the given islands have together.
pub open spec fn total<Id>(lists: Map<IslandId, Seq<Id>>, ids: Set<IslandId>) -> nat
    decreases ids.len(),
{
    if ids.finite() && ids.len() > 0 {
        let k = ids.choose();
        lists[k].len() + total(lists, ids.remove(k))
    } else {
        0
    }
}

/// The bodies of all islands.
pub open spec fn bodies_by_island(model: Map<IslandId, IslandView>) -> Map<IslandId, Seq<Entity>> {
    Map::new(|k: IslandId| model.contains_key(k), |k: IslandId| model[k].bodies)
}

/// The contacts of all islands.
pub open spec fn contacts_by_island(model: Map<IslandId, IslandView>) -> Map<
    IslandId,
    Seq<ContactId>,
> {
    Map::new(|k: IslandId| model.contains_key(k), |k: IslandId| model[k].contacts)
}

/// The joints of all islands.
pub open spec fn joints_by_island(model: Map<IslandId, IslandView>) -> Map<
    IslandId,
    Seq<JointId>,
> {
    Map::new(|k: IslandId| model.contains_key(k), |k: IslandId| model[k].joints)
}

/// The islands that a split made have as many bodies, contacts, and joints together as the island
/// that was split.
pub proof fn splitting_keeps_counts(
    islands: &PhysicsIslands,
    bodies: &BodyIslands,
    after_islands: &PhysicsIslands,
    after_bodies: &BodyIslands,
    island: IslandId,
)
    requires
        islands.wf(bodies),
        islands.map().contains_key(island),
        after_islands.wf(after_bodies),
        is_split(islands.model(bodies), after_islands.model(after_bodies), island),
    ensures
        ({
            let before = islands.model(bodies);
            let after = after_islands.model(after_bodies);
            let ids = new_islands(before, after, island);
            &&& total(bodies_by_island(after), ids) == before[island].bodies.len()
            &&& total(contacts_by_island(after), ids) == before[island].contacts.len()
            &&& total(joints_by_island(after), ids) == before[island].joints.len()
        }),
{
    let before = islands.model(bodies);
    let after = after_islands.model(after_bodies);
    let ids = new_islands(before, after, island);
    let whole = before[island];
    assert(before.contains_key(island));
    after_islands.lemma_next_is_free();
    vstd::set_lib::lemma_set_subset_finite(after_islands.map().dom(), ids);
    members_name_their_island(islands, bodies);
    members_name_their_island(after_islands, after_bodies);
    lists_have_no_duplicates(islands, bodies, island);
    whole.bodies.unique_seq_to_set();
    whole.contacts.unique_seq_to_set();
    whole.joints.unique_seq_to_set();
    vstd::seq_lib::seq_to_set_is_finite(whole.bodies);
    vstd::seq_lib::seq_to_set_is_finite(whole.contacts);
    vstd::seq_lib::seq_to_set_is_finite(whole.joints);
    assert forall|k: IslandId| #[trigger] ids.contains(k) implies {
        &&& after[k].bodies.no_duplicates()
        &&& after[k].contacts.no_duplicates()
        &&& after[k].joints.no_duplicates()
        &&& is_part_of(after[k], whole)
    } by {
        assert(after.contains_key(k));
        lists_have_no_duplicates(after_islands, after_bodies, k);
    }
    assert forall|b: Entity| whole.bodies.to_set().contains(b) <==> #[trigger] is_listed(
        bodies_by_island(after),
        ids,
        b,
    ) by {
        if whole.bodies.contains(b) {
            let k = choose|k: IslandId| #[trigger]
                after.contains_key(k) && after[k].bodies.contains(b);
            if is_other_island(before, island, k) {
                assert(before[k].bodies.contains(b));
            }
            assert(ids.contains(k) && bodies_by_island(after)[k].contains(b));
        }
        if is_listed(bodies_by_island(after), ids, b) {
            let k = choose|k: IslandId| #[trigger]
                ids.contains(k) && bodies_by_island(after)[k].contains(b);
            assert(after[k].bodies.to_set().contains(b));
        }
    }
    assert forall|c: ContactId| whole.contacts.to_set().contains(c) <==> #[trigger] is_listed(
        contacts_by_island(after),
        ids,
        c,
    ) by {
        if whole.contacts.contains(c) {
            let k = choose|k: IslandId| #[trigger]
                after.contains_key(k) && after[k].contacts.contains(c);
            if is_other_island(before, island, k) {
                assert(before[k].contacts.contains(c));
            }
            assert(ids.contains(k) && contacts_by_island(after)[k].contains(c));
        }
        if is_listed(contacts_by_island(after), ids, c) {
            let k = choose|k: IslandId| #[trigger]
                ids.contains(k) && contacts_by_island(after)[k].contains(c);
            assert(after[k].contacts.to_set().contains(c));
        }
    }
    assert forall|j: JointId| whole.joints.to_set().contains(j) <==> #[trigger] is_listed(
        joints_by_island(after),
        ids,
        j,
    ) by {
        if whole.joints.contains(j) {
            let k = choose|k: IslandId| #[trigger]
                after.contains_key(k) && after[k].joints.contains(j);
            if is_other_island(before, island, k) {
                assert(before[k].joints.contains(j));
            }
            assert(ids.contains(k) && joints_by_island(after)[k].contains(j));
        }
        if is_listed(joints_by_island(after), ids, j) {
            let k = choose|k: IslandId| #[trigger]
                ids.contains(k) && joints_by_island(after)[k].contains(j);
            assert(after[k].joints.to_set().contains(j));
        }
    }
    assert forall|k: IslandId, l: IslandId, b: Entity|
        ids.contains(k) && ids.contains(l) && #[trigger] bodies_by_island(after)[k].contains(b)
            && #[trigger] bodies_by_island(after)[l].contains(b) implies k == l by {
        assert(after[k].bodies.contains(b) && after[l].bodies.contains(b));
    }
    assert forall|k: IslandId, l: IslandId, c: ContactId|
        ids.contains(k) && ids.contains(l) && #[trigger] contacts_by_island(after)[k].contains(c)
            && #[trigger] contacts_by_island(after)[l].contains(c) implies k == l by {
        assert(after[k].contacts.contains(c) && after[l].contacts.contains(c));
    }
    assert forall|k: IslandId, l: IslandId, j: JointId|
        ids.contains(k) && ids.contains(l) && #[trigger] joints_by_island(after)[k].contains(j)
            && #[trigger] joints_by_island(after)[l].contains(j) implies k == l by {
        assert(after[k].joints.contains(j) && after[l].joints.contains(j));
    }
    lemma_total(bodies_by_island(after), ids, whole.bodies.to_set());
    lemma_total(contacts_by_island(after), ids, whole.contacts.to_set());
    lemma_total(joints_by_island(after), ids, whole.joints.to_set());
}

/// Whether something is a member of one of the given islands.
spec fn is_listed<Id>(lists: Map<IslandId, Seq<Id>>, ids: Set<IslandId>, x: Id) -> bool {
    exists|k: IslandId| #[trigger] ids.contains(k) && lists[k].contains(x)
}

proof fn lemma_total<Id>(lists: Map<IslandId, Seq<Id>>, ids: Set<IslandId>, whole: Set<Id>)
    requires
        ids.finite(),
        whole.finite(),
        forall|k: IslandId| #[trigger] ids.contains(k) ==> lists[k].no_duplicates(),
        forall|k: IslandId, l: IslandId, x: Id|
            ids.contains(k) && ids.contains(l) && #[trigger] lists[k].contains(x)
                && #[trigger] lists[l].contains(x) ==> k == l,
        forall|x: Id| whole.contains(x) <==> #[trigger] is_listed(lists, ids, x),
    ensures
        total(lists, ids) == whole.len(),
    decreases ids.len(),
{
    if ids.len() > 0 {
        let k = ids.choose();
        let own = lists[k].to_set();
        let rest = whole.difference(own);
        assert forall|x: Id| rest.contains(x) <==> #[trigger] is_listed(
            lists,
            ids.remove(k),
            x,
        ) by {
            if rest.contains(x) {
                assert(is_listed(lists, ids, x));
                let l = choose|l: IslandId| #[trigger] ids.contains(l) && lists[l].contains(x);
                assert(l != k);
                assert(ids.remove(k).contains(l));
            }
            if is_listed(lists, ids.remove(k), x) {
                let l = choose|l: IslandId| #[trigger]
                    ids.remove(k).contains(l) && lists[l].contains(x);
                assert(ids.contains(l));
                assert(is_listed(lists, ids, x));
            }
        }
        lemma_total(lists, ids.remove(k), rest);
        assert(whole =~= rest + own) by {
            assert forall|x: Id| #[trigger] own.contains(x) implies whole.contains(x) by {
                assert(ids.contains(k) && lists[k].contains(x));
                assert(is_listed(lists, ids, x));
            }
        }
        lists[k].unique_seq_to_set();
        vstd::seq_lib::seq_to_set_is_finite(lists[k]);
        vstd::set_lib::lemma_set_disjoint_lens(rest, own);
    } else {
        assert forall|x: Id| !whole.contains(x) by {
            if whole.contains(x) {
                assert(is_listed(lists, ids, x));
                let l = choose|l: IslandId| #[trigger] ids.contains(l) && lists[l].contains(x);
                assert(ids.remove(l).len() < ids.len());
            }
        }
        assert(whole =~= Set::<Id>::empty());
    }
}

// Constraints stay in the islands of their bodies.

/// Whether a body is a member of an island.
pub open spec fn holds_body(model: Map<IslandId, IslandView>, k: IslandId, body: Entity) -> bool {
    model.contains_key(k) && model[k].bodies.contains(body)
}

/// Whether an island holds one of two bodies, and no other island holds one of them.
pub open spec fn holds_pair(
    model: Map<IslandId, IslandView>,
    k: IslandId,
    pair: (Entity, Entity),
) -> bool {
    &&& holds_body(model, k, pair.0) || holds_body(model, k, pair.1)
    &&& forall|l: IslandId| #[trigger] holds_body(model, l, pair.0) ==> l == k
    &&& forall|l: IslandId| #[trigger] holds_body(model, l, pair.1) ==> l == k
}

/// Whether every constraint is part of the island that holds its bodies.
pub open spec fn constraints_fit(
    model: Map<IslandId, IslandView>,
    contact_pairs: Map<ContactId, (Entity, Entity)>,
    joint_pairs: Map<JointId, (Entity, Entity)>,
) -> bool {
    &&& forall|k: IslandId, c: ContactId|
        model.contains_key(k) && #[trigger] model[k].contacts.contains(c)
            ==> contact_pairs.contains_key(c) && holds_pair(model, k, contact_pairs[c])
    &&& forall|k: IslandId, j: JointId|
        model.contains_key(k) && #[trigger] model[k].joints.contains(j)
            ==> joint_pairs.contains_key(j) && holds_pair(model, k, joint_pairs[j])
}

/// Constraints are part of the islands that hold their bodies exactly if their nodes name the
/// islands that the nodes of the bodies name.
pub proof fn constraints_fit_by_nodes(
    islands: &PhysicsIslands,
    bodies: &BodyIslands,
    contact_pairs: Map<ContactId, (Entity, Entity)>,
    joint_pairs: Map<JointId, (Entity, Entity)>,
)
    requires
        islands.wf(bodies),
    ensures
        constraints_fit(islands.model(bodies), contact_pairs, joint_pairs) <==> pairs_fit(
            islands.contact_map(),
            contact_pairs,
            bodies.nodes(),
        ) && pairs_fit(islands.joint_map(), joint_pairs, bodies.nodes()),
{
    members_name_their_island(islands, bodies);
    let model = islands.model(bodies);
    let nodes = bodies.nodes();
    assert forall|k: IslandId, pair: (Entity, Entity)|
        model.contains_key(k) implies (#[trigger] holds_pair(model, k, pair) <==> pair_fits(
        nodes,
        pair,
        k,
    )) by {
        if holds_pair(model, k, pair) {
            if nodes.contains_key(pair.0) {
                assert(holds_body(model, nodes[pair.0].island_id, pair.0));
            }
            if nodes.contains_key(pair.1) {
                assert(holds_body(model, nodes[pair.1].island_id, pair.1));
            }
        }
    }
    if constraints_fit(model, contact_pairs, joint_pairs) {
        assert forall|c: ContactId| #[trigger] islands.contact_map().contains_key(c) implies
            contact_pairs.contains_key(c) && pair_fits(
            nodes,
            contact_pairs[c],
            islands.contact_map()[c].island_id,
        ) by {
            let k = islands.contact_map()[c].island_id;
            assert(model[k].contacts.contains(c));
            assert(holds_pair(model, k, contact_pairs[c]));
        }
        assert forall|j: JointId| #[trigger] islands.joint_map().contains_key(j) implies
            joint_pairs.contains_key(j) && pair_fits(
            nodes,
            joint_pairs[j],
            islands.joint_map()[j].island_id,
        ) by {
            let k = islands.joint_map()[j].island_id;
            assert(model[k].joints.contains(j));
            assert(holds_pair(model, k, joint_pairs[j]));
        }
    }
    if pairs_fit(islands.contact_map(), contact_pairs, nodes) && pairs_fit(
        islands.joint_map(),
        joint_pairs,
        nodes,
    ) {
        assert forall|k: IslandId, c: ContactId|
            model.contains_key(k) && #[trigger] model[k].contacts.contains(c) implies
            contact_pairs.contains_key(c) && holds_pair(model, k, contact_pairs[c]) by {
            assert(islands.contact_map().contains_key(c));
        }
        assert forall|k: IslandId, j: JointId|
            model.contains_key(k) && #[trigger] model[k].joints.contains(j) implies
            joint_pairs.contains_key(j) && holds_pair(model, k, joint_pairs[j]) by {
            assert(islands.joint_map().contains_key(j));
        }
    }
}

/// All linked constraints have their bodies in the islands that they are linked to exactly if that
/// holds for every island by itself.
pub proof fn pairs_fit_at_every_island<Id>(
    nodes: Map<Id, IslandNode<Id>>,
    pairs: Map<Id, (Entity, Entity)>,
    bodies: Map<Entity, IslandNode<Entity>>,
)
    ensures
        pairs_fit(nodes, pairs, bodies) <==> forall|k: IslandId| #[trigger]
            pairs_fit_at(nodes, pairs, bodies, k),
{
    if forall|k: IslandId| #[trigger] pairs_fit_at(nodes, pairs, bodies, k) {
        assert forall|c: Id| #[trigger] nodes.contains_key(c) implies pairs.contains_key(c)
            && pair_fits(bodies, pairs[c], nodes[c].island_id) by {
            assert(pairs_fit_at(nodes, pairs, bodies, nodes[c].island_id));
        }
    }
}

/// Merging two islands keeps every constraint in the island of its bodies.
pub proof fn merging_keeps_constraints_fit(
    model: Map<IslandId, IslandView>,
    island1: IslandId,
    island2: IslandId,
    contact_pairs: Map<ContactId, (Entity, Entity)>,
    joint_pairs: Map<JointId, (Entity, Entity)>,
)
    requires
        model.contains_key(island1),
        model.contains_key(island2),
        constraints_fit(model, contact_pairs, joint_pairs),
    ensures
        constraints_fit(merged_model(model, island1, island2), contact_pairs, joint_pairs),
{
    if island1 != island2 {
        let after = merged_model(model, island1, island2);
        let kept = kept_island(model, island1, island2);
        let absorbed = absorbed_island(model, island1, island2);
        lemma_concat_contains(model[kept].bodies, model[absorbed].bodies);
        lemma_concat_contains(model[kept].contacts, model[absorbed].contacts);
        lemma_concat_contains(model[kept].joints, model[absorbed].joints);
        assert forall|k: IslandId, b: Entity| #[trigger] holds_body(after, k, b) implies (k == kept
            && (holds_body(model, kept, b) || holds_body(model, absorbed, b))) || (k != kept && k
            != absorbed && holds_body(model, k, b)) by {}
        assert forall|k: IslandId, pair: (Entity, Entity)|
            #![trigger holds_pair(model, k, pair)]
            holds_pair(model, k, pair) implies holds_pair(
            after,
            if k == absorbed {
                kept
            } else {
                k
            },
            pair,
        ) by {
            let k1 = if k == absorbed {
                kept
            } else {
                k
            };
            if holds_body(model, k, pair.0) {
                assert(holds_body(after, k1, pair.0));
            } else {
                assert(holds_body(after, k1, pair.1));
            }
            assert forall|l: IslandId, b: Entity|
                (b == pair.0 || b == pair.1) && #[trigger] holds_body(after, l, b) implies l
                == k1 by {
                assert(holds_body(model, l, b) || holds_body(model, absorbed, b));
            }
        }
        assert forall|k: IslandId, c: ContactId|
            after.contains_key(k) && #[trigger] after[k].contacts.contains(c) implies
            contact_pairs.contains_key(c) && holds_pair(after, k, contact_pairs[c]) by {
            let k0 = if k == kept && !model[kept].contacts.contains(c) {
                absorbed
            } else {
                k
            };
            assert(model[k0].contacts.contains(c));
            assert(holds_pair(model, k0, contact_pairs[c]));
        }
        assert forall|k: IslandId, j: JointId|
            after.contains_key(k) && #[trigger] after[k].joints.contains(j) implies
            joint_pairs.contains_key(j) && holds_pair(after, k, joint_pairs[j]) by {
            let k0 = if k == kept && !model[kept].joints.contains(j) {
                absorbed
            } else {
                k
            };
            assert(model[k0].joints.contains(j));
            assert(holds_pair(model, k0, joint_pairs[j]));
        }
    }
}

proof fn lemma_concat_contains<Id>(a: Seq<Id>, b: Seq<Id>)
    ensures
        forall|x: Id| #[trigger] (a + b).contains(x) <==> a.contains(x) || b.contains(x),
{
    assert forall|x: Id| #[trigger] (a + b).contains(x) <==> a.contains(x) || b.contains(x) by {
        if a.contains(x) {
            let i = choose|i: int| 0 <= i < a.len() && a[i] == x;
            assert((a + b)[i] == x);
        }
        if b.contains(x) {
            let i = choose|i: int| 0 <= i < b.len() && b[i] == x;
            assert((a + b)[a.len() + i] == x);
        }
        if (a + b).contains(x) {
            let i = choose|i: int| 0 <= i < (a + b).len() && (a + b)[i] == x;
            if i < a.len() {
                assert(a[i] == x);
            } else {
                assert(b[i - a.len()] == x);
            }
        }
    }
}

/// Linking a contact to the island that holds its bodies keeps every constraint in the island of
/// its bodies.
pub proof fn adding_a_contact_keeps_constraints_fit(
    model: Map<IslandId, IslandView>,
    island: IslandId,
    contact: ContactId,
    contact_pairs: Map<ContactId, (Entity, Entity)>,
    joint_pairs: Map<JointId, (Entity, Entity)>,
)
    requires
        model.contains_key(island),
        contact_pairs.contains_key(contact),
        holds_pair(model, island, contact_pairs[contact]),
        constraints_fit(model, contact_pairs, joint_pairs),
    ensures
        constraints_fit(with_contact(model, island, contact), contact_pairs, joint_pairs),
{
    let after = with_contact(model, island, contact);
    lemma_same_bodies(model, after);
    lemma_concat_contains(seq![contact], model[island].contacts);
    assert forall|k: IslandId, c: ContactId|
        after.contains_key(k) && #[trigger] after[k].contacts.contains(c) implies
        contact_pairs.contains_key(c) && holds_pair(after, k, contact_pairs[c]) by {
        if !(k == island && c == contact) {
            assert(model[k].contacts.contains(c));
        }
        assert(holds_pair(model, k, contact_pairs[c]));
    }
    assert forall|k: IslandId, j: JointId|
        after.contains_key(k) && #[trigger] after[k].joints.contains(j) implies
        joint_pairs.contains_key(j) && holds_pair(after, k, joint_pairs[j]) by {
        assert(model[k].joints.contains(j));
        assert(holds_pair(model, k, joint_pairs[j]));
    }
}

/// Linking a joint to the island that holds its bodies keeps every constraint in the island of its
/// bodies.
pub proof fn adding_a_joint_keeps_constraints_fit(
    model: Map<IslandId, IslandView>,
    island: IslandId,
    joint: JointId,
    contact_pairs: Map<ContactId, (Entity, Entity)>,
    joint_pairs: Map<JointId, (Entity, Entity)>,
)
    requires
        model.contains_key(island),
        joint_pairs.contains_key(joint),
        holds_pair(model, island, joint_pairs[joint]),
        constraints_fit(model, contact_pairs, joint_pairs),
    ensures
        constraints_fit(with_joint(model, island, joint), contact_pairs, joint_pairs),
{
    let after = with_joint(model, island, joint);
    lemma_same_bodies(model, after);
    lemma_concat_contains(seq![joint], model[island].joints);
    assert forall|k: IslandId, j: JointId|
        after.contains_key(k) && #[trigger] after[k].joints.contains(j) implies
        joint_pairs.contains_key(j) && holds_pair(after, k, joint_pairs[j]) by {
        if !(k == island && j == joint) {
            assert(model[k].joints.contains(j));
        }
        assert(holds_pair(model, k, joint_pairs[j]));
    }
    assert forall|k: IslandId, c: ContactId|
        after.contains_key(k) && #[trigger] after[k].contacts.contains(c) implies
        contact_pairs.contains_key(c) && holds_pair(after, k, contact_pairs[c]) by {
        assert(model[k].contacts.contains(c));
        assert(holds_pair(model, k, contact_pairs[c]));
    }
}

/// Once the islands of two bodies were merged, the resulting island holds the two bodies, so that a
/// constraint between them can be linked to it.
pub proof fn merging_brings_bodies_together(
    islands: &PhysicsIslands,
    bodies: &BodyIslands,
    body1: Entity,
    body2: Entity,
)
    requires
        islands.wf(bodies),
        bodies.nodes().contains_key(body1) || bodies.nodes().contains_key(body2),
    ensures
        ({
            let model = islands.model(bodies);
            let (island1, island2) = islands_of_pair(bodies.nodes(), body1, body2);
            &&& model.contains_key(island1)
            &&& model.contains_key(island2)
            &&& holds_pair(
                merged_model(model, island1, island2),
                kept_island(model, island1, island2),
                (body1, body2),
            )
        }),
{
    members_name_their_island(islands, bodies);
    let model = islands.model(bodies);
    let (island1, island2) = islands_of_pair(bodies.nodes(), body1, body2);
    let after = merged_model(model, island1, island2);
    let kept = kept_island(model, island1, island2);
    let absorbed = absorbed_island(model, island1, island2);
    lemma_concat_contains(model[kept].bodies, model[absorbed].bodies);
    assert(model.contains_key(island1) && model.contains_key(island2));
    if bodies.nodes().contains_key(body1) {
        assert(model[island1].bodies.contains(body1));
        assert(holds_body(after, kept, body1));
    }
    if bodies.nodes().contains_key(body2) {
        assert(model[island2].bodies.contains(body2));
        assert(holds_body(after, kept, body2));
    }
    assert forall|l: IslandId, b: Entity|
        (b == body1 || b == body2) && #[trigger] holds_body(after, l, b) implies l == kept by {
        if l != kept {
            assert(after[l] == model[l]);
            assert(model[l].bodies.contains(b));
        }
    }
}

/// Removing a contact keeps every other constraint in the island of its bodies.
pub proof fn removing_a_contact_keeps_constraints_fit(
    model: Map<IslandId, IslandView>,
    island: IslandId,
    contact: ContactId,
    contact_pairs: Map<ContactId, (Entity, Entity)>,
    joint_pairs: Map<JointId, (Entity, Entity)>,
)
    requires
        model.contains_key(island),
        model[island].contacts.contains(contact),
        constraints_fit(model, contact_pairs, joint_pairs),
    ensures
        constraints_fit(without_contact(model, island, contact), contact_pairs, joint_pairs),
{
    let after = without_contact(model, island, contact);
    lemma_same_bodies(model, after);
    lemma_without_contains(model[island].contacts, contact);
    assert forall|k: IslandId, c: ContactId|
        after.contains_key(k) && #[trigger] after[k].contacts.contains(c) implies
        contact_pairs.contains_key(c) && holds_pair(after, k, contact_pairs[c]) by {
        assert(model[k].contacts.contains(c));
        assert(holds_pair(model, k, contact_pairs[c]));
    }
    assert forall|k: IslandId, j: JointId|
        after.contains_key(k) && #[trigger] after[k].joints.contains(j) implies
        joint_pairs.contains_key(j) && holds_pair(after, k, joint_pairs[j]) by {
        assert(model[k].joints.contains(j));
        assert(holds_pair(model, k, joint_pairs[j]));
    }
}

/// Removing a joint keeps every other constraint in the island of its bodies.
pub proof fn removing_a_joint_keeps_constraints_fit(
    model: Map<IslandId, IslandView>,
    island: IslandId,
    joint: JointId,
    contact_pairs: Map<ContactId, (Entity, Entity)>,
    joint_pairs: Map<JointId, (Entity, Entity)>,
)
    requires
        model.contains_key(island),
        model[island].joints.contains(joint),
        constraints_fit(model, contact_pairs, joint_pairs),
    ensures
        constraints_fit(without_joint(model, island, joint), contact_pairs, joint_pairs),
{
    let after = without_joint(model, island, joint);
    lemma_same_bodies(model, after);
    lemma_without_contains(model[island].joints, joint);
    assert forall|k: IslandId, c: ContactId|
        after.contains_key(k) && #[trigger] after[k].contacts.contains(c) implies
        contact_pairs.contains_key(c) && holds_pair(after, k, contact_pairs[c]) by {
        assert(model[k].contacts.contains(c));
        assert(holds_pair(model, k, contact_pairs[c]));
    }
    assert forall|k: IslandId, j: JointId|
        after.contains_key(k) && #[trigger] after[k].joints.contains(j) implies
        joint_pairs.contains_key(j) && holds_pair(after, k, joint_pairs[j]) by {
        assert(model[k].joints.contains(j));
        assert(holds_pair(model, k, joint_pairs[j]));
    }
}

proof fn lemma_same_bodies(model: Map<IslandId, IslandView>, after: Map<IslandId, IslandView>)
    requires
        after.dom() =~= model.dom(),
        forall|k: IslandId| #[trigger] model.contains_key(k) ==> after[k].bodies == model[k].bodies,
    ensures
        forall|k: IslandId, pair: (Entity, Entity)|
            #![trigger holds_pair(model, k, pair)]
            holds_pair(model, k, pair) ==> holds_pair(after, k, pair),
{
    assert forall|k: IslandId, b: Entity| #[trigger]
        holds_body(after, k, b) <==> holds_body(model, k, b) by {
        if after.contains_key(k) {
            assert(model.contains_key(k));
        }
    }
    assert forall|k: IslandId, pair: (Entity, Entity)|
        #![trigger holds_pair(model, k, pair)]
        holds_pair(model, k, pair) implies holds_pair(after, k, pair) by {
        assert forall|l: IslandId, b: Entity|
            (b == pair.0 || b == pair.1) && #[trigger] holds_body(after, l, b) implies l == k by {
            assert(holds_body(model, l, b));
        }
    }
}

proof fn lemma_without_contains<Id>(s: Seq<Id>, id: Id)
    requires
        s.contains(id),
    ensures
        forall|x: Id| #[trigger] without(s, id).contains(x) ==> s.contains(x),
{
    let at = s.index_of(id);
    assert forall|x: Id| #[trigger] without(s, id).contains(x) implies s.contains(x) by {
        let t = s.remove(at);
        let i = choose|i: int| 0 <= i < t.len() && t[i] == x;
        assert(s[if i < at {
            i
        } else {
            i + 1
        }] == x);
    }
}

/// Giving a body an island of its own keeps every constraint in the island of its bodies, unless a
/// constraint of that body is linked already.
pub proof fn adding_a_body_keeps_constraints_fit(
    model: Map<IslandId, IslandView>,
    island: IslandId,
    body: Entity,
    contact_pairs: Map<ContactId, (Entity, Entity)>,
    joint_pairs: Map<JointId, (Entity, Entity)>,
)
    requires
        !model.contains_key(island),
        constraints_fit(model, contact_pairs, joint_pairs),
        forall|k: IslandId, c: ContactId|
            model.contains_key(k) && #[trigger] model[k].contacts.contains(c) ==> !is_of(
                contact_pairs[c],
                body,
            ),
        forall|k: IslandId, j: JointId|
            model.contains_key(k) && #[trigger] model[k].joints.contains(j) ==> !is_of(
                joint_pairs[j],
                body,
            ),
    ensures
        constraints_fit(model.insert(island, lone_body(body)), contact_pairs, joint_pairs),
{
    let after = model.insert(island, lone_body(body));
    assert forall|k: IslandId, b: Entity| #[trigger] holds_body(after, k, b) implies holds_body(
        model,
        k,
        b,
    ) || b == body by {}
    assert forall|k: IslandId, pair: (Entity, Entity)|
        #![trigger holds_pair(model, k, pair)]
        holds_pair(model, k, pair) && !is_of(pair, body) implies holds_pair(after, k, pair) by {
        if holds_body(model, k, pair.0) {
            assert(holds_body(after, k, pair.0));
        } else {
            assert(holds_body(after, k, pair.1));
        }
    }
    assert forall|k: IslandId, c: ContactId|
        after.contains_key(k) && #[trigger] after[k].contacts.contains(c) implies
        contact_pairs.contains_key(c) && holds_pair(after, k, contact_pairs[c]) by {
        assert(k != island);
        assert(model[k].contacts.contains(c));
        assert(holds_pair(model, k, contact_pairs[c]));
    }
    assert forall|k: IslandId, j: JointId|
        after.contains_key(k) && #[trigger] after[k].joints.contains(j) implies
        joint_pairs.contains_key(j) && holds_pair(after, k, joint_pairs[j]) by {
        assert(k != island);
        assert(model[k].joints.contains(j));
        assert(holds_pair(model, k, joint_pairs[j]));
    }
}

/// Taking a body out of its island keeps every constraint in the island of its bodies, unless a
/// constraint of that body is still linked.
pub proof fn removing_a_body_keeps_constraints_fit(
    model: Map<IslandId, IslandView>,
    island: IslandId,
    body: Entity,
    contact_pairs: Map<ContactId, (Entity, Entity)>,
    joint_pairs: Map<JointId, (Entity, Entity)>,
)
    requires
        model.contains_key(island),
        model[island].bodies.contains(body),
        constraints_fit(model, contact_pairs, joint_pairs),
        forall|c: ContactId| #[trigger]
            model[island].contacts.contains(c) ==> !is_of(contact_pairs[c], body),
        forall|j: JointId| #[trigger]
            model[island].joints.contains(j) ==> !is_of(joint_pairs[j], body),
    ensures
        constraints_fit(without_body(model, island, body), contact_pairs, joint_pairs),
{
    let after = without_body(model, island, body);
    let s = model[island].bodies;
    lemma_without_contains(s, body);
    assert forall|b: Entity| b != body && #[trigger] s.contains(b) implies without(
        s,
        body,
    ).contains(b) by {
        let at = s.index_of(body);
        let t = s.remove(at);
        let i = choose|i: int| 0 <= i < s.len() && s[i] == b;
        assert(t[if i < at {
            i
        } else {
            i - 1
        }] == b);
    }
    assert forall|k: IslandId, b: Entity| #[trigger] holds_body(after, k, b) implies holds_body(
        model,
        k,
        b,
    ) by {}
    assert forall|k: IslandId, pair: (Entity, Entity)|
        #![trigger holds_pair(model, k, pair)]
        after.contains_key(k) && holds_pair(model, k, pair) && (k != island || !is_of(
            pair,
            body,
        )) implies holds_pair(after, k, pair) by {
        if holds_body(model, k, pair.0) {
            assert(holds_body(after, k, pair.0));
        } else {
            assert(holds_body(after, k, pair.1));
        }
    }
    assert forall|k: IslandId, c: ContactId|
        after.contains_key(k) && #[trigger] after[k].contacts.contains(c) implies
        contact_pairs.contains_key(c) && holds_pair(after, k, contact_pairs[c]) by {
        assert(model[k].contacts.contains(c));
        assert(holds_pair(model, k, contact_pairs[c]));
    }
    assert forall|k: IslandId, j: JointId|
        after.contains_key(k) && #[trigger] after[k].joints.contains(j) implies
        joint_pairs.contains_key(j) && holds_pair(after, k, joint_pairs[j]) by {
        assert(model[k].joints.contains(j));
        assert(holds_pair(model, k, joint_pairs[j]));
    }
}

} // verus!
