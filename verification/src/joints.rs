//! Keeping the joint graph up to date as joints come, go, and change their bodies.

use vstd::prelude::*;

use crate::body_colliders::BodyColliders;
use crate::contact_graph::{edges_with, pair_key, ContactEdge, ContactGraph, PairKey};
use crate::entity::{ContactId, Entity, JointId};
use crate::joint_graph::{JointGraph, JointGraphEdge};
use crate::narrow_phase::ContactStatusChange;

verus! {

/// A change of the joint graph, for the solver to follow.
#[derive(Clone, Copy, Debug, PartialEq, Eq)]
pub enum JointGraphChange {
    /// A joint was added.
    Added(JointId),
    /// A joint was removed.
    Removed(JointId),
}

/// The kind of joint that an entity holds, if any: the number of its component type.
#[derive(Clone, Copy, Debug, PartialEq, Eq)]
pub struct JointComponentId(pub Option<usize>);

impl JointComponentId {
    /// No joint.
    pub fn new() -> (id: Self)
        ensures
            id.0 is None,
    {
        JointComponentId(None)
    }

    /// The kind of joint, if there is one.
    pub fn id(&self) -> (id: Option<usize>)
        ensures
            id == self.0,
    {
        self.0
    }
}

/// Records that an entity was given a joint of some kind. Returns the kind of the joint that it held
/// before, which is to be removed: an entity holds one kind of joint at a time.
pub fn on_add_joint(joint: &mut JointComponentId, component_id: usize) -> (old_joint: Option<usize>)
    ensures
        old_joint == old(joint).0,
        final(joint).0 == Some(component_id),
{
    let old_joint: Option<usize> = joint.0;
    joint.0 = Some(component_id);
    old_joint
}

/// Records that an entity lost a joint of some kind. Returns whether the entity holds no joint any
/// more. It still does if the joint that it lost was replaced by one of another kind.
pub fn on_remove_joint(joint: &mut JointComponentId, component_id: usize) -> (gone: bool)
    ensures
        gone == (old(joint).0 == Some(component_id)),
        final(joint).0 == if gone {
            None
        } else {
            old(joint).0
        },
{
    let same = match joint.0 {
        Some(id) => id == component_id,
        None => false,
    };
    if same {
        joint.0 = None;
    }
    same
}

/// Adds the joint of an entity to the joint graph.
pub fn add_joint_to_graph(
    entity: Entity,
    body1: Entity,
    body2: Entity,
    collision_disabled: bool,
    joint_graph: &mut JointGraph,
) -> (change: JointGraphChange)
    requires
        old(joint_graph).wf(),
        old(joint_graph).slots() < u32::MAX,
    ensures
        final(joint_graph).wf(),
        ({
            let id = old(joint_graph).next_id();
            &&& change == JointGraphChange::Added(id)
            &&& !old(joint_graph)@.contains_key(id)
            &&& final(joint_graph)@ == old(joint_graph)@.insert(
                id,
                JointGraphEdge { id, entity, body1, body2, collision_disabled },
            )
            &&& final(joint_graph).held() == old(joint_graph).held().insert(entity, id)
        }),
        old(joint_graph).slots() <= final(joint_graph).slots() <= old(joint_graph).slots() + 1,
{
    let edge = JointGraphEdge::new(entity, body1, body2, collision_disabled);
    JointGraphChange::Added(joint_graph.add_joint(edge))
}

/// Removes the joint of an entity from the joint graph, if there is one.
pub fn remove_joint_from_graph(entity: Entity, joint_graph: &mut JointGraph) -> (change: Option<
    JointGraphChange,
>)
    requires
        old(joint_graph).wf(),
    ensures
        final(joint_graph).wf(),
        change is Some <==> old(joint_graph).held().contains_key(entity),
        change is None ==> *final(joint_graph) == *old(joint_graph),
        change matches Some(c) ==> {
            let id = old(joint_graph).held()[entity];
            &&& c == JointGraphChange::Removed(id)
            &&& final(joint_graph)@ == old(joint_graph)@.remove(id)
            &&& final(joint_graph).held() == old(joint_graph).held().remove(entity)
        },
        final(joint_graph).slots() == old(joint_graph).slots(),
{
    proof {
        joint_graph.lemma_ids();
    }
    match joint_graph.remove_joint(entity) {
        Some(edge) => Some(JointGraphChange::Removed(edge.id)),
        None => None,
    }
}

/// A joint that was changed, with the bodies that it connects now.
#[derive(Clone, Copy, Debug, PartialEq, Eq)]
pub struct ChangedJoint {
    pub entity: Entity,
    pub body1: Entity,
    pub body2: Entity,
}

/// Whether an entity holds a joint that connects other bodies so far.
pub open spec fn is_moved(
    graph: Map<JointId, JointGraphEdge>,
    held: Map<Entity, JointId>,
    joint: ChangedJoint,
) -> bool {
    let edge = graph[held[joint.entity]];
    held.contains_key(joint.entity) && (edge.body1 != joint.body1 || edge.body2 != joint.body2)
}

/// The joints once one was moved to other bodies. It keeps its identifier.
pub open spec fn moved_joint(
    graph: Map<JointId, JointGraphEdge>,
    held: Map<Entity, JointId>,
    joint: ChangedJoint,
) -> Map<JointId, JointGraphEdge> {
    let id = held[joint.entity];
    if is_moved(graph, held, joint) {
        graph.insert(id, JointGraphEdge { body1: joint.body1, body2: joint.body2, ..graph[id] })
    } else {
        graph
    }
}

/// The changes when a joint is moved to other bodies.
pub open spec fn move_changes(
    graph: Map<JointId, JointGraphEdge>,
    held: Map<Entity, JointId>,
    joint: ChangedJoint,
) -> Seq<JointGraphChange> {
    let id = held[joint.entity];
    if is_moved(graph, held, joint) {
        seq![JointGraphChange::Removed(id), JointGraphChange::Added(id)]
    } else {
        Seq::empty()
    }
}

/// The joints once some were moved to other bodies, one after the other.
pub open spec fn moved_joints(
    graph: Map<JointId, JointGraphEdge>,
    held: Map<Entity, JointId>,
    joints: Seq<ChangedJoint>,
) -> Map<JointId, JointGraphEdge>
    decreases joints.len(),
{
    if joints.len() == 0 {
        graph
    } else {
        moved_joint(moved_joints(graph, held, joints.drop_last()), held, joints.last())
    }
}

/// The changes when some joints are moved to other bodies, one after the other.
pub open spec fn all_move_changes(
    graph: Map<JointId, JointGraphEdge>,
    held: Map<Entity, JointId>,
    joints: Seq<ChangedJoint>,
) -> Seq<JointGraphChange>
    decreases joints.len(),
{
    if joints.len() == 0 {
        Seq::empty()
    } else {
        let before = moved_joints(graph, held, joints.drop_last());
        all_move_changes(graph, held, joints.drop_last()) + move_changes(
            before,
            held,
            joints.last(),
        )
    }
}

/// Updates the joint graph when joints were changed.
pub fn on_change_joint_entities(
    joints: &Vec<ChangedJoint>,
    joint_graph: &mut JointGraph,
) -> (changes: Vec<JointGraphChange>)
    requires
        old(joint_graph).wf(),
        old(joint_graph).slots() < u32::MAX,
    ensures
        final(joint_graph).wf(),
        changes@ == all_move_changes(old(joint_graph)@, old(joint_graph).held(), joints@),
        final(joint_graph)@ == moved_joints(old(joint_graph)@, old(joint_graph).held(), joints@),
        final(joint_graph).held() == old(joint_graph).held(),
        final(joint_graph).slots() == old(joint_graph).slots(),
{
    let mut changes: Vec<JointGraphChange> = Vec::new();
    let mut i: usize = 0;
    while i < joints.len()
        invariant
            i <= joints@.len(),
            joint_graph.wf(),
            old(joint_graph).slots() < u32::MAX,
            changes@ == all_move_changes(
                old(joint_graph)@,
                old(joint_graph).held(),
                joints@.take(i as int),
            ),
            joint_graph@ == moved_joints(
                old(joint_graph)@,
                old(joint_graph).held(),
                joints@.take(i as int),
            ),
            joint_graph.held() == old(joint_graph).held(),
            joint_graph.slots() == old(joint_graph).slots(),
        decreases joints@.len() - i,
    {
        proof {
            assert(joints@.take(i + 1).drop_last() =~= joints@.take(i as int));
            assert(joints@.take(i + 1).last() == joints@[i as int]);
        }
        let mut more = change_joint_entities(joints[i], joint_graph);
        changes.append(&mut more);
        i = i + 1;
    }
    assert(joints@.take(i as int) =~= joints@);
    changes
}

/// Moves the joint of an entity to other bodies, if it connects others so far. Returns the changes:
/// none, or the removal of the old joint and the addition of the new one.
pub fn change_joint_entities(joint: ChangedJoint, joint_graph: &mut JointGraph) -> (changes: Vec<
    JointGraphChange,
>)
    requires
        old(joint_graph).wf(),
        old(joint_graph).slots() < u32::MAX,
    ensures
        final(joint_graph).wf(),
        changes@ == move_changes(old(joint_graph)@, old(joint_graph).held(), joint),
        final(joint_graph)@ == moved_joint(old(joint_graph)@, old(joint_graph).held(), joint),
        final(joint_graph).held() == old(joint_graph).held(),
        final(joint_graph).slots() == old(joint_graph).slots(),
{
    proof {
        joint_graph.lemma_ids();
    }
    let mut changes: Vec<JointGraphChange> = Vec::new();
    let old_edge = match joint_graph.get(joint.entity) {
        Some(edge) => *edge,
        None => {
            return changes;
        },
    };
    if joint.body1 != old_edge.body1 || joint.body2 != old_edge.body2 {
        // Remove the old joint.
        if let Some(edge) = joint_graph.remove_joint(joint.entity) {
            changes.push(JointGraphChange::Removed(old_edge.id));
            // Add the joint back, with the new bodies.
            let new_edge = JointGraphEdge { body1: joint.body1, body2: joint.body2, ..edge };
            let id = joint_graph.add_joint(new_edge);
            changes.push(JointGraphChange::Added(id));
            proof {
                assert(id == edge.id);
                assert(joint_graph@ =~= old(joint_graph)@.insert(id, new_edge));
                assert(joint_graph.held() =~= old(joint_graph).held());
                assert(changes@ =~= seq![
                    JointGraphChange::Removed(id),
                    JointGraphChange::Added(id),
                ]);
            }
        }
    }
    changes
}

// Removing contacts between bodies that may not collide.

/// The contacts of those given that are with a body, by identifier.
pub open spec fn contacts_with_body(edges: Seq<ContactEdge>, body: Entity) -> Seq<ContactId>
    decreases edges.len(),
{
    if edges.len() == 0 {
        Seq::empty()
    } else {
        let rest = contacts_with_body(edges.drop_last(), body);
        let edge = edges.last();
        if edge.body1 == Some(body) || edge.body2 == Some(body) {
            rest.push(edge.id)
        } else {
            rest
        }
    }
}

/// The contacts of colliders with a body, by identifier.
pub open spec fn contacts_of_colliders(
    graph: Map<ContactId, ContactEdge>,
    colliders: Seq<Entity>,
    body: Entity,
) -> Seq<ContactId>
    decreases colliders.len(),
{
    if colliders.len() == 0 {
        Seq::empty()
    } else {
        contacts_of_colliders(graph, colliders.drop_last(), body) + contacts_with_body(
            edges_with(graph, colliders.last()),
            body,
        )
    }
}

/// The contacts between two bodies: those of the colliders of the one with fewer colliders, with the
/// other body. There are none if one of them has no colliders.
pub open spec fn contacts_between(
    graph: Map<ContactId, ContactEdge>,
    colliders: Map<Entity, Seq<Entity>>,
    body1: Entity,
    body2: Entity,
) -> Seq<ContactId> {
    if !colliders.contains_key(body1) || !colliders.contains_key(body2) {
        Seq::empty()
    } else if colliders[body1].len() < colliders[body2].len() {
        contacts_of_colliders(graph, colliders[body1], body2)
    } else {
        contacts_of_colliders(graph, colliders[body2], body1)
    }
}

/// The end of the constraints of contacts between two bodies.
pub open spec fn stops_between(ids: Seq<ContactId>, body1: Entity, body2: Entity) -> Seq<
    ContactStatusChange,
> {
    ids.map(
        |i: int, contact_id: ContactId|
            ContactStatusChange::StoppedGeneratingConstraints { contact_id, body1, body2 },
    )
}

/// The contacts of colliders with a body, by identifier.
fn collect_contacts(
    colliders: &Vec<Entity>,
    body: Entity,
    contact_graph: &ContactGraph,
) -> (ids: Vec<ContactId>)
    requires
        contact_graph.wf(),
    ensures
        ids@ == contacts_of_colliders(contact_graph@, colliders@, body),
        forall|n: int| 0 <= n < ids@.len() ==> contact_graph@.contains_key(#[trigger] ids@[n]),
{
    let mut ids: Vec<ContactId> = Vec::new();
    let mut i: usize = 0;
    while i < colliders.len()
        invariant
            i <= colliders@.len(),
            contact_graph.wf(),
            ids@ == contacts_of_colliders(contact_graph@, colliders@.take(i as int), body),
            forall|n: int| 0 <= n < ids@.len() ==> contact_graph@.contains_key(#[trigger] ids@[n]),
        decreases colliders@.len() - i,
    {
        let edges = contact_graph.contact_edges_with(colliders[i]);
        let ghost before = ids@;
        proof {
            assert(colliders@.take(i + 1).drop_last() =~= colliders@.take(i as int));
            assert(colliders@.take(i + 1).last() == colliders@[i as int]);
        }
        let mut k: usize = 0;
        assert(ids@ =~= before + contacts_with_body(edges@.take(0), body));
        while k < edges.len()
            invariant
                k <= edges@.len(),
                ids@ == before + contacts_with_body(edges@.take(k as int), body),
                forall|n: int|
                    0 <= n < edges@.len() ==> contact_graph@.contains_key((#[trigger] edges@[n]).id),
                forall|n: int|
                    0 <= n < ids@.len() ==> contact_graph@.contains_key(#[trigger] ids@[n]),
            decreases edges@.len() - k,
        {
            let edge = edges[k];
            proof {
                assert(edges@.take(k + 1).drop_last() =~= edges@.take(k as int));
                assert(edges@.take(k + 1).last() == edge);
                assert(contact_graph@.contains_key(edges@[k as int].id));
            }
            let with = is_body(edge.body1, body) || is_body(edge.body2, body);
            let ghost inner = ids@;
            if with {
                ids.push(edge.id);
                assert(ids@ =~= before + contacts_with_body(edges@.take(k + 1), body));
            }
            k = k + 1;
        }
        assert(edges@.take(k as int) =~= edges@);
        i = i + 1;
    }
    assert(colliders@.take(i as int) =~= colliders@);
    ids
}

fn is_body(option: Option<Entity>, body: Entity) -> (same: bool)
    ensures
        same == (option == Some(body)),
{
    match option {
        Some(other) => other == body,
        None => false,
    }
}

/// Removes the contacts between the bodies of a joint from the contact graph, once they may not
/// collide any more. Returns the contacts that no longer constrain the bodies.
pub fn on_disable_joint_collision(
    entity: Entity,
    body_colliders: &BodyColliders,
    joint_graph: &JointGraph,
    contact_graph: &mut ContactGraph,
) -> (changes: Vec<ContactStatusChange>)
    requires
        joint_graph.wf(),
        old(contact_graph).wf(),
    ensures
        final(contact_graph).wf(),
        ({
            let edge = joint_graph@[joint_graph.held()[entity]];
            let ids = if joint_graph.held().contains_key(entity) {
                contacts_between(old(contact_graph)@, body_colliders@, edge.body1, edge.body2)
            } else {
                Seq::empty()
            };
            &&& changes@ == stops_between(ids, edge.body1, edge.body2)
            &&& final(contact_graph)@ == old(contact_graph)@.remove_keys(ids.to_set())
            // The key of the pair of bodies is forgotten.
            &&& final(contact_graph).keys() == if ids.len() > 0 {
                old(contact_graph).keys().remove(pair_key(edge.body1.index, edge.body2.index))
            } else {
                old(contact_graph).keys()
            }
        }),
        final(contact_graph).slots() == old(contact_graph).slots(),
{
    let ghost graph0 = contact_graph@;
    let ghost keys0 = contact_graph.keys();
    let mut changes: Vec<ContactStatusChange> = Vec::new();
    let ghost edge = joint_graph@[joint_graph.held()[entity]];
    proof {
        assert(graph0 =~= graph0.remove_keys(Seq::<ContactId>::empty().to_set()));
        assert(changes@ =~= stops_between(Seq::empty(), edge.body1, edge.body2));
    }
    let (body1, body2) = match joint_graph.bodies_of(entity) {
        Some(bodies) => bodies,
        None => {
            return changes;
        },
    };
    let (colliders1, colliders2) = match (body_colliders.get(body1), body_colliders.get(body2)) {
        (Some(colliders1), Some(colliders2)) => (colliders1, colliders2),
        _ => {
            return changes;
        },
    };
    // Go through the colliders of the body with fewer colliders.
    let ids = if colliders1.len() < colliders2.len() {
        collect_contacts(colliders1, body2, contact_graph)
    } else {
        collect_contacts(colliders2, body1, contact_graph)
    };
    let key = PairKey::new(body1.index, body2.index);
    let mut i: usize = 0;
    assert(ids@.take(0) =~= Seq::<ContactId>::empty());
    while i < ids.len()
        invariant
            i <= ids@.len(),
            contact_graph.wf(),
            contact_graph.slots() == old(contact_graph).slots(),
            forall|n: int| 0 <= n < ids@.len() ==> graph0.contains_key(#[trigger] ids@[n]),
            contact_graph@ == graph0.remove_keys(ids@.take(i as int).to_set()),
            key == pair_key(body1.index, body2.index),
            contact_graph.keys() == if i > 0 {
                keys0.remove(key)
            } else {
                keys0
            },
            changes@ == stops_between(ids@.take(i as int), body1, body2),
        decreases ids@.len() - i,
    {
        let contact_id = ids[i];
        let ghost done = ids@.take(i as int);
        let ghost next = ids@.take(i + 1);
        contact_graph.remove_edge_by_id(key, contact_id);
        changes.push(
            ContactStatusChange::StoppedGeneratingConstraints { contact_id, body1, body2 },
        );
        proof {
            assert(next =~= done.push(contact_id));
            assert forall|c: ContactId| next.to_set().contains(c) <==> done.to_set().contains(c)
                || c == contact_id by {
                if done.contains(c) {
                    let n = choose|n: int| 0 <= n < done.len() && done[n] == c;
                    assert(next[n] == c);
                }
                if c == contact_id {
                    assert(next[i as int] == c);
                }
            }
            assert(contact_graph@ =~= graph0.remove_keys(next.to_set()));
            assert(keys0.remove(key).remove(key) =~= keys0.remove(key));
            if i == 0 {
                assert(graph0.contains_key(ids@[0]));
            }
            assert(changes@ =~= stops_between(next, body1, body2));
        }
        i = i + 1;
    }
    assert(ids@.take(i as int) =~= ids@);
    changes
}

} // verus!
