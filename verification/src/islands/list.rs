//! The doubly linked lists that hold the bodies, contacts, and joints of the islands.
//!
//! The links live in a table of nodes that all islands share, and every island keeps the two ends
//! of its list. The lists of all islands together are described by a map from islands to sequences.

use vstd::prelude::*;

use crate::islands::node::{IslandId, IslandNode, NodeId, NodeStore};

verus! {

/// The two ends of a linked list, and its length.
#[derive(Clone, Copy, Debug, PartialEq, Eq)]
pub struct ListEnds<Id> {
    pub head: Option<Id>,
    pub tail: Option<Id>,
    pub count: u32,
}

/// The ends of a list without members.
pub open spec fn empty_ends<Id>() -> ListEnds<Id> {
    ListEnds { head: None, tail: None, count: 0 }
}

/// The first member of a sequence, if there is one.
pub open spec fn first_of<Id>(s: Seq<Id>) -> Option<Id> {
    if s.len() == 0 {
        None
    } else {
        Some(s[0])
    }
}

/// The last member of a sequence, if there is one.
pub open spec fn last_of<Id>(s: Seq<Id>) -> Option<Id> {
    if s.len() == 0 {
        None
    } else {
        Some(s[s.len() - 1])
    }
}

/// The link of member `i` to the member before it.
pub open spec fn prev_in<Id>(s: Seq<Id>, i: int) -> Option<Id> {
    if i <= 0 {
        None
    } else {
        Some(s[i - 1])
    }
}

/// The link of member `i` to the member after it.
pub open spec fn next_in<Id>(s: Seq<Id>, i: int) -> Option<Id> {
    if i + 1 >= s.len() {
        None
    } else {
        Some(s[i + 1])
    }
}

/// Whether the node of member `i` of `s` is linked as the list of the given island asks.
pub open spec fn node_ok<Id>(
    nodes: Map<Id, IslandNode<Id>>,
    island: IslandId,
    s: Seq<Id>,
    i: int,
) -> bool {
    &&& nodes.contains_key(s[i])
    &&& nodes[s[i]].island_id == island
    &&& nodes[s[i]].prev == prev_in(s, i)
    &&& nodes[s[i]].next == next_in(s, i)
}

/// Whether the nodes link up the members of `s`, in this order, as the list of the given island.
#[verifier::opaque]
pub open spec fn is_list<Id>(
    nodes: Map<Id, IslandNode<Id>>,
    island: IslandId,
    s: Seq<Id>,
    ends: ListEnds<Id>,
) -> bool {
    &&& s.no_duplicates()
    &&& ends.count == s.len()
    &&& ends.head == first_of(s)
    &&& ends.tail == last_of(s)
    &&& forall|i: int| 0 <= i < s.len() ==> #[trigger] node_ok(nodes, island, s, i)
}

/// Whether the nodes hold exactly the given lists, and besides them nodes that await being linked.
#[verifier::opaque]
pub open spec fn holds_lists<Id>(
    nodes: Map<Id, IslandNode<Id>>,
    ends: Map<IslandId, ListEnds<Id>>,
    lists: Map<IslandId, Seq<Id>>,
    pending: Set<Id>,
) -> bool {
    &&& lists.dom() == ends.dom()
    &&& forall|k: IslandId| #[trigger]
        lists.contains_key(k) ==> is_list(nodes, k, lists[k], ends[k])
    &&& forall|n: Id| #[trigger]
        nodes.contains_key(n) ==> pending.contains(n) || (lists.contains_key(nodes[n].island_id)
            && lists[nodes[n].island_id].contains(n))
    &&& forall|n: Id| #[trigger] pending.contains(n) ==> nodes.contains_key(n)
    &&& forall|k: IslandId, n: Id|
        lists.contains_key(k) && pending.contains(n) ==> !(#[trigger] lists[k].contains(n))
}

/// The list of an island, read off its ends and the nodes.
pub open spec fn list_of<Id>(
    nodes: Map<Id, IslandNode<Id>>,
    island: IslandId,
    ends: ListEnds<Id>,
) -> Seq<Id> {
    choose|s: Seq<Id>| is_list(nodes, island, s, ends)
}

/// The lists of all islands.
pub open spec fn lists_of<Id>(
    nodes: Map<Id, IslandNode<Id>>,
    ends: Map<IslandId, ListEnds<Id>>,
) -> Map<IslandId, Seq<Id>> {
    Map::new(|k: IslandId| ends.contains_key(k), |k: IslandId| list_of(nodes, k, ends[k]))
}

/// Whether every node is a member of the list of its island, and every list is linked up.
pub open spec fn lists_wf<Id>(
    nodes: Map<Id, IslandNode<Id>>,
    ends: Map<IslandId, ListEnds<Id>>,
) -> bool {
    holds_lists(nodes, ends, lists_of(nodes, ends), Set::empty())
}

/// The nodes and the ends of an island determine its list.
pub proof fn lemma_list_unique<Id>(
    nodes: Map<Id, IslandNode<Id>>,
    island: IslandId,
    s: Seq<Id>,
    t: Seq<Id>,
    ends: ListEnds<Id>,
)
    requires
        is_list(nodes, island, s, ends),
        is_list(nodes, island, t, ends),
    ensures
        s == t,
{
    reveal(is_list);
    reveal(holds_lists);
    assert forall|i: int| 0 <= i < s.len() implies s[i] == t[i] by {
        lemma_same_member(nodes, island, s, t, ends, i);
    }
    assert(s =~= t);
}

proof fn lemma_same_member<Id>(
    nodes: Map<Id, IslandNode<Id>>,
    island: IslandId,
    s: Seq<Id>,
    t: Seq<Id>,
    ends: ListEnds<Id>,
    i: int,
)
    requires
        is_list(nodes, island, s, ends),
        is_list(nodes, island, t, ends),
        0 <= i < s.len(),
    ensures
        s[i] == t[i],
    decreases i,
{
    reveal(is_list);
    reveal(holds_lists);
    if i > 0 {
        lemma_same_member(nodes, island, s, t, ends, i - 1);
        assert(node_ok(nodes, island, s, i - 1));
        assert(node_ok(nodes, island, t, i - 1));
    }
}

/// Lists that the nodes hold are the lists read off the nodes.
pub proof fn lemma_holds_is_lists_of<Id>(
    nodes: Map<Id, IslandNode<Id>>,
    ends: Map<IslandId, ListEnds<Id>>,
    lists: Map<IslandId, Seq<Id>>,
)
    requires
        holds_lists(nodes, ends, lists, Set::empty()),
    ensures
        lists == lists_of(nodes, ends),
        lists_wf(nodes, ends),
{
    reveal(is_list);
    reveal(holds_lists);
    assert forall|k: IslandId| #[trigger] lists.contains_key(k) implies lists[k] == list_of(
        nodes,
        k,
        ends[k],
    ) by {
        let s = list_of(nodes, k, ends[k]);
        assert(is_list(nodes, k, lists[k], ends[k]));
        assert(is_list(nodes, k, s, ends[k]));
        lemma_list_unique(nodes, k, lists[k], s, ends[k]);
    }
    assert(lists =~= lists_of(nodes, ends));
}

/// Without nodes and islands, all is in order.
pub proof fn lemma_no_lists<Id>(ends: Map<IslandId, ListEnds<Id>>)
    requires
        ends.dom() == Set::<IslandId>::empty(),
    ensures
        lists_wf(Map::<Id, IslandNode<Id>>::empty(), ends),
{
    reveal(is_list);
    reveal(holds_lists);
    assert(lists_of(Map::<Id, IslandNode<Id>>::empty(), ends).dom() =~= ends.dom());
}

/// An island without members changes nothing for the others.
pub proof fn lemma_add_empty<Id>(
    nodes: Map<Id, IslandNode<Id>>,
    ends: Map<IslandId, ListEnds<Id>>,
    lists: Map<IslandId, Seq<Id>>,
    pending: Set<Id>,
    island: IslandId,
)
    requires
        holds_lists(nodes, ends, lists, pending),
        !ends.contains_key(island),
    ensures
        holds_lists(
            nodes,
            ends.insert(island, empty_ends()),
            lists.insert(island, Seq::empty()),
            pending,
        ),
{
    reveal(is_list);
    reveal(holds_lists);
    let ends1 = ends.insert(island, empty_ends());
    let lists1 = lists.insert(island, Seq::<Id>::empty());
    assert forall|k: IslandId| #[trigger] lists1.contains_key(k) implies is_list(
        nodes,
        k,
        lists1[k],
        ends1[k],
    ) by {
        if k != island {
            assert(lists.contains_key(k));
        }
    }
    assert(lists1.dom() =~= ends1.dom());
}

/// An island without members can go.
pub proof fn lemma_remove_empty<Id>(
    nodes: Map<Id, IslandNode<Id>>,
    ends: Map<IslandId, ListEnds<Id>>,
    lists: Map<IslandId, Seq<Id>>,
    pending: Set<Id>,
    island: IslandId,
)
    requires
        holds_lists(nodes, ends, lists, pending),
        ends.contains_key(island),
        ends[island].count == 0,
    ensures
        holds_lists(nodes, ends.remove(island), lists.remove(island), pending),
{
    reveal(is_list);
    reveal(holds_lists);
    let ends1 = ends.remove(island);
    let lists1 = lists.remove(island);
    assert(is_list(nodes, island, lists[island], ends[island]));
    assert forall|k: IslandId| #[trigger] lists1.contains_key(k) implies is_list(
        nodes,
        k,
        lists1[k],
        ends1[k],
    ) by {
        assert(lists.contains_key(k));
    }
    assert(lists1.dom() =~= ends1.dom());
}

/// When an island goes, its members await being linked to another.
pub proof fn lemma_dissolve<Id>(
    nodes: Map<Id, IslandNode<Id>>,
    ends: Map<IslandId, ListEnds<Id>>,
    lists: Map<IslandId, Seq<Id>>,
    island: IslandId,
)
    requires
        holds_lists(nodes, ends, lists, Set::empty()),
        ends.contains_key(island),
    ensures
        holds_lists(nodes, ends.remove(island), lists.remove(island), lists[island].to_set()),
        lists[island].to_set().finite(),
        lists[island].to_set().len() == lists[island].len(),
        forall|n: Id| #[trigger]
            lists[island].to_set().contains(n) <==> nodes.contains_key(n) && nodes[n].island_id
                == island,
{
    reveal(is_list);
    reveal(holds_lists);
    let ends1 = ends.remove(island);
    let lists1 = lists.remove(island);
    let pending = lists[island].to_set();
    assert(is_list(nodes, island, lists[island], ends[island]));
    lists[island].unique_seq_to_set();
    lemma_member(nodes, ends, lists, Set::empty());
    assert(lists1.dom() =~= ends1.dom());
    assert forall|k: IslandId| #[trigger] lists1.contains_key(k) implies is_list(
        nodes,
        k,
        lists1[k],
        ends1[k],
    ) by {
        assert(lists.contains_key(k));
    }
    assert forall|n: Id| #[trigger] nodes.contains_key(n) implies pending.contains(n) || (
    lists1.contains_key(nodes[n].island_id) && lists1[nodes[n].island_id].contains(n)) by {
        if nodes[n].island_id == island {
            assert(lists[island].contains(n));
        }
    }
    assert forall|n: Id| #[trigger] pending.contains(n) implies nodes.contains_key(n)
        && nodes[n].island_id == island by {
        assert(lists[island].contains(n));
    }
    assert forall|k: IslandId, n: Id|
        lists1.contains_key(k) && pending.contains(n) implies !(#[trigger] lists1[k].contains(
        n,
    )) by {
        if lists[k].contains(n) {
            assert(lists[island].contains(n));
        }
    }
}

/// The length of a list, and its ends.
pub proof fn lemma_ends<Id>(
    nodes: Map<Id, IslandNode<Id>>,
    island: IslandId,
    s: Seq<Id>,
    ends: ListEnds<Id>,
)
    requires
        is_list(nodes, island, s, ends),
    ensures
        ends.count == s.len(),
        ends.head == first_of(s),
        ends.tail == last_of(s),
        s.no_duplicates(),
{
    reveal(is_list);
}

/// The list of each island is linked up.
pub proof fn lemma_list<Id>(
    nodes: Map<Id, IslandNode<Id>>,
    ends: Map<IslandId, ListEnds<Id>>,
    lists: Map<IslandId, Seq<Id>>,
    pending: Set<Id>,
    island: IslandId,
)
    requires
        holds_lists(nodes, ends, lists, pending),
        ends.contains_key(island),
    ensures
        lists.contains_key(island),
        is_list(nodes, island, lists[island], ends[island]),
{
    reveal(holds_lists);
}

/// What has a node, and does not await being linked, is a member of the list of its island.
pub proof fn lemma_label<Id>(
    nodes: Map<Id, IslandNode<Id>>,
    ends: Map<IslandId, ListEnds<Id>>,
    lists: Map<IslandId, Seq<Id>>,
    pending: Set<Id>,
)
    requires
        holds_lists(nodes, ends, lists, pending),
    ensures
        lists.dom() == ends.dom(),
        forall|n: Id| #[trigger]
            nodes.contains_key(n) && !pending.contains(n) ==> ends.contains_key(nodes[n].island_id)
                && lists[nodes[n].island_id].contains(n),
{
    reveal(holds_lists);
}

/// Two different islands have no member in common.
pub proof fn lemma_lists_disjoint<Id>(
    nodes: Map<Id, IslandNode<Id>>,
    ends: Map<IslandId, ListEnds<Id>>,
    lists: Map<IslandId, Seq<Id>>,
    pending: Set<Id>,
    a: IslandId,
    b: IslandId,
    n: Id,
)
    requires
        holds_lists(nodes, ends, lists, pending),
        lists.contains_key(a),
        lists.contains_key(b),
        lists[a].contains(n),
        lists[b].contains(n),
    ensures
        a == b,
        nodes.contains_key(n),
        nodes[n].island_id == a,
{
    reveal(is_list);
    reveal(holds_lists);
    let i = choose|i: int| 0 <= i < lists[a].len() && lists[a][i] == n;
    let j = choose|j: int| 0 <= j < lists[b].len() && lists[b][j] == n;
    assert(node_ok(nodes, a, lists[a], i));
    assert(node_ok(nodes, b, lists[b], j));
}

/// What is a member of the list of an island has a node that names the island.
pub proof fn lemma_member<Id>(
    nodes: Map<Id, IslandNode<Id>>,
    ends: Map<IslandId, ListEnds<Id>>,
    lists: Map<IslandId, Seq<Id>>,
    pending: Set<Id>,
)
    requires
        holds_lists(nodes, ends, lists, pending),
    ensures
        forall|k: IslandId, n: Id|
            lists.contains_key(k) && #[trigger] lists[k].contains(n) ==> nodes.contains_key(n)
                && nodes[n].island_id == k && !pending.contains(n),
{
    reveal(is_list);
    reveal(holds_lists);
    assert forall|k: IslandId, n: Id|
        lists.contains_key(k) && #[trigger] lists[k].contains(n) implies nodes.contains_key(n)
        && nodes[n].island_id == k && !pending.contains(n) by {
        lemma_lists_disjoint(nodes, ends, lists, pending, k, k, n);
    }
}

/// Whether two tables differ in nothing but marks of visits.
pub open spec fn same_links<Id>(
    a: Map<Id, IslandNode<Id>>,
    b: Map<Id, IslandNode<Id>>,
) -> bool {
    &&& a.dom() == b.dom()
    &&& forall|n: Id| #[trigger]
        a.contains_key(n) ==> a[n].island_id == b[n].island_id && a[n].prev == b[n].prev
            && a[n].next == b[n].next
}

/// Marks of visits are no part of the lists.
pub proof fn lemma_same_links<Id>(
    a: Map<Id, IslandNode<Id>>,
    b: Map<Id, IslandNode<Id>>,
    ends: Map<IslandId, ListEnds<Id>>,
    lists: Map<IslandId, Seq<Id>>,
    pending: Set<Id>,
)
    requires
        same_links(a, b),
        holds_lists(a, ends, lists, pending),
    ensures
        holds_lists(b, ends, lists, pending),
{
    reveal(is_list);
    reveal(holds_lists);
    assert forall|k: IslandId| #[trigger] lists.contains_key(k) implies is_list(
        b,
        k,
        lists[k],
        ends[k],
    ) by {
        assert(is_list(a, k, lists[k], ends[k]));
        assert forall|i: int| 0 <= i < lists[k].len() implies #[trigger] node_ok(
            b,
            k,
            lists[k],
            i,
        ) by {
            assert(node_ok(a, k, lists[k], i));
        }
    }
}

/// Whether an optional identifier is the given one.
pub fn is_id<Id: NodeId>(option: Option<Id>, id: Id) -> (same: bool)
    ensures
        same == (option == Some(id)),
{
    match option {
        Some(other) => other.same(&id),
        None => false,
    }
}

// Adding a member at the front.

/// The ends of a list once `id` was put in front.
pub open spec fn push_front_ends<Id>(ends: ListEnds<Id>, id: Id) -> ListEnds<Id> {
    ListEnds {
        head: Some(id),
        tail: if ends.tail is None {
            Some(id)
        } else {
            ends.tail
        },
        count: (ends.count + 1) as u32,
    }
}

/// The nodes once `id` was put in front of a list.
pub open spec fn push_front_nodes<Id>(
    nodes: Map<Id, IslandNode<Id>>,
    island: IslandId,
    ends: ListEnds<Id>,
    id: Id,
) -> Map<Id, IslandNode<Id>> {
    let linked = match ends.head {
        Some(head) => nodes.insert(head, IslandNode { prev: Some(id), ..nodes[head] }),
        None => nodes,
    };
    linked.insert(
        id,
        IslandNode { island_id: island, prev: None, next: ends.head, is_visited: false },
    )
}

/// Puts a new member in front of the list of an island.
pub fn push_front<Id: NodeId, S: NodeStore<Id>>(
    store: &mut S,
    island: IslandId,
    ends: ListEnds<Id>,
    id: Id,
) -> (pushed: ListEnds<Id>)
    requires
        ends.head matches Some(head) ==> old(store).nodes().contains_key(head),
        ends.count < u32::MAX,
    ensures
        pushed == push_front_ends(ends, id),
        final(store).nodes() == push_front_nodes(old(store).nodes(), island, ends, id),
{
    if let Some(head) = ends.head {
        let node = store.node(head).unwrap();
        store.put(head, IslandNode { prev: Some(id), ..node });
    }
    store.put(
        id,
        IslandNode { island_id: island, prev: None, next: ends.head, is_visited: false },
    );
    ListEnds {
        head: Some(id),
        tail: if ends.tail.is_none() {
            Some(id)
        } else {
            ends.tail
        },
        count: ends.count + 1,
    }
}

pub proof fn lemma_push_front<Id>(
    nodes: Map<Id, IslandNode<Id>>,
    ends: Map<IslandId, ListEnds<Id>>,
    lists: Map<IslandId, Seq<Id>>,
    island: IslandId,
    id: Id,
)
    requires
        holds_lists(nodes, ends, lists, Set::empty()),
        lists.contains_key(island),
        !nodes.contains_key(id),
        ends[island].count < u32::MAX,
    ensures
        ends[island].head matches Some(head) ==> nodes.contains_key(head),
        holds_lists(
            push_front_nodes(nodes, island, ends[island], id),
            ends.insert(island, push_front_ends(ends[island], id)),
            lists.insert(island, seq![id] + lists[island]),
            Set::empty(),
        ),
{
    reveal(is_list);
    reveal(holds_lists);
    let nodes1 = push_front_nodes(nodes, island, ends[island], id);
    let ends1 = ends.insert(island, push_front_ends(ends[island], id));
    let s = lists[island];
    let s1 = seq![id] + s;
    let lists1 = lists.insert(island, s1);
    lemma_member(nodes, ends, lists, Set::empty());
    assert(is_list(nodes, island, s, ends[island]));
    if s.len() > 0 {
        assert(node_ok(nodes, island, s, 0));
        assert(lists[island].contains(s[0]));
    }
    assert(forall|n: Id| nodes1.contains_key(n) <==> nodes.contains_key(n) || n == id);
    assert forall|k: IslandId| #[trigger] lists1.contains_key(k) implies is_list(
        nodes1,
        k,
        lists1[k],
        ends1[k],
    ) by {
        if k == island {
            assert forall|i: int| 0 <= i < s1.len() implies #[trigger] node_ok(
                nodes1,
                k,
                s1,
                i,
            ) by {
                if i > 0 {
                    assert(s1[i] == s[i - 1]);
                    assert(node_ok(nodes, k, s, i - 1));
                    if i + 1 < s1.len() {
                        assert(s1[i + 1] == s[i]);
                    }
                } else if s.len() > 0 {
                    assert(s1[1] == s[0]);
                }
            }
            assert forall|i: int, j: int| 0 <= i < s1.len() && 0 <= j < s1.len() && i
                != j implies s1[i] != s1[j] by {
                if i > 0 {
                    assert(s1[i] == s[i - 1]);
                    assert(node_ok(nodes, k, s, i - 1));
                }
                if j > 0 {
                    assert(s1[j] == s[j - 1]);
                    assert(node_ok(nodes, k, s, j - 1));
                }
            }
            if s.len() > 0 {
                assert(s1[s1.len() - 1] == s[s.len() - 1]);
            }
        } else {
            assert(lists.contains_key(k));
            assert(is_list(nodes, k, lists[k], ends[k]));
            assert forall|i: int| 0 <= i < lists[k].len() implies #[trigger] node_ok(
                nodes1,
                k,
                lists[k],
                i,
            ) by {
                assert(node_ok(nodes, k, lists[k], i));
                assert(lists[k].contains(lists[k][i]));
            }
        }
    }
    assert forall|n: Id| #[trigger] nodes1.contains_key(n) implies lists1.contains_key(
        nodes1[n].island_id,
    ) && lists1[nodes1[n].island_id].contains(n) by {
        if n == id {
            assert(s1[0] == id);
        } else {
            assert(nodes.contains_key(n));
            let k = nodes[n].island_id;
            let i = choose|i: int| 0 <= i < lists[k].len() && lists[k][i] == n;
            if k == island {
                assert(s1[i + 1] == n);
            } else {
                assert(lists1[k][i] == n);
            }
        }
    }
    assert(lists1.dom() =~= ends1.dom());
}

// Adding a member at the back.

/// The ends of a list once `id` was put behind it.
pub open spec fn push_back_ends<Id>(ends: ListEnds<Id>, id: Id) -> ListEnds<Id> {
    ListEnds {
        head: if ends.head is None {
            Some(id)
        } else {
            ends.head
        },
        tail: Some(id),
        count: (ends.count + 1) as u32,
    }
}

/// The nodes once `id` was put behind a list, and marked as visited.
pub open spec fn push_back_nodes<Id>(
    nodes: Map<Id, IslandNode<Id>>,
    island: IslandId,
    ends: ListEnds<Id>,
    id: Id,
) -> Map<Id, IslandNode<Id>> {
    let linked = match ends.tail {
        Some(tail) => nodes.insert(tail, IslandNode { next: Some(id), ..nodes[tail] }),
        None => nodes,
    };
    linked.insert(
        id,
        IslandNode { island_id: island, prev: ends.tail, next: None, is_visited: true },
    )
}

/// Puts a member that awaits being linked behind the list of an island, and marks it as visited.
pub fn push_back<Id: NodeId, S: NodeStore<Id>>(
    store: &mut S,
    island: IslandId,
    ends: ListEnds<Id>,
    id: Id,
) -> (pushed: ListEnds<Id>)
    requires
        ends.tail matches Some(tail) ==> old(store).nodes().contains_key(tail),
        ends.count < u32::MAX,
    ensures
        pushed == push_back_ends(ends, id),
        final(store).nodes() == push_back_nodes(old(store).nodes(), island, ends, id),
{
    if let Some(tail) = ends.tail {
        let node = store.node(tail).unwrap();
        store.put(tail, IslandNode { next: Some(id), ..node });
    }
    store.put(
        id,
        IslandNode { island_id: island, prev: ends.tail, next: None, is_visited: true },
    );
    ListEnds {
        head: if ends.head.is_none() {
            Some(id)
        } else {
            ends.head
        },
        tail: Some(id),
        count: ends.count + 1,
    }
}

pub proof fn lemma_push_back<Id>(
    nodes: Map<Id, IslandNode<Id>>,
    ends: Map<IslandId, ListEnds<Id>>,
    lists: Map<IslandId, Seq<Id>>,
    pending: Set<Id>,
    island: IslandId,
    id: Id,
)
    requires
        holds_lists(nodes, ends, lists, pending),
        lists.contains_key(island),
        pending.contains(id),
        ends[island].count < u32::MAX,
    ensures
        ends[island].tail matches Some(tail) ==> nodes.contains_key(tail) && tail != id,
        holds_lists(
            push_back_nodes(nodes, island, ends[island], id),
            ends.insert(island, push_back_ends(ends[island], id)),
            lists.insert(island, lists[island].push(id)),
            pending.remove(id),
        ),
{
    reveal(is_list);
    reveal(holds_lists);
    let nodes1 = push_back_nodes(nodes, island, ends[island], id);
    let ends1 = ends.insert(island, push_back_ends(ends[island], id));
    let s = lists[island];
    let s1 = s.push(id);
    let lists1 = lists.insert(island, s1);
    lemma_member(nodes, ends, lists, pending);
    assert(is_list(nodes, island, s, ends[island]));
    if s.len() > 0 {
        assert(node_ok(nodes, island, s, s.len() - 1));
        assert(lists[island].contains(s[s.len() - 1]));
    }
    assert(forall|n: Id| nodes1.contains_key(n) <==> nodes.contains_key(n));
    assert forall|k: IslandId| #[trigger] lists1.contains_key(k) implies is_list(
        nodes1,
        k,
        lists1[k],
        ends1[k],
    ) by {
        if k == island {
            assert forall|i: int| 0 <= i < s1.len() implies #[trigger] node_ok(
                nodes1,
                k,
                s1,
                i,
            ) by {
                if i < s.len() {
                    assert(node_ok(nodes, k, s, i));
                    assert(lists[island].contains(s[i]));
                }
            }
            assert forall|i: int, j: int| 0 <= i < s1.len() && 0 <= j < s1.len() && i
                != j implies s1[i] != s1[j] by {
                if i < s.len() {
                    assert(lists[island].contains(s[i]));
                }
                if j < s.len() {
                    assert(lists[island].contains(s[j]));
                }
            }
            if s.len() > 0 {
                assert(s1[0] == s[0]);
            }
        } else {
            assert(lists.contains_key(k));
            assert(is_list(nodes, k, lists[k], ends[k]));
            assert forall|i: int| 0 <= i < lists[k].len() implies #[trigger] node_ok(
                nodes1,
                k,
                lists[k],
                i,
            ) by {
                assert(node_ok(nodes, k, lists[k], i));
                assert(lists[k].contains(lists[k][i]));
            }
        }
    }
    assert forall|n: Id| #[trigger] nodes1.contains_key(n) implies pending.remove(id).contains(n)
        || (lists1.contains_key(nodes1[n].island_id) && lists1[nodes1[n].island_id].contains(
        n,
    )) by {
        if n == id {
            assert(s1[s.len() as int] == id);
        } else if !pending.contains(n) {
            assert(nodes.contains_key(n));
            let k = nodes[n].island_id;
            let i = choose|i: int| 0 <= i < lists[k].len() && lists[k][i] == n;
            if k == island {
                assert(s1[i] == n);
            } else {
                assert(lists1[k][i] == n);
            }
        }
    }
    assert forall|k: IslandId, n: Id|
        lists1.contains_key(k) && pending.remove(id).contains(
            n,
        ) implies !(#[trigger] lists1[k].contains(n)) by {
        if lists1[k].contains(n) {
            let i = choose|i: int| 0 <= i < lists1[k].len() && lists1[k][i] == n;
            if k == island {
                assert(i < s.len());
                assert(s[i] == n);
                assert(lists[island].contains(n));
            } else {
                assert(lists[k].contains(n));
            }
        }
    }
    assert(lists1.dom() =~= ends1.dom());
}

// Removing a member.

/// A sequence without one of its members.
pub open spec fn without<Id>(s: Seq<Id>, id: Id) -> Seq<Id> {
    s.remove(s.index_of(id))
}

/// The ends of a list once the member `id` with the given node was taken out.
pub open spec fn unlink_ends<Id>(
    ends: ListEnds<Id>,
    id: Id,
    node: IslandNode<Id>,
) -> ListEnds<Id> {
    ListEnds {
        head: if ends.head == Some(id) {
            node.next
        } else {
            ends.head
        },
        tail: if ends.tail == Some(id) {
            node.prev
        } else {
            ends.tail
        },
        count: (ends.count - 1) as u32,
    }
}

/// The nodes once `id` was taken out of its list.
pub open spec fn unlink_nodes<Id>(
    nodes: Map<Id, IslandNode<Id>>,
    id: Id,
) -> Map<Id, IslandNode<Id>> {
    let node = nodes[id];
    let rest = nodes.remove(id);
    let fixed = match node.prev {
        Some(prev) => rest.insert(prev, IslandNode { next: node.next, ..rest[prev] }),
        None => rest,
    };
    match node.next {
        Some(next) => fixed.insert(next, IslandNode { prev: node.prev, ..fixed[next] }),
        None => fixed,
    }
}

/// Whether the neighbours of `id` have nodes, so that `id` can be taken out of its list.
pub open spec fn unlinkable<Id>(nodes: Map<Id, IslandNode<Id>>, id: Id) -> bool {
    &&& nodes.contains_key(id)
    &&& nodes[id].prev matches Some(prev) ==> prev != id && nodes.contains_key(prev)
    &&& nodes[id].next matches Some(next) ==> next != id && nodes.contains_key(next)
}

/// Takes the node of a member out of the table, and links its neighbours to each other.
/// Returns the node.
pub fn unlink<Id: NodeId, S: NodeStore<Id>>(store: &mut S, id: Id) -> (node: IslandNode<Id>)
    requires
        unlinkable(old(store).nodes(), id),
    ensures
        node == old(store).nodes()[id],
        final(store).nodes() == unlink_nodes(old(store).nodes(), id),
{
    let node = store.node(id).unwrap();
    store.take(id);
    if let Some(prev) = node.prev {
        let prev_node = store.node(prev).unwrap();
        store.put(prev, IslandNode { next: node.next, ..prev_node });
    }
    if let Some(next) = node.next {
        let next_node = store.node(next).unwrap();
        store.put(next, IslandNode { prev: node.prev, ..next_node });
    }
    node
}

/// The ends of a list once a member was taken out of it.
pub fn unlinked_ends<Id: NodeId>(
    ends: ListEnds<Id>,
    id: Id,
    node: IslandNode<Id>,
) -> (unlinked: ListEnds<Id>)
    requires
        ends.count > 0,
    ensures
        unlinked == unlink_ends(ends, id, node),
{
    ListEnds {
        head: if is_id(ends.head, id) {
            node.next
        } else {
            ends.head
        },
        tail: if is_id(ends.tail, id) {
            node.prev
        } else {
            ends.tail
        },
        count: ends.count - 1,
    }
}

pub proof fn lemma_unlink<Id>(
    nodes: Map<Id, IslandNode<Id>>,
    ends: Map<IslandId, ListEnds<Id>>,
    lists: Map<IslandId, Seq<Id>>,
    id: Id,
)
    requires
        holds_lists(nodes, ends, lists, Set::empty()),
        nodes.contains_key(id),
    ensures
        unlinkable(nodes, id),
        lists.contains_key(nodes[id].island_id),
        lists[nodes[id].island_id].contains(id),
        ends[nodes[id].island_id].count > 0,
        ({
            let k = nodes[id].island_id;
            holds_lists(
                unlink_nodes(nodes, id),
                ends.insert(k, unlink_ends(ends[k], id, nodes[id])),
                lists.insert(k, without(lists[k], id)),
                Set::empty(),
            )
        }),
{
    reveal(is_list);
    reveal(holds_lists);
    let island = nodes[id].island_id;
    let s = lists[island];
    let at = s.index_of(id);
    assert(is_list(nodes, island, s, ends[island]));
    assert(0 <= at < s.len() && s[at] == id);
    assert(node_ok(nodes, island, s, at));
    if at > 0 {
        assert(node_ok(nodes, island, s, at - 1));
    }
    if at + 1 < s.len() {
        assert(node_ok(nodes, island, s, at + 1));
    }
    let nodes1 = unlink_nodes(nodes, id);
    let ends1 = ends.insert(island, unlink_ends(ends[island], id, nodes[id]));
    let s1 = s.remove(at);
    let lists1 = lists.insert(island, s1);
    lemma_member(nodes, ends, lists, Set::empty());
    assert(forall|n: Id| nodes1.contains_key(n) <==> nodes.contains_key(n) && n != id);
    assert forall|k: IslandId| #[trigger] lists1.contains_key(k) implies is_list(
        nodes1,
        k,
        lists1[k],
        ends1[k],
    ) by {
        if k == island {
            assert forall|i: int| 0 <= i < s1.len() implies #[trigger] node_ok(
                nodes1,
                k,
                s1,
                i,
            ) by {
                let o = if i < at {
                    i
                } else {
                    i + 1
                };
                assert(s1[i] == s[o]);
                assert(node_ok(nodes, k, s, o));
                if i > 0 {
                    assert(s1[i - 1] == s[if i - 1 < at {
                        i - 1
                    } else {
                        i
                    }]);
                }
                if i + 1 < s1.len() {
                    assert(s1[i + 1] == s[if i + 1 < at {
                        i + 1
                    } else {
                        i + 2
                    }]);
                }
            }
            assert(s1.no_duplicates());
            if s1.len() > 0 {
                assert(s1[0] == s[if at == 0 {
                    1int
                } else {
                    0int
                }]);
                assert(s1[s1.len() - 1] == s[if at == s.len() - 1 {
                    s.len() - 2
                } else {
                    s.len() - 1
                }]);
            }
        } else {
            assert(lists.contains_key(k));
            assert(is_list(nodes, k, lists[k], ends[k]));
            assert forall|i: int| 0 <= i < lists[k].len() implies #[trigger] node_ok(
                nodes1,
                k,
                lists[k],
                i,
            ) by {
                assert(node_ok(nodes, k, lists[k], i));
                assert(lists[k].contains(lists[k][i]));
            }
        }
    }
    assert forall|n: Id| #[trigger] nodes1.contains_key(n) implies lists1.contains_key(
        nodes1[n].island_id,
    ) && lists1[nodes1[n].island_id].contains(n) by {
        assert(nodes.contains_key(n));
        let k = nodes[n].island_id;
        let i = choose|i: int| 0 <= i < lists[k].len() && lists[k][i] == n;
        if k == island {
            if i < at {
                assert(s1[i] == n);
            } else {
                assert(s1[i - 1] == n);
            }
        } else {
            assert(lists1[k][i] == n);
        }
    }
    assert(lists1.dom() =~= ends1.dom());
}

// Moving all members of one list behind another.

/// The nodes once the given members were moved to another island, with their links kept.
pub open spec fn relabel_nodes<Id>(
    nodes: Map<Id, IslandNode<Id>>,
    members: Seq<Id>,
    to: IslandId,
) -> Map<Id, IslandNode<Id>> {
    Map::new(
        |n: Id| nodes.contains_key(n),
        |n: Id|
            if members.contains(n) {
                IslandNode { island_id: to, ..nodes[n] }
            } else {
                nodes[n]
            },
    )
}

/// Moves the members of the list of an island to another island, with their links kept.
pub fn relabel<Id: NodeId, S: NodeStore<Id>>(
    store: &mut S,
    from: IslandId,
    ends: ListEnds<Id>,
    to: IslandId,
)
    requires
        exists|s: Seq<Id>| is_list(old(store).nodes(), from, s, ends),
    ensures
        final(store).nodes() == relabel_nodes(
            old(store).nodes(),
            list_of(old(store).nodes(), from, ends),
            to,
        ),
{
    reveal(is_list);
    let ghost nodes = store.nodes();
    let ghost s = list_of(nodes, from, ends);
    let ghost mut i: int = 0;
    let mut next = ends.head;
    assert(store.nodes() =~= relabel_nodes(nodes, s.take(0), to));
    while next.is_some()
        invariant
            is_list(nodes, from, s, ends),
            0 <= i <= s.len(),
            next == (if i < s.len() {
                Some(s[i])
            } else {
                None
            }),
            store.nodes() == relabel_nodes(nodes, s.take(i), to),
        decreases s.len() - i,
    {
        proof {
            reveal(is_list);
            assert(node_ok(nodes, from, s, i));
            assert(!s.take(i).contains(s[i]));
        }
        let id = next.unwrap();
        let node = store.node(id).unwrap();
        store.put(id, IslandNode { island_id: to, ..node });
        next = node.next;
        proof {
            assert(s.take(i + 1) =~= s.take(i).push(s[i]));
            assert forall|n: Id| s.take(i + 1).contains(n) <==> s.take(i).contains(n) || n
                == s[i] by {
                if s.take(i).contains(n) {
                    let j = choose|j: int| 0 <= j < i && s.take(i)[j] == n;
                    assert(s.take(i + 1)[j] == n);
                }
                assert(s.take(i + 1)[i] == s[i]);
            }
            assert(store.nodes() =~= relabel_nodes(nodes, s.take(i + 1), to));
            i = i + 1;
        }
    }
    assert(s.take(i) =~= s);
}

/// The ends of two lists, the second put behind the first.
pub open spec fn join_ends<Id>(first: ListEnds<Id>, second: ListEnds<Id>) -> ListEnds<Id> {
    if first.head is None {
        second
    } else if second.head is Some {
        ListEnds {
            head: first.head,
            tail: second.tail,
            count: (first.count + second.count) as u32,
        }
    } else {
        first
    }
}

/// The nodes once the second list was linked to the end of the first.
pub open spec fn join_nodes<Id>(
    nodes: Map<Id, IslandNode<Id>>,
    first: ListEnds<Id>,
    second: ListEnds<Id>,
) -> Map<Id, IslandNode<Id>> {
    match (first.tail, second.head) {
        (Some(tail), Some(head)) => {
            let linked = nodes.insert(tail, IslandNode { next: second.head, ..nodes[tail] });
            linked.insert(head, IslandNode { prev: first.tail, ..linked[head] })
        },
        _ => nodes,
    }
}

/// Links the second list to the end of the first.
pub fn join<Id: NodeId, S: NodeStore<Id>>(
    store: &mut S,
    first: ListEnds<Id>,
    second: ListEnds<Id>,
) -> (joined: ListEnds<Id>)
    requires
        first.head is None <==> first.tail is None,
        first.tail matches Some(tail) ==> old(store).nodes().contains_key(tail),
        second.head matches Some(head) ==> old(store).nodes().contains_key(head),
        first.count + second.count <= u32::MAX,
    ensures
        joined == join_ends(first, second),
        final(store).nodes() == join_nodes(old(store).nodes(), first, second),
{
    if first.head.is_none() {
        return second;
    }
    if let (Some(tail), Some(head)) = (first.tail, second.head) {
        let tail_node = store.node(tail).unwrap();
        store.put(tail, IslandNode { next: second.head, ..tail_node });
        let head_node = store.node(head).unwrap();
        store.put(head, IslandNode { prev: first.tail, ..head_node });
        ListEnds { head: first.head, tail: second.tail, count: first.count + second.count }
    } else {
        first
    }
}

pub proof fn lemma_merge<Id>(
    nodes: Map<Id, IslandNode<Id>>,
    ends: Map<IslandId, ListEnds<Id>>,
    lists: Map<IslandId, Seq<Id>>,
    big: IslandId,
    small: IslandId,
)
    requires
        holds_lists(nodes, ends, lists, Set::empty()),
        lists.contains_key(big),
        lists.contains_key(small),
        big != small,
        ends[big].count + ends[small].count <= u32::MAX,
    ensures
        ({
            let moved = relabel_nodes(nodes, lists[small], big);
            &&& lists[small] == list_of(nodes, small, ends[small])
            &&& is_list(nodes, small, lists[small], ends[small])
            &&& ends[big].head is None <==> ends[big].tail is None
            &&& ends[big].tail matches Some(tail) ==> moved.contains_key(tail)
            &&& ends[small].head matches Some(head) ==> moved.contains_key(head)
            &&& holds_lists(
                join_nodes(moved, ends[big], ends[small]),
                ends.remove(small).insert(big, join_ends(ends[big], ends[small])),
                lists.remove(small).insert(big, lists[big] + lists[small]),
                Set::empty(),
            )
        }),
{
    reveal(is_list);
    reveal(holds_lists);
    let moved = relabel_nodes(nodes, lists[small], big);
    let nodes1 = join_nodes(moved, ends[big], ends[small]);
    let ends1 = ends.remove(small).insert(big, join_ends(ends[big], ends[small]));
    let a = lists[big];
    let b = lists[small];
    let s1 = a + b;
    let lists1 = lists.remove(small).insert(big, s1);
    assert(is_list(nodes, big, a, ends[big]));
    assert(is_list(nodes, small, b, ends[small]));
    lemma_list_unique(nodes, small, b, list_of(nodes, small, ends[small]), ends[small]);
    lemma_member(nodes, ends, lists, Set::empty());
    if a.len() > 0 {
        assert(node_ok(nodes, big, a, a.len() - 1));
        assert(lists[big].contains(a[a.len() - 1]));
    }
    if b.len() > 0 {
        assert(node_ok(nodes, small, b, 0));
        assert(lists[small].contains(b[0]));
    }
    assert(forall|n: Id| nodes1.contains_key(n) <==> nodes.contains_key(n));
    assert forall|k: IslandId| #[trigger] lists1.contains_key(k) implies is_list(
        nodes1,
        k,
        lists1[k],
        ends1[k],
    ) by {
        if k == big {
            assert forall|i: int| 0 <= i < s1.len() implies #[trigger] node_ok(
                nodes1,
                k,
                s1,
                i,
            ) by {
                if i < a.len() {
                    assert(s1[i] == a[i]);
                    assert(node_ok(nodes, big, a, i));
                    assert(lists[big].contains(a[i]));
                    if i + 1 < a.len() {
                        assert(a[i] != a[a.len() - 1]);
                    } else if b.len() > 0 {
                        assert(s1[i + 1] == b[0]);
                    }
                } else {
                    let j = i - a.len();
                    assert(s1[i] == b[j]);
                    assert(node_ok(nodes, small, b, j));
                    assert(lists[small].contains(b[j]));
                    if j > 0 {
                        assert(b[j] != b[0]);
                        assert(s1[i - 1] == b[j - 1]);
                    }
                }
            }
            assert forall|i: int, j: int| 0 <= i < s1.len() && 0 <= j < s1.len() && i
                != j implies s1[i] != s1[j] by {
                if i < a.len() {
                    assert(lists[big].contains(a[i]));
                } else {
                    assert(lists[small].contains(b[i - a.len()]));
                }
                if j < a.len() {
                    assert(lists[big].contains(a[j]));
                } else {
                    assert(lists[small].contains(b[j - a.len()]));
                }
            }
            if a.len() > 0 {
                assert(s1[0] == a[0]);
            } else {
                assert(s1 =~= b);
            }
            if b.len() > 0 {
                assert(s1[s1.len() - 1] == b[b.len() - 1]);
            } else {
                assert(s1 =~= a);
            }
        } else {
            assert(lists.contains_key(k));
            assert(is_list(nodes, k, lists[k], ends[k]));
            assert forall|i: int| 0 <= i < lists[k].len() implies #[trigger] node_ok(
                nodes1,
                k,
                lists[k],
                i,
            ) by {
                assert(node_ok(nodes, k, lists[k], i));
                assert(lists[k].contains(lists[k][i]));
            }
        }
    }
    assert forall|n: Id| #[trigger] nodes1.contains_key(n) implies lists1.contains_key(
        nodes1[n].island_id,
    ) && lists1[nodes1[n].island_id].contains(n) by {
        assert(nodes.contains_key(n));
        let k = nodes[n].island_id;
        let i = choose|i: int| 0 <= i < lists[k].len() && lists[k][i] == n;
        if k == big {
            assert(s1[i] == n);
        } else if k == small {
            assert(s1[a.len() + i] == n);
        } else {
            assert(lists1[k][i] == n);
        }
    }
    assert(lists1.dom() =~= ends1.dom());
}

// Clearing the marks of visits.

/// The nodes once the marks of the given members were cleared.
pub open spec fn clear_nodes<Id>(
    nodes: Map<Id, IslandNode<Id>>,
    members: Seq<Id>,
) -> Map<Id, IslandNode<Id>> {
    Map::new(
        |n: Id| nodes.contains_key(n),
        |n: Id|
            if members.contains(n) {
                IslandNode { is_visited: false, ..nodes[n] }
            } else {
                nodes[n]
            },
    )
}

/// Clears the marks of the members of the list of an island, and returns the members in order.
pub fn clear_visited<Id: NodeId, S: NodeStore<Id>>(
    store: &mut S,
    island: IslandId,
    ends: ListEnds<Id>,
) -> (members: Vec<Id>)
    requires
        exists|s: Seq<Id>| is_list(old(store).nodes(), island, s, ends),
    ensures
        members@ == list_of(old(store).nodes(), island, ends),
        final(store).nodes() == clear_nodes(old(store).nodes(), members@),
{
    reveal(is_list);
    let ghost nodes = store.nodes();
    let ghost s = list_of(nodes, island, ends);
    let ghost mut i: int = 0;
    let mut members: Vec<Id> = Vec::new();
    let mut next = ends.head;
    assert(store.nodes() =~= clear_nodes(nodes, s.take(0)));
    assert(members@ =~= s.take(0));
    while next.is_some()
        invariant
            is_list(nodes, island, s, ends),
            0 <= i <= s.len(),
            next == (if i < s.len() {
                Some(s[i])
            } else {
                None
            }),
            members@ == s.take(i),
            store.nodes() == clear_nodes(nodes, s.take(i)),
        decreases s.len() - i,
    {
        proof {
            reveal(is_list);
            assert(node_ok(nodes, island, s, i));
            assert(!s.take(i).contains(s[i]));
        }
        let id = next.unwrap();
        members.push(id);
        let node = store.node(id).unwrap();
        store.put(id, IslandNode { is_visited: false, ..node });
        next = node.next;
        proof {
            assert(s.take(i + 1) =~= s.take(i).push(s[i]));
            assert forall|n: Id| s.take(i + 1).contains(n) <==> s.take(i).contains(n) || n
                == s[i] by {
                if s.take(i).contains(n) {
                    let j = choose|j: int| 0 <= j < i && s.take(i)[j] == n;
                    assert(s.take(i + 1)[j] == n);
                }
                assert(s.take(i + 1)[i] == s[i]);
            }
            assert(store.nodes() =~= clear_nodes(nodes, s.take(i + 1)));
            i = i + 1;
        }
    }
    assert(s.take(i) =~= s);
    members
}

/// The members of the list of an island, in order.
pub fn members<Id: NodeId, S: NodeStore<Id>>(
    store: &S,
    island: IslandId,
    ends: ListEnds<Id>,
) -> (members: Vec<Id>)
    requires
        exists|s: Seq<Id>| is_list(store.nodes(), island, s, ends),
    ensures
        members@ == list_of(store.nodes(), island, ends),
{
    reveal(is_list);
    let ghost nodes = store.nodes();
    let ghost s = list_of(nodes, island, ends);
    let mut members: Vec<Id> = Vec::new();
    let mut next = ends.head;
    while next.is_some()
        invariant
            nodes == store.nodes(),
            is_list(nodes, island, s, ends),
            members@.len() <= s.len(),
            members@ == s.take(members@.len() as int),
            next == (if members@.len() < s.len() {
                Some(s[members@.len() as int])
            } else {
                None
            }),
        decreases s.len() - members@.len(),
    {
        let ghost i = members@.len() as int;
        proof {
            reveal(is_list);
            assert(node_ok(nodes, island, s, i));
        }
        let id = next.unwrap();
        members.push(id);
        next = store.node(id).unwrap().next;
        assert(s.take(i + 1) =~= s.take(i).push(s[i]));
    }
    assert(s.take(s.len() as int) =~= s);
    members
}

} // verus!
