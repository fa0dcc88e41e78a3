//! Sleeping and waking of islands.

use vstd::prelude::*;

use crate::bit_vec::{blocks_for, BitVec};
use crate::entity::Entity;
use crate::float_bits::{exceeds, is_above, order_key, positive_is_above_zero};
use crate::islands::island::PhysicsIsland;
use crate::islands::manager::PhysicsIslands;
use crate::islands::node::{BodyIslands, IslandId, NodeStore};
use crate::islands::sleep_laws::every_change_keeps_the_island_awake;
use crate::ticks::{changed_after, is_changed_after_tick, tick_is_newer, ComponentChange};

verus! {

/// A plugin for sleeping and waking of islands.
#[derive(Clone, Copy, Debug)]
pub struct IslandSleepingPlugin;

/// Which islands are kept awake. The others may sleep.
#[derive(Clone, Debug)]
pub struct AwakeIslandBitVec(pub BitVec);

/// Puts a body and its island to sleep.
#[derive(Clone, Copy, Debug, PartialEq, Eq)]
pub struct SleepBody(pub Entity);

/// Puts islands to sleep, unless they are sleeping already.
#[derive(Clone, Debug)]
pub struct SleepIslands(pub Vec<IslandId>);

/// Wakes up a body and its island.
#[derive(Clone, Copy, Debug, PartialEq, Eq)]
pub struct WakeBody(pub Entity);

/// Wakes up islands, if they are sleeping.
#[derive(Clone, Debug)]
pub struct WakeIslands(pub Vec<IslandId>);

/// Why a body could not be put to sleep or woken up.
#[derive(Clone, Copy, Debug, PartialEq, Eq, Structural)]
pub enum BodyCommandError {
    /// The entity does not exist.
    NoEntity,
    /// The entity is not a body, or does not belong to an island.
    NoIsland,
}

// Reacting to changes.

/// What to do when a body is marked as sleeping: put its island to sleep, unless the body has none,
/// or the island is sleeping already.
pub fn sleep_on_add_sleeping(
    body: Entity,
    islands: Option<&PhysicsIslands>,
    body_islands: &BodyIslands,
) -> (command: Option<SleepBody>)
    ensures
        command == {
            let nodes = body_islands.nodes();
            if !nodes.contains_key(body) {
                None
            } else if islands matches Some(i) && i.map().contains_key(nodes[body].island_id)
                && i.map()[nodes[body].island_id].is_sleeping {
                None
            } else {
                Some(SleepBody(body))
            }
        },
{
    let node = match body_islands.node(body) {
        Some(node) => node,
        None => {
            return None;
        },
    };
    if let Some(islands) = islands {
        if let Some(island) = islands.get(node.island_id) {
            if island.is_sleeping {
                return None;
            }
        }
    }
    Some(SleepBody(body))
}

/// What to do when a body is no longer marked as sleeping: wake up its island, unless the body has
/// none, or the island is awake already.
pub fn wake_on_remove_sleeping(
    body: Entity,
    islands: Option<&PhysicsIslands>,
    body_islands: &BodyIslands,
) -> (command: Option<WakeBody>)
    ensures
        command == {
            let nodes = body_islands.nodes();
            if !nodes.contains_key(body) {
                None
            } else if islands matches Some(i) && i.map().contains_key(nodes[body].island_id)
                && !i.map()[nodes[body].island_id].is_sleeping {
                None
            } else {
                Some(WakeBody(body))
            }
        },
{
    let node = match body_islands.node(body) {
        Some(node) => node,
        None => {
            return None;
        },
    };
    if let Some(islands) = islands {
        if let Some(island) = islands.get(node.island_id) {
            if !island.is_sleeping {
                return None;
            }
        }
    }
    Some(WakeBody(body))
}

/// What to do when the kind of a body is replaced: wake up its island.
pub fn wake_on_replace_rigid_body(body: Entity, body_islands: &BodyIslands) -> (command: Option<
    WakeIslands,
>)
    ensures
        command is Some <==> body_islands.nodes().contains_key(body),
        command matches Some(c) ==> c.0@ == seq![body_islands.nodes()[body].island_id],
{
    match body_islands.node(body) {
        Some(node) => {
            let mut ids: Vec<IslandId> = Vec::new();
            ids.push(node.island_id);
            assert(ids@ =~= seq![node.island_id]);
            Some(WakeIslands(ids))
        },
        None => None,
    }
}

/// What to do when a body joins an island.
#[derive(Debug)]
pub struct EnableOutcome {
    /// Whether the body is to lose its mark as sleeping.
    pub remove_sleeping: bool,
    /// The sleep timer of the body from now on.
    pub sleep_timer: u32,
    /// The islands to wake up, if any.
    pub wake: Option<WakeIslands>,
}

/// What to do when a body joins an island: it is no longer marked as sleeping. If its sleep timer
/// was running, the timer is reset and the island woken up.
pub fn wake_on_enable_rigid_body(
    island_id: IslandId,
    sleep_timer: u32,
    is_sleeping: bool,
) -> (outcome: EnableOutcome)
    ensures
        outcome.remove_sleeping == is_sleeping,
        outcome.sleep_timer == if is_above(sleep_timer, 0) {
            0
        } else {
            sleep_timer
        },
        outcome.wake is Some <==> is_above(sleep_timer, 0),
        outcome.wake matches Some(c) ==> c.0@ == seq![island_id],
{
    if exceeds(sleep_timer, 0) {
        let mut ids: Vec<IslandId> = Vec::new();
        ids.push(island_id);
        assert(ids@ =~= seq![island_id]);
        EnableOutcome {
            remove_sleeping: is_sleeping,
            sleep_timer: 0,
            wake: Some(WakeIslands(ids)),
        }
    } else {
        EnableOutcome { remove_sleeping: is_sleeping, sleep_timer, wake: None }
    }
}

// Deciding which islands sleep.

/// A body that takes part in the decision which islands sleep.
#[derive(Clone, Copy, Debug, PartialEq, Eq)]
pub struct SleepCandidate {
    pub island_id: IslandId,
    /// How long the body has been still.
    pub sleep_timer: u32,
    /// Whether the body has been still for long enough.
    pub wants_sleep: bool,
}

impl AwakeIslandBitVec {
    /// No islands are kept awake.
    pub fn new() -> (bits: Self)
        ensures
            bits.0@ == Set::<usize>::empty(),
    {
        AwakeIslandBitVec(BitVec::new(0))
    }

    /// Keeps an island awake.
    pub fn keep_awake(&mut self, island_id: IslandId)
        ensures
            final(self).0@ == old(self).0@.insert(island_id.0 as usize),
    {
        self.0.set_and_grow(island_id.0 as usize);
    }
}

/// Keeps the islands of bodies awake that may not sleep, and resets the sleep timers of the bodies.
pub fn wake_islands_with_sleeping_disabled(
    awake: &mut AwakeIslandBitVec,
    bodies: &mut Vec<SleepCandidate>,
)
    ensures
        final(awake).0@ == old(awake).0@.union(
            Set::new(|i: usize| has_island(old(bodies)@, i, old(bodies)@.len() as int)),
        ),
        final(bodies)@.len() == old(bodies)@.len(),
        forall|n: int|
            0 <= n < old(bodies)@.len() ==> #[trigger] final(bodies)@[n] == (SleepCandidate {
                sleep_timer: 0,
                ..old(bodies)@[n]
            }),
        forall|n: int|
            0 <= n < old(bodies)@.len() ==> final(awake).0@.contains(
                (#[trigger] old(bodies)@[n]).island_id.0 as usize,
            ),
{
    let ghost bodies0 = bodies@;
    let ghost awake0 = awake.0@;
    let mut i: usize = 0;
    assert(awake.0@ =~= awake0.union(Set::new(|i: usize| has_island(bodies0, i, 0))));
    while i < bodies.len()
        invariant
            i <= bodies@.len(),
            bodies@.len() == bodies0.len(),
            forall|n: int|
                0 <= n < i ==> #[trigger] bodies@[n] == (SleepCandidate {
                    sleep_timer: 0,
                    ..bodies0[n]
                }),
            forall|n: int| i <= n < bodies@.len() ==> #[trigger] bodies@[n] == bodies0[n],
            awake.0@ == awake0.union(Set::new(|b: usize| has_island(bodies0, b, i as int))),
        decreases bodies@.len() - i,
    {
        let body = bodies[i];
        awake.keep_awake(body.island_id);
        bodies.set(i, SleepCandidate { sleep_timer: 0, ..body });
        proof {
            assert forall|b: usize| has_island(bodies0, b, i + 1) <==> has_island(
                bodies0,
                b,
                i as int,
            ) || b == body.island_id.0 by {
                if b == body.island_id.0 {
                    assert(bodies0[i as int].island_id.0 == b);
                }
            }
            assert(awake.0@ =~= awake0.union(
                Set::new(|b: usize| has_island(bodies0, b, i + 1)),
            ));
        }
        i = i + 1;
    }
    assert forall|n: int| 0 <= n < bodies0.len() implies awake.0@.contains(
        (#[trigger] bodies0[n]).island_id.0 as usize,
    ) by {
        assert(has_island(bodies0, bodies0[n].island_id.0 as usize, bodies0.len() as int));
    }
}

/// Whether one of the first `len` bodies is part of the island with the given number.
pub open spec fn has_island(bodies: Seq<SleepCandidate>, island: usize, len: int) -> bool {
    exists|n: int| 0 <= n < len && (#[trigger] bodies[n]).island_id.0 == island
}

/// Whether one of the first `len` bodies keeps the island with the given number awake.
pub open spec fn has_restless(bodies: Seq<SleepCandidate>, island: usize, len: int) -> bool {
    exists|n: int|
        0 <= n < len && (#[trigger] bodies[n]).island_id.0 == island && !bodies[n].wants_sleep
}

/// Whether a body wants to sleep, but its island needs splitting first.
pub open spec fn needs_split_to_sleep(
    map: Map<IslandId, PhysicsIsland>,
    body: SleepCandidate,
) -> bool {
    &&& body.wants_sleep
    &&& map.contains_key(body.island_id)
    &&& map[body.island_id].constraints_removed > 0
}

/// Whether a body wants to sleep, but its island needs splitting first, and its sleep timer is
/// running.
pub open spec fn wants_split(
    map: Map<IslandId, PhysicsIsland>,
    body: SleepCandidate,
) -> bool {
    &&& needs_split_to_sleep(map, body)
    &&& is_above(body.sleep_timer, 0)
}

/// Whether body `i` is the first of those with the largest sleep timer of the bodies that want
/// their islands split, among the first `len`.
pub open spec fn is_sleepiest(
    map: Map<IslandId, PhysicsIsland>,
    bodies: Seq<SleepCandidate>,
    i: int,
    len: int,
) -> bool {
    &&& 0 <= i < len
    &&& wants_split(map, bodies[i])
    &&& forall|j: int|
        0 <= j < len && wants_split(map, #[trigger] bodies[j]) ==> order_key(bodies[j].sleep_timer)
            <= order_key(bodies[i].sleep_timer)
    &&& forall|j: int|
        0 <= j < i && wants_split(map, #[trigger] bodies[j]) ==> order_key(bodies[j].sleep_timer)
            < order_key(bodies[i].sleep_timer)
}

/// The outcome of looking for the island to split, among the first `len` bodies.
pub open spec fn candidate_chosen(
    map: Map<IslandId, PhysicsIsland>,
    bodies: Seq<SleepCandidate>,
    len: int,
    before: Option<IslandId>,
    candidate: Option<IslandId>,
    timer: u32,
) -> bool {
    ||| {
        &&& forall|j: int| 0 <= j < len ==> !wants_split(map, #[trigger] bodies[j])
        &&& candidate == before
        &&& timer == 0
    }
    ||| exists|i: int| #[trigger]
        is_sleepiest(map, bodies, i, len) && candidate == Some(bodies[i].island_id) && timer
            == bodies[i].sleep_timer
}

/// Keeps the islands of bodies awake that have not been still for long enough, and chooses the
/// sleepiest of the other islands that need splitting as the one to split.
pub fn update_sleeping_states(
    awake: &mut AwakeIslandBitVec,
    islands: &mut PhysicsIslands,
    bodies: &Vec<SleepCandidate>,
)
    ensures
        final(awake).0@ == old(awake).0@.union(
            Set::new(|i: usize| has_restless(bodies@, i, bodies@.len() as int)),
        ),
        candidate_chosen(
            old(islands).map(),
            bodies@,
            bodies@.len() as int,
            old(islands).candidate(),
            final(islands).candidate(),
            final(islands).candidate_timer(),
        ),
        final(islands).same_but_candidate(old(islands)),
        old(islands).candidate_exists() ==> final(islands).candidate_exists(),
        forall|n: int|
            0 <= n < bodies@.len() && !(#[trigger] bodies@[n]).wants_sleep
                ==> final(awake).0@.contains(bodies@[n].island_id.0 as usize),
        (forall|n: int| 0 <= n < bodies@.len() ==> (#[trigger] bodies@[n]).wants_sleep)
            ==> final(awake).0@ == old(awake).0@,
{
    let ghost awake0 = awake.0@;
    let ghost before = islands.candidate();
    let candidate = islands.split_candidate();
    islands.set_split_candidate(candidate, 0);
    let mut i: usize = 0;
    assert(awake.0@ =~= awake0.union(Set::new(|b: usize| has_restless(bodies@, b, 0))));
    while i < bodies.len()
        invariant
            i <= bodies@.len(),
            before == old(islands).candidate(),
            awake.0@ == awake0.union(Set::new(|b: usize| has_restless(bodies@, b, i as int))),
            islands.same_but_candidate(old(islands)),
            candidate_chosen(
                old(islands).map(),
                bodies@,
                i as int,
                before,
                islands.candidate(),
                islands.candidate_timer(),
            ),
        decreases bodies@.len() - i,
    {
        let body = bodies[i];
        let ghost map = old(islands).map();
        let ghost candidate0 = islands.candidate();
        let ghost timer0 = islands.candidate_timer();
        if !body.wants_sleep {
            // Keep the island awake.
            awake.keep_awake(body.island_id);
        } else if let Some(island) = islands.get(body.island_id) {
            if island.constraints_removed > 0 {
                // The body wants to sleep, but its island needs splitting first.
                if exceeds(body.sleep_timer, islands.split_candidate_sleep_timer()) {
                    islands.set_split_candidate(Some(body.island_id), body.sleep_timer);
                }
            }
        }
        proof {
            assert forall|b: usize| has_restless(bodies@, b, i + 1) <==> has_restless(
                bodies@,
                b,
                i as int,
            ) || (b == body.island_id.0 && !body.wants_sleep) by {
                if b == body.island_id.0 && !body.wants_sleep {
                    assert(bodies@[i as int].island_id.0 == b);
                }
            }
            assert(awake.0@ =~= awake0.union(
                Set::new(|b: usize| has_restless(bodies@, b, i + 1)),
            ));
            lemma_candidate_step(
                map,
                bodies@,
                i as int,
                before,
                candidate0,
                timer0,
                islands.candidate(),
                islands.candidate_timer(),
            );
        }
        i = i + 1;
    }
    proof {
        assert forall|n: int|
            0 <= n < bodies@.len() && !(#[trigger] bodies@[n]).wants_sleep implies awake.0@.contains(
            bodies@[n].island_id.0 as usize,
        ) by {
            assert(has_restless(bodies@, bodies@[n].island_id.0 as usize, bodies@.len() as int));
        }
        if forall|n: int| 0 <= n < bodies@.len() ==> (#[trigger] bodies@[n]).wants_sleep {
            assert(awake.0@ =~= awake0);
        }
    }
}

proof fn lemma_candidate_step(
    map: Map<IslandId, PhysicsIsland>,
    bodies: Seq<SleepCandidate>,
    i: int,
    before: Option<IslandId>,
    candidate0: Option<IslandId>,
    timer0: u32,
    candidate: Option<IslandId>,
    timer: u32,
)
    requires
        0 <= i < bodies.len(),
        candidate_chosen(map, bodies, i, before, candidate0, timer0),
        needs_split_to_sleep(map, bodies[i]) && is_above(bodies[i].sleep_timer, timer0)
            ==> candidate == Some(bodies[i].island_id) && timer == bodies[i].sleep_timer,
        !(needs_split_to_sleep(map, bodies[i]) && is_above(bodies[i].sleep_timer, timer0))
            ==> candidate == candidate0 && timer == timer0,
    ensures
        candidate_chosen(map, bodies, i + 1, before, candidate, timer),
{
    positive_is_above_zero(bodies[i].sleep_timer);
    if exists|n: int| #[trigger]
        is_sleepiest(map, bodies, n, i) && candidate0 == Some(bodies[n].island_id) && timer0
            == bodies[n].sleep_timer {
        let n = choose|n: int| #[trigger]
            is_sleepiest(map, bodies, n, i) && candidate0 == Some(bodies[n].island_id) && timer0
                == bodies[n].sleep_timer;
        positive_is_above_zero(bodies[n].sleep_timer);
    }
    if needs_split_to_sleep(map, bodies[i]) && is_above(bodies[i].sleep_timer, timer0) {
        assert(is_sleepiest(map, bodies, i, i + 1)) by {
            if exists|n: int| #[trigger] is_sleepiest(map, bodies, n, i) {
                let n = choose|n: int| #[trigger]
                    is_sleepiest(map, bodies, n, i) && timer0 == bodies[n].sleep_timer;
            }
        }
    } else if exists|n: int| #[trigger]
        is_sleepiest(map, bodies, n, i) && candidate0 == Some(bodies[n].island_id) && timer0
            == bodies[n].sleep_timer {
        let n = choose|n: int| #[trigger]
            is_sleepiest(map, bodies, n, i) && candidate0 == Some(bodies[n].island_id) && timer0
                == bodies[n].sleep_timer;
        assert(is_sleepiest(map, bodies, n, i + 1));
    }
}

/// Whether an island may go to sleep: nothing keeps it awake, and it has no pending split.
pub open spec fn falls_asleep(island: PhysicsIsland, awake: Set<usize>) -> bool {
    !awake.contains(island.id.0 as usize) && !island.is_sleeping && island.constraints_removed == 0
}

/// Whether an island is to be woken up: it sleeps, but something keeps it awake.
pub open spec fn is_roused(island: PhysicsIsland, awake: Set<usize>) -> bool {
    awake.contains(island.id.0 as usize) && island.is_sleeping
}

/// Whether the sequence holds the islands with a property, by ascending identifier.
pub open spec fn lists_islands(
    ids: Seq<IslandId>,
    map: Map<IslandId, PhysicsIsland>,
    property: spec_fn(PhysicsIsland) -> bool,
) -> bool {
    &&& forall|i: int|
        0 <= i < ids.len() ==> map.contains_key(#[trigger] ids[i]) && property(map[ids[i]])
    &&& forall|k: IslandId| #[trigger]
        map.contains_key(k) && property(map[k]) ==> ids.contains(k)
    &&& forall|i: int, j: int|
        0 <= i < j < ids.len() ==> (#[trigger] ids[i]).0 < (#[trigger] ids[j]).0
}

/// Whether an island is one of the first `len` islands, and has a property.
spec fn is_of_first(
    all: Seq<PhysicsIsland>,
    len: int,
    id: IslandId,
    property: spec_fn(PhysicsIsland) -> bool,
) -> bool {
    exists|m: int| 0 <= m < len && (#[trigger] all[m]).id == id && property(all[m])
}

proof fn lemma_of_first_grows(
    all: Seq<PhysicsIsland>,
    len: int,
    id: IslandId,
    property: spec_fn(PhysicsIsland) -> bool,
)
    requires
        0 <= len < all.len(),
    ensures
        is_of_first(all, len, id, property) || (all[len].id == id && property(all[len]))
            ==> is_of_first(all, len + 1, id, property),
{
    if is_of_first(all, len, id, property) {
        let m = choose|m: int|
            0 <= m < len && (#[trigger] all[m]).id == id && property(all[m]);
        assert(all[m].id == id);
    } else if all[len].id == id && property(all[len]) {
        assert(all[len].id == id);
    }
}

/// Decides which islands to put to sleep, and which to wake up, and starts over with no island kept
/// awake.
pub fn sleep_islands(awake: &mut AwakeIslandBitVec, islands: &PhysicsIslands) -> (commands: (
    SleepIslands,
    WakeIslands,
))
    requires
        islands.table_wf(),
        islands.ids_wf(),
    ensures
        lists_islands(
            commands.0.0@,
            islands.map(),
            |island: PhysicsIsland| falls_asleep(island, old(awake).0@),
        ),
        lists_islands(
            commands.1.0@,
            islands.map(),
            |island: PhysicsIsland| is_roused(island, old(awake).0@),
        ),
        final(awake).0@ == Set::<usize>::empty(),
        final(awake).0.block_count() == blocks_for(islands.map().dom().len()),
{
    let ghost bits = awake.0@;
    let ghost asleep = |island: PhysicsIsland| falls_asleep(island, bits);
    let ghost roused = |island: PhysicsIsland| is_roused(island, bits);
    let all = islands.iter();
    let mut sleep: Vec<IslandId> = Vec::new();
    let mut wake: Vec<IslandId> = Vec::new();
    let mut i: usize = 0;
    while i < all.len()
        invariant
            i <= all@.len(),
            bits == awake.0@,
            asleep == (|island: PhysicsIsland| falls_asleep(island, bits)),
            roused == (|island: PhysicsIsland| is_roused(island, bits)),
            forall|n: int, m: int|
                0 <= n < m < all@.len() ==> (#[trigger] all@[n]).id.0 < (#[trigger] all@[m]).id.0,
            forall|n: int|
                0 <= n < sleep@.len() ==> is_of_first(all@, i as int, #[trigger] sleep@[n], asleep),
            forall|m: int|
                0 <= m < i && falls_asleep(#[trigger] all@[m], bits) ==> sleep@.contains(all@[m].id),
            forall|n: int, m: int|
                0 <= n < m < sleep@.len() ==> (#[trigger] sleep@[n]).0 < (#[trigger] sleep@[m]).0,
            forall|n: int|
                0 <= n < wake@.len() ==> is_of_first(all@, i as int, #[trigger] wake@[n], roused),
            forall|m: int|
                0 <= m < i && is_roused(#[trigger] all@[m], bits) ==> wake@.contains(all@[m].id),
            forall|n: int, m: int|
                0 <= n < m < wake@.len() ==> (#[trigger] wake@[n]).0 < (#[trigger] wake@[m]).0,
        decreases all@.len() - i,
    {
        let island = all[i];
        let ghost sleep0 = sleep@;
        let ghost wake0 = wake@;
        if awake.0.get(island.id.0 as usize) {
            if island.is_sleeping {
                wake.push(island.id);
                assert(wake@[wake0.len() as int] == island.id);
            }
        } else if !island.is_sleeping && island.constraints_removed == 0 {
            // The island does not have a pending split, so it can go to sleep.
            sleep.push(island.id);
            assert(sleep@[sleep0.len() as int] == island.id);
        }
        proof {
            assert forall|m: int| 0 <= m < i + 1 && falls_asleep(#[trigger] all@[m], bits) implies
                sleep@.contains(all@[m].id) by {
                if m < i {
                    let n = choose|n: int| 0 <= n < sleep0.len() && sleep0[n] == all@[m].id;
                    assert(sleep@[n] == all@[m].id);
                }
            }
            assert forall|m: int| 0 <= m < i + 1 && is_roused(#[trigger] all@[m], bits) implies
                wake@.contains(all@[m].id) by {
                if m < i {
                    let n = choose|n: int| 0 <= n < wake0.len() && wake0[n] == all@[m].id;
                    assert(wake@[n] == all@[m].id);
                }
            }
            assert forall|n: int| 0 <= n < sleep@.len() implies is_of_first(
                all@,
                i + 1,
                #[trigger] sleep@[n],
                asleep,
            ) by {
                lemma_of_first_grows(all@, i as int, sleep@[n], asleep);
                if n < sleep0.len() {
                    assert(sleep@[n] == sleep0[n]);
                }
            }
            assert forall|n: int| 0 <= n < wake@.len() implies is_of_first(
                all@,
                i + 1,
                #[trigger] wake@[n],
                roused,
            ) by {
                lemma_of_first_grows(all@, i as int, wake@[n], roused);
                if n < wake0.len() {
                    assert(wake@[n] == wake0[n]);
                }
            }
        }
        i = i + 1;
    }
    awake.0.set_bit_count_and_clear(islands.len());
    (SleepIslands(sleep), WakeIslands(wake))
}

/// The islands that sleep, to be woken up, if there are any. Called when gravity changes.
pub fn wake_all_islands(islands: &PhysicsIslands) -> (command: Option<WakeIslands>)
    requires
        islands.table_wf(),
        islands.ids_wf(),
    ensures
        command is None <==> (forall|k: IslandId| #[trigger]
            islands.map().contains_key(k) ==> !islands.map()[k].is_sleeping),
        command matches Some(c) ==> lists_islands(
            c.0@,
            islands.map(),
            |island: PhysicsIsland| island.is_sleeping,
        ),
{
    let all = islands.iter();
    let ghost sleeps = |island: PhysicsIsland| island.is_sleeping;
    let mut ids: Vec<IslandId> = Vec::new();
    let mut i: usize = 0;
    while i < all.len()
        invariant
            i <= all@.len(),
            forall|n: int, m: int|
                0 <= n < m < all@.len() ==> (#[trigger] all@[n]).id.0 < (#[trigger] all@[m]).id.0,
            sleeps == (|island: PhysicsIsland| island.is_sleeping),
            forall|n: int|
                0 <= n < ids@.len() ==> is_of_first(all@, i as int, #[trigger] ids@[n], sleeps),
            forall|m: int|
                0 <= m < i && (#[trigger] all@[m]).is_sleeping ==> ids@.contains(all@[m].id),
            forall|n: int, m: int|
                0 <= n < m < ids@.len() ==> (#[trigger] ids@[n]).0 < (#[trigger] ids@[m]).0,
        decreases all@.len() - i,
    {
        let ghost ids0 = ids@;
        if all[i].is_sleeping {
            ids.push(all[i].id);
            assert(ids@[ids0.len() as int] == all@[i as int].id);
        }
        proof {
            assert forall|m: int| 0 <= m < i + 1 && (#[trigger] all@[m]).is_sleeping implies
                ids@.contains(all@[m].id) by {
                if m < i {
                    let n = choose|n: int| 0 <= n < ids0.len() && ids0[n] == all@[m].id;
                    assert(ids@[n] == all@[m].id);
                }
            }
            assert forall|n: int| 0 <= n < ids@.len() implies is_of_first(
                all@,
                i + 1,
                #[trigger] ids@[n],
                sleeps,
            ) by {
                lemma_of_first_grows(all@, i as int, ids@[n], sleeps);
                if n < ids0.len() {
                    assert(ids@[n] == ids0[n]);
                }
            }
        }
        i = i + 1;
    }
    if ids.len() == 0 {
        None
    } else {
        proof {
            let k = ids@[0];
            assert(islands.map().contains_key(k) && islands.map()[k].is_sleeping);
        }
        Some(WakeIslands(ids))
    }
}

/// What of a sleeping body may have been changed by a user.
#[derive(Clone, Copy, Debug, PartialEq, Eq)]
pub struct BodyChange {
    pub island_id: IslandId,
    pub position: ComponentChange,
    pub rotation: ComponentChange,
    pub linear_velocity: ComponentChange,
    pub angular_velocity: ComponentChange,
    pub sleep_timer: ComponentChange,
}

/// Whether anything about a body changed after the given tick.
pub open spec fn body_changed_after(body: BodyChange, tick: u32, this_run: u32) -> bool {
    ||| changed_after(body.position, tick, this_run)
    ||| changed_after(body.rotation, tick, this_run)
    ||| changed_after(body.linear_velocity, tick, this_run)
    ||| changed_after(body.angular_velocity, tick, this_run)
    ||| changed_after(body.sleep_timer, tick, this_run)
}

/// Whether one of the first `len` bodies is part of the island with the given number, and was
/// changed after the given tick.
pub open spec fn has_changed(
    bodies: Seq<BodyChange>,
    island: usize,
    len: int,
    tick: u32,
    this_run: u32,
) -> bool {
    exists|n: int|
        0 <= n < len && (#[trigger] bodies[n]).island_id.0 == island && body_changed_after(
            bodies[n],
            tick,
            this_run,
        )
}

/// Whether one of the first `len` islands has the given number.
pub open spec fn has_number(ids: Seq<IslandId>, island: usize, len: int) -> bool {
    exists|n: int| 0 <= n < len && (#[trigger] ids[n]).0 == island
}

/// Keeps the islands of bodies awake that a user changed after the last physics tick. The changes of
/// `sleeping` may be those of the physics, which do not count. Those of `forced` always count.
pub fn wake_on_changed(
    awake: &mut AwakeIslandBitVec,
    sleeping: &Vec<BodyChange>,
    forced: &Vec<IslandId>,
    last_physics_tick: u32,
    this_run: u32,
)
    ensures
        final(awake).0@ == old(awake).0@.union(
            Set::new(
                |i: usize|
                    has_changed(
                        sleeping@,
                        i,
                        sleeping@.len() as int,
                        last_physics_tick,
                        this_run,
                    ) || has_number(forced@, i, forced@.len() as int),
            ),
        ),
        forall|n: int|
            0 <= n < sleeping@.len() && (#[trigger] sleeping@[n]).position.is_changed
                && tick_is_newer(sleeping@[n].position.last_changed, last_physics_tick, this_run)
                ==> final(awake).0@.contains(sleeping@[n].island_id.0 as usize),
        forall|n: int|
            0 <= n < sleeping@.len() && (#[trigger] sleeping@[n]).rotation.is_changed
                && tick_is_newer(sleeping@[n].rotation.last_changed, last_physics_tick, this_run)
                ==> final(awake).0@.contains(sleeping@[n].island_id.0 as usize),
        forall|n: int|
            0 <= n < sleeping@.len() && (#[trigger] sleeping@[n]).linear_velocity.is_changed
                && tick_is_newer(sleeping@[n].linear_velocity.last_changed, last_physics_tick, this_run)
                ==> final(awake).0@.contains(sleeping@[n].island_id.0 as usize),
        forall|n: int|
            0 <= n < sleeping@.len() && (#[trigger] sleeping@[n]).angular_velocity.is_changed
                && tick_is_newer(sleeping@[n].angular_velocity.last_changed, last_physics_tick, this_run)
                ==> final(awake).0@.contains(sleeping@[n].island_id.0 as usize),
        forall|n: int|
            0 <= n < sleeping@.len() && (#[trigger] sleeping@[n]).sleep_timer.is_changed
                && tick_is_newer(sleeping@[n].sleep_timer.last_changed, last_physics_tick, this_run)
                ==> final(awake).0@.contains(sleeping@[n].island_id.0 as usize),
        forall|n: int|
            0 <= n < forced@.len() ==> final(awake).0@.contains((#[trigger] forced@[n]).0 as usize),
        forall|i: usize| #[trigger] old(awake).0@.contains(i) ==> final(awake).0@.contains(i),
{
    let ghost awake0 = awake.0@;
    let tick: u32 = last_physics_tick;
    let mut i: usize = 0;
    assert(awake.0@ =~= awake0.union(
        Set::new(|b: usize| has_changed(sleeping@, b, 0, tick, this_run)),
    ));
    while i < sleeping.len()
        invariant
            i <= sleeping@.len(),
            awake.0@ == awake0.union(
                Set::new(|b: usize| has_changed(sleeping@, b, i as int, tick, this_run)),
            ),
        decreases sleeping@.len() - i,
    {
        let body = sleeping[i];
        let changed = is_changed_after_tick(body.position, tick, this_run)
            || is_changed_after_tick(body.rotation, tick, this_run) || is_changed_after_tick(
            body.linear_velocity,
            tick,
            this_run,
        ) || is_changed_after_tick(body.angular_velocity, tick, this_run) || is_changed_after_tick(
            body.sleep_timer,
            tick,
            this_run,
        );
        if changed {
            awake.keep_awake(body.island_id);
        }
        proof {
            assert forall|b: usize| has_changed(sleeping@, b, i + 1, tick, this_run)
                <==> has_changed(sleeping@, b, i as int, tick, this_run) || (b == body.island_id.0
                && changed) by {
                if b == body.island_id.0 && changed {
                    assert(sleeping@[i as int].island_id.0 == b);
                }
            }
            assert(awake.0@ =~= awake0.union(
                Set::new(|b: usize| has_changed(sleeping@, b, i + 1, tick, this_run)),
            ));
        }
        i = i + 1;
    }
    let ghost awake1 = awake.0@;
    let mut k: usize = 0;
    assert(awake.0@ =~= awake1.union(Set::new(|b: usize| has_number(forced@, b, 0))));
    while k < forced.len()
        invariant
            k <= forced@.len(),
            awake.0@ == awake1.union(Set::new(|b: usize| has_number(forced@, b, k as int))),
        decreases forced@.len() - k,
    {
        awake.keep_awake(forced[k]);
        proof {
            assert forall|b: usize| has_number(forced@, b, k + 1) <==> has_number(
                forced@,
                b,
                k as int,
            ) || b == forced@[k as int].0 by {
                if b == forced@[k as int].0 {
                    assert(forced@[k as int].0 == b);
                }
            }
            assert(awake.0@ =~= awake1.union(Set::new(|b: usize| has_number(forced@, b, k + 1))));
        }
        k = k + 1;
    }
    proof {
        assert(awake.0@ =~= awake0.union(
            Set::new(
                |i: usize|
                    has_changed(sleeping@, i, sleeping@.len() as int, tick, this_run)
                        || has_number(forced@, i, forced@.len() as int),
            ),
        ));
        assert forall|n: int|
            0 <= n < sleeping@.len() && body_changed_after(
                #[trigger] sleeping@[n],
                tick,
                this_run,
            ) implies awake.0@.contains(sleeping@[n].island_id.0 as usize) by {
            every_change_keeps_the_island_awake(sleeping@, n, tick, this_run);
        }
        assert forall|n: int| 0 <= n < forced@.len() implies awake.0@.contains(
            (#[trigger] forced@[n]).0 as usize,
        ) by {
            assert(has_number(forced@, forced@[n].0 as usize, forced@.len() as int));
        }
    }
}

} // verus!
