//! Change ticks: counters that wrap around, and tell what changed since a system last ran.

use vstd::prelude::*;
use bevy_ecs::change_detection::Tick;

verus! {

/// The largest age of a change that is told apart from older ones.
pub const MAX_CHANGE_AGE: u32 = 3_258_167_296;

/// How many ticks ago a tick was, up to the largest age that is told apart.
pub open spec fn tick_age(tick: u32, this_run: u32) -> int {
    let age = if this_run >= tick {
        this_run - tick
    } else {
        this_run - tick + 0x1_0000_0000
    };
    if age < MAX_CHANGE_AGE {
        age
    } else {
        MAX_CHANGE_AGE as int
    }
}

/// Whether a tick came after another one, seen from the current tick.
pub open spec fn tick_is_newer(tick: u32, last_run: u32, this_run: u32) -> bool {
    tick_age(tick, this_run) < tick_age(last_run, this_run)
}

/// Calls `Tick::is_newer_than`, with ticks made from numbers by `Tick::new`. It takes the wrapping
/// distances of the tick and of `last_run` from `this_run`, cuts both off at the largest age, and
/// tells whether the first is smaller.
#[verifier::external_body]
fn is_newer_than(tick: u32, last_run: u32, this_run: u32) -> (newer: bool)
    ensures
        newer == tick_is_newer(tick, last_run, this_run),
{
    Tick::new(tick).is_newer_than(Tick::new(last_run), Tick::new(this_run))
}

/// When a component was last changed, and whether that was since the system last ran.
#[derive(Clone, Copy, Debug, PartialEq, Eq)]
pub struct ComponentChange {
    pub is_changed: bool,
    pub last_changed: u32,
}

/// Whether a component was changed since the system last ran, and after the given tick.
pub open spec fn changed_after(change: ComponentChange, tick: u32, this_run: u32) -> bool {
    change.is_changed && tick_is_newer(change.last_changed, tick, this_run)
}

/// Whether a component was changed since the system last ran, and after the given tick.
pub fn is_changed_after_tick(change: ComponentChange, tick: u32, this_run: u32) -> (changed: bool)
    ensures
        changed == changed_after(change, tick, this_run),
{
    change.is_changed && is_newer_than(change.last_changed, tick, this_run)
}

/// Which parts of a collider changed since the last physics tick.
#[derive(Clone, Copy, Debug, PartialEq, Eq)]
pub struct ColliderChange {
    /// Whether the bounding box may have changed.
    pub aabb: bool,
    /// Whether the shape changed.
    pub shape: bool,
}

/// Tells which parts of a collider changed since the last physics tick: the bounding box may have
/// changed if the position, the rotation, or the shape did.
pub fn collider_change(
    position: u32,
    rotation: u32,
    shape: u32,
    last_tick: u32,
    this_run: u32,
) -> (change: ColliderChange)
    ensures
        change.shape == tick_is_newer(shape, last_tick, this_run),
        change.aabb == (tick_is_newer(position, last_tick, this_run) || tick_is_newer(
            rotation,
            last_tick,
            this_run,
        ) || tick_is_newer(shape, last_tick, this_run)),
{
    let shape_changed = is_newer_than(shape, last_tick, this_run);
    ColliderChange {
        aabb: is_newer_than(position, last_tick, this_run) || is_newer_than(
            rotation,
            last_tick,
            this_run,
        ) || shape_changed,
        shape: shape_changed,
    }
}

/// Nothing is newer than what happened in the current tick.
pub proof fn nothing_is_newer_than_now(tick: u32, this_run: u32)
    ensures
        !tick_is_newer(tick, this_run, this_run),
{
}

/// What happened in the current tick is newer than anything else.
pub proof fn now_is_newest(last_run: u32, this_run: u32)
    requires
        last_run != this_run,
    ensures
        tick_is_newer(this_run, last_run, this_run),
{
}

/// Of two ticks since the counter last wrapped around, the one with the larger number is the newer
/// one, as long as one of them is recent enough to be told apart. Any of them is newer than one from
/// before the counter wrapped around, and of two of those, again the one with the larger number.
pub proof fn newer_ticks_have_larger_numbers(tick: u32, last_run: u32, this_run: u32)
    ensures
        tick <= this_run && last_run <= this_run && this_run - tick < MAX_CHANGE_AGE ==> (
        tick_is_newer(tick, last_run, this_run) <==> tick > last_run),
        tick <= this_run && last_run > this_run && this_run - tick < MAX_CHANGE_AGE
            ==> tick_is_newer(tick, last_run, this_run),
        tick > this_run && last_run <= this_run ==> !tick_is_newer(tick, last_run, this_run),
        tick > this_run && last_run > this_run && this_run + 0x1_0000_0000 - tick < MAX_CHANGE_AGE
            ==> (tick_is_newer(tick, last_run, this_run) <==> tick > last_run),
        tick_is_newer(tick, last_run, this_run) ==> !tick_is_newer(last_run, tick, this_run),
{
}

/// A change counts exactly if there was one since the system last ran, and its tick is newer. Changes
/// are told apart up to an age that leaves room for two checks of all ticks, less one tick.
pub proof fn change_counts_if_newer(change: ComponentChange, tick: u32, this_run: u32)
    ensures
        changed_after(change, tick, this_run) <==> change.is_changed && tick_is_newer(
            change.last_changed,
            tick,
            this_run,
        ),
        changed_after(change, this_run, this_run) == false,
        MAX_CHANGE_AGE == u32::MAX - (2 * 518_400_000 - 1),
{
}

} // verus!
