//! The repeating timer of the engine, as far as a spawner uses it. All times
//! are counted in nanoseconds.

use bevy::time::{Timer, TimerMode};
use std::time::Duration;
use vstd::prelude::*;

verus! {

/// `bevy::time::Timer`, carried as it is: what it holds is known only
/// through the names below.
#[verifier::external_type_specification]
#[verifier::external_body]
pub struct ExTimer(Timer);

/// What `Timer::elapsed` returns: the time the timer has run since it last
/// finished, in nanoseconds.
pub uninterp spec fn timer_elapsed(timer: Timer) -> nat;

/// What `Timer::duration` returns: the time from start to finish, in
/// nanoseconds.
pub uninterp spec fn timer_duration(timer: Timer) -> nat;

/// What `Timer::just_finished` returns: whether the timer finished during
/// its last tick.
pub uninterp spec fn timer_just_finished(timer: Timer) -> bool;

/// What `Timer::paused` returns.
pub uninterp spec fn timer_paused(timer: Timer) -> bool;

/// Whether `Timer::mode` returns `TimerMode::Repeating`.
pub uninterp spec fn timer_repeating(timer: Timer) -> bool;

/// A timer that runs, repeats, and holds times that fit 64 bits.
pub open spec fn timer_wf(timer: Timer) -> bool {
    &&& !timer_paused(timer)
    &&& timer_repeating(timer)
    &&& timer_elapsed(timer) <= u64::MAX
    &&& timer_duration(timer) <= u64::MAX
}

/// The time a repeating timer has run since it last finished, after a tick
/// of `delta` from `elapsed` with `duration` from start to finish: what the
/// whole time leaves when full durations are taken off it.
pub open spec fn ticked_elapsed(elapsed: nat, duration: nat, delta: nat) -> nat {
    let total = elapsed + delta;
    if total < duration {
        total
    } else if duration == 0 {
        0
    } else {
        total % duration
    }
}

/// Whether a repeating timer finishes during a tick of `delta` from
/// `elapsed` with `duration` from start to finish. The number of times it
/// finishes is counted in 32 bits, so a tick that spans an exact multiple of
/// two to the power of 32 durations counts as none.
pub open spec fn ticked_finished(elapsed: nat, duration: nat, delta: nat) -> bool {
    let total = elapsed + delta;
    if total < duration {
        false
    } else if duration == 0 {
        true
    } else {
        (total / duration) % 0x1_0000_0000 != 0
    }
}

/// `Timer::new` with `TimerMode::Repeating`: a timer that has not run yet,
/// runs, and finishes every `duration` nanoseconds.
#[verifier::external_body]
pub(crate) fn repeating_timer(duration: u64) -> (timer: Timer)
    ensures
        timer_elapsed(timer) == 0,
        timer_duration(timer) == duration,
        !timer_just_finished(timer),
        !timer_paused(timer),
        timer_repeating(timer),
{
    Timer::new(Duration::from_nanos(duration), TimerMode::Repeating)
}

/// `Timer::tick` on a repeating timer that is not paused: the timer runs on
/// by `delta` nanoseconds and starts over each time it finishes.
#[verifier::external_body]
pub(crate) fn tick(timer: &mut Timer, delta: u64)
    requires
        timer_wf(*old(timer)),
    ensures
        timer_elapsed(*final(timer)) == ticked_elapsed(
            timer_elapsed(*old(timer)),
            timer_duration(*old(timer)),
            delta as nat,
        ),
        timer_just_finished(*final(timer)) == ticked_finished(
            timer_elapsed(*old(timer)),
            timer_duration(*old(timer)),
            delta as nat,
        ),
        timer_duration(*final(timer)) == timer_duration(*old(timer)),
        timer_paused(*final(timer)) == timer_paused(*old(timer)),
        timer_repeating(*final(timer)) == timer_repeating(*old(timer)),
{
    timer.tick(Duration::from_nanos(delta));
}

/// `Timer::just_finished`.
#[verifier::external_body]
pub(crate) fn just_finished(timer: &Timer) -> (finished: bool)
    ensures
        finished == timer_just_finished(*timer),
{
    timer.just_finished()
}

/// `Timer::elapsed`, in nanoseconds.
#[verifier::external_body]
pub(crate) fn elapsed(timer: &Timer) -> (nanos: u64)
    requires
        timer_elapsed(*timer) <= u64::MAX,
    ensures
        nanos == timer_elapsed(*timer),
{
    timer.elapsed().as_nanos() as u64
}

/// `Timer::set_duration`: the timer finishes every `duration` nanoseconds
/// from now on; nothing else about it changes.
#[verifier::external_body]
pub(crate) fn set_duration(timer: &mut Timer, duration: u64)
    ensures
        timer_duration(*final(timer)) == duration,
        timer_elapsed(*final(timer)) == timer_elapsed(*old(timer)),
        timer_just_finished(*final(timer)) == timer_just_finished(*old(timer)),
        timer_paused(*final(timer)) == timer_paused(*old(timer)),
        timer_repeating(*final(timer)) == timer_repeating(*old(timer)),
{
    timer.set_duration(Duration::from_nanos(duration));
}

/// A tick leaves a well-formed timer well formed.
pub proof fn lemma_ticked_fits(elapsed: nat, duration: nat, delta: nat)
    requires
        elapsed <= u64::MAX,
        duration <= u64::MAX,
        delta <= u64::MAX,
    ensures
        ticked_elapsed(elapsed, duration, delta) <= u64::MAX,
        ticked_finished(elapsed, duration, delta) ==> ticked_elapsed(elapsed, duration, delta)
            <= duration,
        duration > 0 && ticked_finished(elapsed, duration, delta) ==> ticked_elapsed(
            elapsed,
            duration,
            delta,
        ) < duration,
{
    let total = elapsed + delta;
    if total >= duration && duration > 0 {
        vstd::arithmetic::div_mod::lemma_mod_bound(total as int, duration as int);
    }
}

} // verus!
