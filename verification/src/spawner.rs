//! Spawners release pursuers at a set pace once a trigger has woken them,
//! and the population is cut back, oldest first, when its cap is lowered.
//! All times are counted in nanoseconds.

use crate::timer::{
    elapsed, just_finished, lemma_ticked_fits, repeating_timer, set_duration, tick,
    ticked_elapsed, ticked_finished, timer_duration, timer_elapsed, timer_just_finished,
    timer_wf,
};
use bevy::time::Timer;
use vstd::prelude::*;

verus! {

/// A property that a placement record of the level must carry and does not.
#[derive(Clone, Copy, Debug, PartialEq, Eq, Structural)]
pub enum MissingProperty {
    Active,
    NumSpawn,
    Delay,
    Immediate,
    Interval,
    Repeats,
    SpawnerId,
}

/// What a placement record of the level says of a spawner or a trigger:
/// its number, and the value found under each property name, if one of the
/// right type was found.
#[derive(Clone, Copy, Debug, PartialEq, Eq, Structural)]
pub struct ObjectData {
    pub id: u32,
    /// `active`: whether the spawner runs from the start.
    pub active: Option<bool>,
    /// `num_spawn`: how many pursuers the spawner releases in a row.
    pub num_spawn: Option<i32>,
    /// `delay`: the time before the first pursuer.
    pub delay: Option<u64>,
    /// `immediate`: whether the first pursuer comes without delay.
    pub immediate: Option<bool>,
    /// `interval`: the time between two pursuers.
    pub interval: Option<u64>,
    /// `repeats`: whether the spawner starts over when it is done.
    pub repeats: Option<bool>,
    /// `spawner_id`: the spawner that a trigger wakes.
    pub spawner_id: Option<u32>,
}

impl ObjectData {
    /// The first property of a spawner that the record lacks, in the order
    /// `active`, `num_spawn`, `delay`, `immediate`, `interval`, `repeats`.
    pub open spec fn missing_for_spawner(self) -> Option<MissingProperty> {
        if self.active is None {
            Some(MissingProperty::Active)
        } else if self.num_spawn is None {
            Some(MissingProperty::NumSpawn)
        } else if self.delay is None {
            Some(MissingProperty::Delay)
        } else if self.immediate is None {
            Some(MissingProperty::Immediate)
        } else if self.interval is None {
            Some(MissingProperty::Interval)
        } else if self.repeats is None {
            Some(MissingProperty::Repeats)
        } else {
            None
        }
    }
}

/// A place where pursuers appear.
pub struct Spawner {
    pub id: u32,
    /// Whether the spawner is running.
    pub active: bool,
    /// Whether the spawner runs from the start and after a reset.
    pub active_default: bool,
    /// How many pursuers the spawner releases before it is done.
    pub num_spawn: i32,
    /// The time before the first pursuer.
    pub delay: u64,
    /// Whether the first pursuer comes without delay.
    pub immediate: bool,
    /// The time between two pursuers.
    pub interval: u64,
    /// Whether the spawner starts over when it is done.
    pub repeats: bool,
    /// How many pursuers have been released since the spawner last started.
    pub count: i32,
    /// Runs down the time to the next pursuer.
    pub timer: Timer,
}

/// `a - b`, or 0 if `b` is the larger.
pub open spec fn time_left(a: nat, b: nat) -> nat {
    if a >= b {
        (a - b) as nat
    } else {
        0
    }
}

impl Spawner {
    /// The timer of the spawner runs and repeats.
    pub open spec fn wf(self) -> bool {
        timer_wf(self.timer)
    }

    /// The time the timer starts with: none for an immediate spawner, the
    /// delay otherwise.
    pub open spec fn first_wait(self) -> nat {
        if self.immediate {
            0
        } else {
            self.delay as nat
        }
    }

    /// The spawner is in the state it is created in: the timer has not run,
    /// nothing has been released, and the spawner runs if it does so from
    /// the start.
    pub open spec fn is_fresh(self) -> bool {
        &&& self.wf()
        &&& self.active == self.active_default
        &&& self.count == 0
        &&& timer_elapsed(self.timer) == 0
        &&& timer_duration(self.timer) == self.first_wait()
        &&& !timer_just_finished(self.timer)
    }

    /// The spawner runs during an update: it was running, or it has not
    /// released all its pursuers and a trigger has just woken it.
    pub open spec fn runs(self, triggered: bool) -> bool {
        self.active || (self.count < self.num_spawn && triggered)
    }

    /// The spawner releases a pursuer during an update of `delta`
    /// nanoseconds: it runs, and its timer finishes.
    pub open spec fn spawns(self, triggered: bool, delta: u64) -> bool {
        self.runs(triggered) && ticked_finished(
            timer_elapsed(self.timer),
            timer_duration(self.timer),
            delta as nat,
        )
    }

    /// The count after one more pursuer; it stops at the largest number.
    pub open spec fn counted(self) -> int {
        if self.count < i32::MAX {
            self.count + 1
        } else {
            self.count as int
        }
    }

    /// The spawner is done after its next pursuer.
    pub open spec fn completes(self) -> bool {
        self.counted() == self.num_spawn
    }

    /// The spawner can do no more until it is reset: it is not running and
    /// has released all its pursuers.
    pub open spec fn is_spent(self) -> bool {
        !self.active && self.count >= self.num_spawn
    }

    /// The same settings: everything that the level says of the spawner.
    pub open spec fn same_settings(self, other: Spawner) -> bool {
        &&& self.id == other.id
        &&& self.active_default == other.active_default
        &&& self.num_spawn == other.num_spawn
        &&& self.delay == other.delay
        &&& self.immediate == other.immediate
        &&& self.interval == other.interval
        &&& self.repeats == other.repeats
    }

    /// The spawner after an update in which `triggered` says whether a
    /// trigger has just asked for it and `delta` nanoseconds have passed.
    ///
    /// A spawner that does not run stays as it is. One that runs has its
    /// timer ticked. If the timer finishes, a pursuer is released and
    /// counted. A spawner that is done and does not repeat then stops. Any
    /// other goes on, one that is done with its count back at zero, and waits
    /// for what is left of the interval.
    pub open spec fn updated(self, after: Spawner, triggered: bool, delta: u64) -> bool {
        let now = ticked_elapsed(
            timer_elapsed(self.timer),
            timer_duration(self.timer),
            delta as nat,
        );
        &&& after.same_settings(self)
        &&& !self.runs(triggered) ==> after == self
        &&& self.runs(triggered) ==> {
            &&& timer_elapsed(after.timer) == now
            &&& timer_just_finished(after.timer) == self.spawns(triggered, delta)
        }
        &&& self.runs(triggered) && !self.spawns(triggered, delta) ==> {
            &&& after.active
            &&& after.count == self.count
            &&& timer_duration(after.timer) == timer_duration(self.timer)
        }
        &&& self.spawns(triggered, delta) ==> {
            &&& after.active == (!self.completes() || self.repeats)
            &&& after.count == if self.completes() && self.repeats {
                0
            } else {
                self.counted()
            }
            &&& timer_duration(after.timer) == if !self.completes() || self.repeats {
                time_left(self.interval as nat, now)
            } else {
                timer_duration(self.timer)
            }
        }
    }

    /// Builds the spawner that a placement record of the level describes.
    ///
    /// Fails with the first property that the record lacks.
    pub fn from_object(object_data: &ObjectData) -> (spawner: Result<Spawner, MissingProperty>)
        ensures
            match spawner {
                Ok(spawner) => {
                    &&& object_data.missing_for_spawner() is None
                    &&& spawner.is_fresh()
                    &&& spawner.id == object_data.id
                    &&& Some(spawner.active_default) == object_data.active
                    &&& Some(spawner.num_spawn) == object_data.num_spawn
                    &&& Some(spawner.delay) == object_data.delay
                    &&& Some(spawner.immediate) == object_data.immediate
                    &&& Some(spawner.interval) == object_data.interval
                    &&& Some(spawner.repeats) == object_data.repeats
                },
                Err(missing) => object_data.missing_for_spawner() == Some(missing),
            },
    {
        let active_default: bool = match object_data.active {
            Some(value) => value,
            None => {
                return Err(MissingProperty::Active);
            },
        };
        let num_spawn: i32 = match object_data.num_spawn {
            Some(value) => value,
            None => {
                return Err(MissingProperty::NumSpawn);
            },
        };
        let delay: u64 = match object_data.delay {
            Some(value) => value,
            None => {
                return Err(MissingProperty::Delay);
            },
        };
        let immediate: bool = match object_data.immediate {
            Some(value) => value,
            None => {
                return Err(MissingProperty::Immediate);
            },
        };
        let interval: u64 = match object_data.interval {
            Some(value) => value,
            None => {
                return Err(MissingProperty::Interval);
            },
        };
        let repeats: bool = match object_data.repeats {
            Some(value) => value,
            None => {
                return Err(MissingProperty::Repeats);
            },
        };
        let wait: u64 = if immediate {
            0
        } else {
            delay
        };
        Ok(
            Spawner {
                id: object_data.id,
                active: active_default,
                active_default,
                num_spawn,
                delay,
                immediate,
                interval,
                repeats,
                count: 0,
                timer: repeating_timer(wait),
            },
        )
    }

    /// Puts the spawner back into the state it was created in.
    pub fn reset(&mut self)
        ensures
            final(self).is_fresh(),
            final(self).same_settings(*old(self)),
    {
        let wait: u64 = if self.immediate {
            0
        } else {
            self.delay
        };
        self.timer = repeating_timer(wait);
        self.count = 0;
        self.active = self.active_default;
    }

    /// Advances the spawner by `delta_nanos` nanoseconds. `triggered` says
    /// whether a trigger has just asked for this spawner. Returns whether a
    /// pursuer is to be released now.
    pub fn update(&mut self, triggered: bool, delta_nanos: u64) -> (spawn: bool)
        requires
            old(self).wf(),
        ensures
            final(self).wf(),
            spawn == old(self).spawns(triggered, delta_nanos),
            old(self).updated(*final(self), triggered, delta_nanos),
    {
        if !self.active && self.count < self.num_spawn && triggered {
            self.active = true;
        }
        if !self.active {
            return false;
        }
        proof {
            lemma_ticked_fits(
                timer_elapsed(self.timer),
                timer_duration(self.timer),
                delta_nanos as nat,
            );
        }
        tick(&mut self.timer, delta_nanos);
        if !just_finished(&self.timer) {
            return false;
        }
        if self.count < i32::MAX {
            self.count = self.count + 1;
        }
        if self.count == self.num_spawn {
            if !self.repeats {
                self.active = false;
                return true;
            }
            self.count = 0;
        }
        let now: u64 = elapsed(&self.timer);
        let wait: u64 = if self.interval >= now {
            self.interval - now
        } else {
            0
        };
        set_duration(&mut self.timer, wait);
        true
    }
}

/// A zone that wakes a spawner when the player enters it.
#[derive(Clone, Copy, Debug, PartialEq, Eq, Structural)]
pub struct SpawnerTrigger {
    /// object id of this trigger
    pub id: u32,
    /// Which spawner this trigger will activate
    pub spawner_id: u32,
}

impl SpawnerTrigger {
    /// Builds the trigger that a placement record of the level describes.
    ///
    /// Fails if the record does not name a spawner.
    pub fn from_object(object_data: &ObjectData) -> (trigger: Result<
        SpawnerTrigger,
        MissingProperty,
    >)
        ensures
            match trigger {
                Ok(trigger) => trigger.id == object_data.id && Some(trigger.spawner_id)
                    == object_data.spawner_id,
                Err(missing) => missing == MissingProperty::SpawnerId && object_data.spawner_id
                    is None,
            },
    {
        match object_data.spawner_id {
            Some(spawner_id) => Ok(SpawnerTrigger { id: object_data.id, spawner_id }),
            None => Err(MissingProperty::SpawnerId),
        }
    }

    /// The number of the trigger in the level.
    pub fn id(&self) -> (id: u32)
        ensures
            id == self.id,
    {
        self.id
    }
}

/// The message that a trigger sends when the player enters it.
#[derive(Clone, Copy, Debug, PartialEq, Eq, Structural)]
pub struct SpawnerTriggerEvent(pub SpawnerTrigger);

/// Whether one of `events` asks for the spawner with number `spawner_id`.
pub open spec fn asks_for(events: Seq<SpawnerTriggerEvent>, spawner_id: u32) -> bool {
    exists|i: int| 0 <= i < events.len() && (#[trigger] events[i]).0.spawner_id == spawner_id
}

/// Whether one of `events` asks for the spawner with number `spawner_id`.
pub fn is_triggered(events: &Vec<SpawnerTriggerEvent>, spawner_id: u32) -> (triggered: bool)
    ensures
        triggered == asks_for(events@, spawner_id),
{
    let mut i: usize = 0;
    while i < events.len()
        invariant
            0 <= i <= events.len(),
            forall|j: int| 0 <= j < i ==> (#[trigger] events@[j]).0.spawner_id != spawner_id,
        decreases events.len() - i,
    {
        if events[i].0.spawner_id == spawner_id {
            return true;
        }
        i += 1;
    }
    false
}

/// Whether spawners may run: the population is below its cap.
pub fn may_spawn(live_count: usize, max_chasers: usize) -> (allowed: bool)
    ensures
        allowed == (live_count < max_chasers),
{
    live_count < max_chasers
}

/// How many pursuers are over the cap.
pub open spec fn excess(live_count: int, max_chasers: int) -> int {
    if live_count > max_chasers {
        live_count - max_chasers
    } else {
        0
    }
}

/// Picks the pursuers that have to go when the population is over its cap.
///
/// `chasers` lists the pursuers alive, the oldest first. Returns the oldest
/// of them, exactly as many as are over the cap, in the same order.
pub fn remove_chasers(chasers: &Vec<u64>, max_chasers: usize) -> (removed: Vec<u64>)
    ensures
        removed@ == chasers@.subrange(0, excess(chasers.len() as int, max_chasers as int)),
        removed.len() == excess(chasers.len() as int, max_chasers as int),
        chasers.len() - removed.len() <= max_chasers,
{
    let delete_count: usize = if chasers.len() > max_chasers {
        chasers.len() - max_chasers
    } else {
        0
    };
    let mut removed: Vec<u64> = Vec::new();
    let mut i: usize = 0;
    while i < delete_count
        invariant
            0 <= i <= delete_count <= chasers.len(),
            removed@ == chasers@.subrange(0, i as int),
        decreases delete_count - i,
    {
        removed.push(chasers[i]);
        proof {
            assert(removed@ =~= chasers@.subrange(0, i + 1));
        }
        i += 1;
    }
    removed
}

/// A spawner that is spent stays as it is, and releases nothing, whatever
/// triggers ask for it and however much time passes.
pub proof fn lemma_spent_spawner_rests(
    spawner: Spawner,
    after: Spawner,
    triggered: bool,
    delta: u64,
)
    requires
        spawner.is_spent(),
        spawner.updated(after, triggered, delta),
    ensures
        after == spawner,
        !spawner.spawns(triggered, delta),
        after.is_spent(),
{
}

/// A spawner that releases its last pursuer stops if it does not repeat, and
/// is spent from then on; if it repeats, it keeps running with its count
/// back at zero and waits for what is left of the interval.
pub proof fn lemma_last_spawn(spawner: Spawner, after: Spawner, triggered: bool, delta: u64)
    requires
        spawner.spawns(triggered, delta),
        spawner.completes(),
        spawner.updated(after, triggered, delta),
    ensures
        !spawner.repeats ==> after.is_spent(),
        spawner.repeats ==> after.active && after.count == 0 && timer_duration(after.timer)
            == time_left(spawner.interval as nat, timer_elapsed(after.timer)),
{
}

/// A spawner that goes on after a pursuer spawns at the pace of the
/// interval, also when it has just started over: the wait for the next
/// pursuer is the interval less the time by which this one came late.
pub proof fn lemma_spawns_at_interval(
    spawner: Spawner,
    after: Spawner,
    triggered: bool,
    delta: u64,
)
    requires
        spawner.spawns(triggered, delta),
        spawner.updated(after, triggered, delta),
        after.active,
    ensures
        timer_duration(after.timer) == time_left(
            spawner.interval as nat,
            timer_elapsed(after.timer),
        ),
{
}

/// A reset makes a spent spawner that runs from the start run again.
pub proof fn lemma_reset_revives(spawner: Spawner)
    requires
        spawner.is_fresh(),
        spawner.active_default,
    ensures
        !spawner.is_spent(),
        spawner.runs(false),
{
}

} // verus!
