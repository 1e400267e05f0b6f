use std::time::Duration;
use train_game::config::Config;
use train_game::spawner::{
    is_triggered, may_spawn, remove_chasers, MissingProperty, ObjectData, Spawner,
    SpawnerTrigger, SpawnerTriggerEvent,
};

const SECOND: u64 = 1_000_000_000;

fn record() -> ObjectData {
    ObjectData {
        id: 7,
        active: Some(true),
        num_spawn: Some(2),
        delay: Some(SECOND),
        immediate: Some(false),
        interval: Some(SECOND / 2),
        repeats: Some(false),
        spawner_id: None,
    }
}

fn state(spawner: &Spawner) -> (bool, i32, u64, u64) {
    (
        spawner.active,
        spawner.count,
        spawner.timer.elapsed().as_nanos() as u64,
        spawner.timer.duration().as_nanos() as u64,
    )
}

#[test]
fn a_spawner_is_built_from_its_record() {
    let spawner = Spawner::from_object(&record()).unwrap();
    assert_eq!(spawner.id, 7);
    assert!(spawner.active);
    assert!(spawner.active_default);
    assert_eq!(spawner.num_spawn, 2);
    assert_eq!(spawner.delay, SECOND);
    assert!(!spawner.immediate);
    assert_eq!(spawner.interval, SECOND / 2);
    assert!(!spawner.repeats);
    assert_eq!(spawner.count, 0);
    assert_eq!(spawner.timer.duration(), Duration::from_secs(1));
    assert_eq!(spawner.timer.elapsed(), Duration::ZERO);
    assert!(!spawner.timer.just_finished());
    assert!(!spawner.timer.paused());
    assert_eq!(spawner.timer.mode(), bevy::time::TimerMode::Repeating);
    let immediate = Spawner::from_object(&ObjectData { immediate: Some(true), ..record() });
    assert_eq!(immediate.unwrap().timer.duration(), Duration::ZERO);
}

#[test]
fn a_record_without_a_property_is_an_error() {
    let full = record();
    let cases = [
        (ObjectData { active: None, ..full }, MissingProperty::Active),
        (ObjectData { num_spawn: None, ..full }, MissingProperty::NumSpawn),
        (ObjectData { delay: None, ..full }, MissingProperty::Delay),
        (ObjectData { immediate: None, ..full }, MissingProperty::Immediate),
        (ObjectData { interval: None, ..full }, MissingProperty::Interval),
        (ObjectData { repeats: None, ..full }, MissingProperty::Repeats),
        (ObjectData { active: None, repeats: None, ..full }, MissingProperty::Active),
        (ObjectData { delay: None, interval: None, ..full }, MissingProperty::Delay),
    ];
    for (data, missing) in cases {
        assert_eq!(Spawner::from_object(&data).err(), Some(missing));
    }
}

#[test]
fn a_trigger_is_built_from_its_record() {
    let data = ObjectData { id: 12, spawner_id: Some(7), ..record() };
    let trigger = SpawnerTrigger::from_object(&data).unwrap();
    assert_eq!(trigger.id(), 12);
    assert_eq!(trigger.spawner_id, 7);
    assert_eq!(
        SpawnerTrigger::from_object(&record()).err(),
        Some(MissingProperty::SpawnerId)
    );
}

#[test]
fn a_spawner_stops_after_its_last_pursuer_until_it_is_reset() {
    let mut spawner = Spawner::from_object(&record()).unwrap();
    // 0.4 s: still waiting for the delay.
    assert!(!spawner.update(false, 400_000_000));
    assert_eq!(state(&spawner), (true, 0, 400_000_000, SECOND));
    // 1.1 s: the first pursuer, a tenth of a second late.
    assert!(spawner.update(false, 700_000_000));
    assert_eq!(state(&spawner), (true, 1, 100_000_000, 400_000_000));
    // 1.3 s: nothing.
    assert!(!spawner.update(false, 200_000_000));
    assert_eq!(state(&spawner), (true, 1, 300_000_000, 400_000_000));
    // 1.4 s: the second and last pursuer.
    assert!(spawner.update(false, 100_000_000));
    assert_eq!(state(&spawner), (false, 2, 0, 400_000_000));
    // From now on nothing happens, trigger or not.
    for _ in 0..20 {
        assert!(!spawner.update(true, SECOND));
        assert!(!spawner.update(false, SECOND));
        assert_eq!(state(&spawner), (false, 2, 0, 400_000_000));
    }
    spawner.reset();
    assert_eq!(state(&spawner), (true, 0, 0, SECOND));
    assert!(!spawner.timer.just_finished());
    assert!(spawner.update(false, SECOND));
    assert_eq!(spawner.count, 1);
}

#[test]
fn a_spawner_that_repeats_starts_over() {
    let data = ObjectData { repeats: Some(true), ..record() };
    let mut spawner = Spawner::from_object(&data).unwrap();
    assert!(spawner.update(false, SECOND));
    assert_eq!(state(&spawner), (true, 1, 0, SECOND / 2));
    // The last pursuer of the round: the count goes back to zero and the
    // spawner waits for what is left of the interval.
    assert!(spawner.update(false, 600_000_000));
    assert_eq!(state(&spawner), (true, 0, 100_000_000, 400_000_000));
    let mut released = 0;
    for _ in 0..100 {
        if spawner.update(false, 100_000_000) {
            released += 1;
        }
        assert!(spawner.active);
        assert!(spawner.count < 2);
    }
    assert!(released >= 10);
}

#[test]
fn a_spawner_that_repeats_keeps_the_pace_of_the_interval() {
    // One pursuer a round, at once, and then every second: the delay of
    // five seconds plays no part after the start.
    let data = ObjectData {
        num_spawn: Some(1),
        delay: Some(5 * SECOND),
        interval: Some(SECOND),
        immediate: Some(true),
        repeats: Some(true),
        ..record()
    };
    let mut spawner = Spawner::from_object(&data).unwrap();
    assert!(spawner.update(false, 1));
    assert_eq!(state(&spawner), (true, 0, 0, SECOND));
    let mut released = 0;
    for step in 1..=40 {
        let spawned = spawner.update(false, SECOND / 4);
        assert_eq!(spawned, step % 4 == 0, "step {}", step);
        if spawned {
            released += 1;
        }
        assert_eq!(spawner.timer.duration().as_nanos() as u64, SECOND);
        assert_eq!(spawner.count, 0);
        assert!(spawner.active);
    }
    assert_eq!(released, 10);
}

#[test]
fn an_immediate_spawner_releases_at_once() {
    let data = ObjectData { immediate: Some(true), num_spawn: Some(3), ..record() };
    let mut spawner = Spawner::from_object(&data).unwrap();
    assert!(spawner.update(false, 1));
    assert_eq!(state(&spawner), (true, 1, 0, SECOND / 2));
    assert!(!spawner.update(false, SECOND / 4));
    assert!(spawner.update(false, SECOND / 4));
    assert_eq!(spawner.count, 2);
}

#[test]
fn a_sleeping_spawner_waits_for_its_trigger() {
    let data = ObjectData { active: Some(false), ..record() };
    let mut spawner = Spawner::from_object(&data).unwrap();
    assert!(!spawner.active);
    assert!(!spawner.update(false, 5 * SECOND));
    assert_eq!(state(&spawner), (false, 0, 0, SECOND));
    // The trigger wakes it; the timer starts to run.
    assert!(!spawner.update(true, SECOND / 2));
    assert_eq!(state(&spawner), (true, 0, SECOND / 2, SECOND));
    assert!(spawner.update(false, SECOND / 2));
    assert!(spawner.update(false, SECOND / 2));
    assert_eq!(state(&spawner), (false, 2, 0, SECOND / 2));
    // Spent: the trigger wakes it no more.
    assert!(!spawner.update(true, SECOND));
    assert!(!spawner.active);
    spawner.reset();
    assert_eq!(state(&spawner), (false, 0, 0, SECOND));
}

#[test]
fn a_late_pursuer_shortens_the_next_wait_to_nothing_at_most() {
    // The delay is longer than the interval: what has run over after the
    // first pursuer may be more than a whole interval.
    let data = ObjectData {
        delay: Some(10 * SECOND),
        interval: Some(SECOND),
        num_spawn: Some(5),
        ..record()
    };
    let mut spawner = Spawner::from_object(&data).unwrap();
    assert!(spawner.update(false, 15 * SECOND));
    assert_eq!(state(&spawner), (true, 1, 5 * SECOND, 0));
    // With nothing to wait for the next pursuer comes with the next update.
    assert!(spawner.update(false, 1));
    assert_eq!(state(&spawner), (true, 2, 0, SECOND));
}

#[test]
fn a_tick_over_several_rounds_releases_one_pursuer() {
    let data = ObjectData { num_spawn: Some(10), ..record() };
    let mut spawner = Spawner::from_object(&data).unwrap();
    assert!(spawner.update(false, 3 * SECOND + 250_000_000));
    assert_eq!(state(&spawner), (true, 1, 250_000_000, 250_000_000));
}

#[test]
fn triggers_are_matched_by_spawner() {
    let event = |id: u32, spawner_id: u32| {
        let data = ObjectData { id, spawner_id: Some(spawner_id), ..record() };
        SpawnerTriggerEvent(SpawnerTrigger::from_object(&data).unwrap())
    };
    let events = vec![event(1, 7), event(2, 9)];
    assert!(is_triggered(&events, 7));
    assert!(is_triggered(&events, 9));
    assert!(!is_triggered(&events, 1));
    assert!(!is_triggered(&vec![], 7));
}

#[test]
fn the_oldest_pursuers_go_when_the_cap_is_lowered() {
    assert_eq!(remove_chasers(&vec![11, 12, 13, 14, 15], 3), vec![11, 12]);
    assert_eq!(remove_chasers(&vec![11, 12, 13, 14, 15], 0), vec![11, 12, 13, 14, 15]);
    assert_eq!(remove_chasers(&vec![11, 12, 13], 3), Vec::<u64>::new());
    assert_eq!(remove_chasers(&vec![11, 12, 13], 10), Vec::<u64>::new());
    assert_eq!(remove_chasers(&vec![], 0), Vec::<u64>::new());
    for live in 0..8u64 {
        for cap in 0..8usize {
            let chasers: Vec<u64> = (0..live).collect();
            let removed = remove_chasers(&chasers, cap);
            assert_eq!(removed.len(), (live as usize).saturating_sub(cap));
            assert_eq!(removed[..], chasers[..removed.len()]);
        }
    }
}

#[test]
fn spawners_run_below_the_cap_only() {
    assert!(may_spawn(0, 1));
    assert!(may_spawn(4999, 5000));
    assert!(!may_spawn(5000, 5000));
    assert!(!may_spawn(5001, 5000));
    assert!(!may_spawn(0, 0));
}

#[test]
fn the_settings_have_their_defaults() {
    let config = Config::default();
    assert!(config.flowfield_smooth);
    assert_eq!(config.flow_cost_threshold, 150);
    assert_eq!(config.nanos_per_iter, 400_000_000);
    assert_eq!(config.max_chasers, 5000);
}
