use ledalert::app::runtime::{frame_choice, plan_tick, poll_due, tick_delay, lifecycle_changed, EngineReset, FrameChoice, Lighting, BUSY_DELAY, IDLE_DELAY};
use ledalert::app::demos::random_delay;
use ledalert::app::runtime::{dismisses, inhibited, remember_recent, NotificationGate, MAX_RECENT};

const MS: u64 = 1_000_000;

#[test]
fn notifications_queued_during_inhibition_do_not_replay_after_resume() {
    let start: u64 = 5_000_000_000_000;
    let mut gate = NotificationGate::new(start);
    gate.update(false, start);

    // Quiet can toggle on and off between worker ticks. Its UI transition
    // must invalidate queued raises even when the worker never sampled it.
    gate.discard_before(start + 10 * MS);
    let queued_during_quiet = start + 15 * MS;
    gate.discard_before(start + 20 * MS);
    assert!(!gate.accepts(queued_during_quiet));
    assert!(gate.accepts(start + 21 * MS));

    // Lock/guidance/error recovery also discards arrivals in the interval
    // between the final paused tick and the first resumed tick.
    gate.update(true, start + 30 * MS);
    let queued_during_lock = start + 35 * MS;
    assert!(!gate.accepts(queued_during_lock));
    gate.update(false, start + 40 * MS);
    assert!(!gate.accepts(queued_during_lock));
    assert!(gate.accepts(start + 41 * MS));
}

#[test]
fn demo_delays_are_varied_and_never_less_than_one_second() {
    let mut seed: u64 = 123456789;
    let first = random_delay(&mut seed);
    let delays: Vec<_> = (0..64).map(|_| random_delay(&mut seed)).collect();
    assert!(delays
        .iter()
        .all(|delay| (1_000 * MS..=5_000 * MS).contains(delay)));
    assert!(delays.iter().any(|delay| *delay != first));
}

#[test]
fn lighting_is_inhibited_unless_known_unlocked_quiet_off_and_valid() {
    assert!(!inhibited(false, Some(false), false));
    assert!(inhibited(true, Some(false), false));
    assert!(inhibited(false, Some(true), false));
    assert!(inhibited(false, None, false));
    assert!(inhibited(false, Some(false), true));
}

#[test]
fn closes_dismiss_only_their_own_lifecycle_and_never_on_expiry() {
    assert!(dismisses(3, 3, 2));
    assert!(!dismisses(2, 3, 2));
    assert!(!dismisses(3, 3, 1));
}

#[test]
fn recent_applications_are_unique_and_bounded() {
    let mut recent: Vec<String> = Vec::new();
    for i in 0..MAX_RECENT {
        remember_recent(&mut recent, &format!("app{i}"));
    }
    remember_recent(&mut recent, "app3");
    assert_eq!(recent.len(), MAX_RECENT);
    assert_eq!(recent[0], "app0");
    remember_recent(&mut recent, "new");
    assert_eq!(recent.len(), MAX_RECENT);
    assert_eq!(recent[0], "app1");
    assert_eq!(recent[MAX_RECENT - 1], "new");
}

#[test]
fn a_tick_plans_inhibition_and_chooses_the_frame() {
    let quiet = plan_tick(true, Some(false), false, false, false);
    assert!(quiet.inhibited && quiet.gate_paused && quiet.render_dimmed && !quiet.follow_playing);
    assert_eq!(quiet.engine, EngineReset::ClearTransients);
    let locked = plan_tick(false, None, false, false, false);
    assert!(locked.inhibited);
    let guiding = plan_tick(false, Some(false), true, true, false);
    assert!(guiding.stop_guidance && guiding.gate_paused);
    assert_eq!(guiding.engine, EngineReset::Clear);
    let normal = plan_tick(false, Some(false), false, false, false);
    assert!(!normal.inhibited && !normal.gate_paused && normal.follow_playing && !normal.render_dimmed);
    assert_eq!(normal.engine, EngineReset::Keep);
    assert_eq!(plan_tick(false, Some(false), false, false, true).engine, EngineReset::Clear);
    assert_eq!(frame_choice(true, false, true, false), FrameChoice::Guidance);
    assert_eq!(frame_choice(false, true, false, true), FrameChoice::Engine { lit: true });
    assert_eq!(frame_choice(false, true, true, true), FrameChoice::Engine { lit: false });
    assert_eq!(frame_choice(false, false, false, true), FrameChoice::Engine { lit: false });
    assert!(poll_due(1_100_000_000, 1_000_000_000) && !poll_due(1_099_999_999, 1_000_000_000));
    assert!(lifecycle_changed(1, 2) && !lifecycle_changed(2, 2));
    assert_eq!(tick_delay(false, false, false, false, false, false), IDLE_DELAY);
    assert_eq!(tick_delay(false, true, false, false, false, false), BUSY_DELAY);
    assert_eq!((BUSY_DELAY, IDLE_DELAY), (33_000_000, 100_000_000));
}

#[test]
fn lighting_starts_disabled_and_needs_a_ready_strip() {
    let mut lighting = Lighting::new();
    assert!(!lighting.enabled());
    assert!(!lighting.can_toggle(true, true, Some(false), Some(false)));
    lighting.toggle(true, false, None, Some(false));
    assert!(!lighting.enabled());
    lighting.toggle(true, false, Some(false), Some(true));
    assert!(!lighting.enabled());
    assert!(lighting.can_toggle(true, false, Some(false), Some(false)));
    lighting.toggle(true, false, Some(false), Some(false));
    assert!(lighting.enabled());
    assert!(!lighting.keep_for_device(true, true, Some(60), 60));
    assert!(lighting.enabled());
    assert!(lighting.keep_for_device(true, true, Some(59), 60));
    assert!(!lighting.enabled());
    lighting.toggle(true, false, Some(false), Some(false));
    lighting.toggle(true, false, Some(false), Some(false));
    assert!(!lighting.enabled());
    lighting.toggle(true, false, Some(false), Some(false));
    lighting.disable();
    assert!(!lighting.enabled());
}
