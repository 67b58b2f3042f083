use ledalert::desktop::windows_state::{
    notification_received, session_locked, update_lock, update_media, Metadata, Notifications,
    MAX_NOTIFICATIONS, WINDOWS_EPOCH_TICKS,
};
use ledalert::desktop::{macos_state, NotificationEvent, SharedState, LOCK_FRESHNESS, MEDIA_FRESHNESS};
use std::collections::HashMap;
use std::sync::mpsc;

const MS: u64 = 1_000_000;
const NOW: u64 = 10_000_000_000_000;

fn test_wall() -> Option<u128> {
    Some(100_000_000_000)
}

fn metadata(id: u32, created: i64) -> Metadata {
    Metadata {
        id,
        created: WINDOWS_EPOCH_TICKS as i64 + 990_000_000 + created * 10_000,
        application: "Microsoft.WindowsTerminal_8wekyb3d8bbwe!App".into(),
    }
}

fn generation(shared: &SharedState) -> u64 {
    shared.desktop.notification_generation
}

/// Reconciles one snapshot and delivers its events; a full queue ends the lifecycle.
fn reconcile(
    state: &mut Notifications,
    records: Vec<Metadata>,
    shared: &mut SharedState,
    tx: &mpsc::SyncSender<NotificationEvent>,
    now: u64,
    wall: Option<u128>,
) {
    for event in state.reconcile(records, shared, now, wall) {
        if tx.try_send(event).is_err() {
            state.queue_lost(shared);
            return;
        }
    }
}

#[test]
fn baselines_history_then_emits_addition_and_removal() {
    let mut shared = SharedState::new();
    let (tx, rx) = mpsc::sync_channel(8);
    let mut state = Notifications::new();
    let now = NOW;
    reconcile(&mut state, vec![metadata(1, 10)], &mut shared, &tx, now, test_wall());
    assert!(rx.try_recv().is_err(), "history must never be raised");
    reconcile(&mut state, vec![metadata(1, 10), metadata(2, 20)], &mut shared, &tx, now, test_wall());
    let NotificationEvent::Raised(event) = rx.try_recv().unwrap() else {
        panic!("expected addition")
    };
    assert_eq!((event.id, event.generation, event.urgency), (2, 0, 1));
    assert_eq!(event.application, "Microsoft.WindowsTerminal_8wekyb3d8bbwe!App");
    assert_eq!(event.received, now - 980 * MS);
    reconcile(&mut state, vec![metadata(1, 10)], &mut shared, &tx, now, test_wall());
    assert!(matches!(
        rx.try_recv().unwrap(),
        NotificationEvent::Closed { id: 2, generation: 0, reason: 3 }
    ));
    reconcile(&mut state, vec![metadata(1, 10)], &mut shared, &tx, now, test_wall());
    assert!(rx.try_recv().is_err(), "unchanged snapshots are not new notifications");
}

#[test]
fn reused_id_closes_old_lifecycle_before_raising_replacement() {
    let mut shared = SharedState::new();
    let (tx, rx) = mpsc::sync_channel(8);
    let mut state = Notifications::new();
    let now = NOW;
    reconcile(&mut state, vec![metadata(1, 10)], &mut shared, &tx, now, test_wall());
    reconcile(&mut state, vec![metadata(1, 20)], &mut shared, &tx, now, test_wall());
    assert!(matches!(rx.try_recv().unwrap(), NotificationEvent::Closed { id: 1, .. }));
    assert!(matches!(
        rx.try_recv().unwrap(),
        NotificationEvent::Raised(ledalert::desktop::Notification { id: 1, generation: 0, .. })
    ));
}

#[test]
fn revocation_and_reconnect_invalidate_lights_without_replaying_history() {
    let mut shared = SharedState::new();
    let (tx, rx) = mpsc::sync_channel(8);
    let mut state = Notifications::new();
    let now = NOW;
    reconcile(&mut state, vec![], &mut shared, &tx, now, test_wall());
    reconcile(&mut state, vec![metadata(1, 10)], &mut shared, &tx, now, test_wall());
    let old = generation(&shared);
    state.disconnect(&mut shared, "Permission revoked");
    let new = generation(&shared);
    assert_ne!(old, new);
    state.disconnect(&mut shared, "Permission denied");
    assert_eq!(generation(&shared), new);
    assert!(
        matches!(rx.try_recv().unwrap(), NotificationEvent::Raised(ledalert::desktop::Notification { generation, .. }) if generation == old)
    );
    reconcile(&mut state, vec![metadata(1, 10), metadata(2, 20)], &mut shared, &tx, now, test_wall());
    assert!(rx.try_recv().is_err(), "reconnected history must be suppressed");
    reconcile(
        &mut state,
        vec![metadata(1, 10), metadata(2, 20), metadata(3, 30)],
        &mut shared,
        &tx,
        now,
        test_wall(),
    );
    assert!(
        matches!(rx.try_recv().unwrap(), NotificationEvent::Raised(ledalert::desktop::Notification { id: 3, generation, .. }) if generation == new)
    );
}

#[test]
fn dropped_close_invalidates_queued_events_and_rebaselines() {
    let mut shared = SharedState::new();
    let (tx, rx) = mpsc::sync_channel(1);
    let mut state = Notifications::new();
    let now = NOW;
    reconcile(&mut state, vec![], &mut shared, &tx, now, test_wall());
    reconcile(&mut state, vec![metadata(1, 10)], &mut shared, &tx, now, test_wall());
    reconcile(&mut state, vec![], &mut shared, &tx, now, test_wall()); // Close cannot fit.
    assert_eq!(generation(&shared), 1);
    assert!(matches!(
        rx.try_recv().unwrap(),
        NotificationEvent::Raised(ledalert::desktop::Notification { generation: 0, .. })
    ));
    reconcile(&mut state, vec![metadata(2, 20)], &mut shared, &tx, now, test_wall());
    assert!(rx.try_recv().is_err());
    reconcile(&mut state, vec![metadata(2, 20), metadata(3, 30)], &mut shared, &tx, now, test_wall());
    assert!(matches!(
        rx.try_recv().unwrap(),
        NotificationEvent::Raised(ledalert::desktop::Notification { id: 3, generation: 1, .. })
    ));
}

#[test]
fn ambiguous_or_oversized_snapshot_cannot_leave_lights_alive() {
    let mut shared = SharedState::new();
    let (tx, rx) = mpsc::sync_channel(8);
    let mut state = Notifications::new();
    let now = NOW;
    reconcile(&mut state, vec![], &mut shared, &tx, now, test_wall());
    reconcile(&mut state, vec![metadata(1, 10), metadata(1, 20)], &mut shared, &tx, now, test_wall());
    assert_eq!(generation(&shared), 1);
    assert!(rx.try_recv().is_err());
    reconcile(&mut state, vec![], &mut shared, &tx, now, test_wall());
    reconcile(
        &mut state,
        (0..=MAX_NOTIFICATIONS as u32).map(|id| metadata(id, 10)).collect(),
        &mut shared,
        &tx,
        now,
        test_wall(),
    );
    assert_eq!(generation(&shared), 2);
    assert!(rx.try_recv().is_err());
}

#[test]
fn lock_is_fail_closed_for_unknown_disconnected_and_stale_sessions() {
    assert_eq!(session_locked(true, 1), Some(false));
    assert_eq!(session_locked(true, 0), Some(true));
    assert_eq!(session_locked(true, -1), None);
    assert_eq!(session_locked(false, 1), Some(true));
    let mut shared = SharedState::new();
    let now = NOW;
    update_lock(&mut shared, Some(false), now);
    assert_eq!(shared.snapshot(now + LOCK_FRESHNESS).locked, Some(false));
    assert_eq!(shared.snapshot(now + LOCK_FRESHNESS + MS).locked, None);
    update_lock(&mut shared, None, now);
    assert_eq!(shared.snapshot(now).locked, None);
}

#[test]
fn media_is_deduplicated_and_clears_on_failure_or_expiry() {
    let mut shared = SharedState::new();
    let now = NOW;
    update_media(&mut shared, Some(vec!["Spotify.exe".into(), "Spotify.exe".into()]), now);
    assert_eq!(shared.snapshot(now).playing, ["Spotify.exe"]);
    assert!(shared.snapshot(now + MEDIA_FRESHNESS + MS).playing.is_empty());
    update_media(&mut shared, None, now);
    assert!(shared.snapshot(now).playing.is_empty());
    update_media(&mut shared, Some(vec![]), now);
    assert!(shared.snapshot(now).playing.is_empty());
}

#[test]
fn delayed_snapshot_preserves_creation_time_across_unlock_gate() {
    let mut shared = SharedState::new();
    let (tx, rx) = mpsc::sync_channel(8);
    let mut state = Notifications::new();
    let now = NOW;
    let gate = now - 500 * MS;
    reconcile(&mut state, vec![], &mut shared, &tx, now, test_wall());
    // All three become visible in one delayed snapshot after unlock/Quiet off.
    reconcile(
        &mut state,
        vec![metadata(1, 250), metadata(2, 500), metadata(3, 750)],
        &mut shared,
        &tx,
        now,
        test_wall(),
    );
    let received: HashMap<_, _> = rx
        .try_iter()
        .map(|event| {
            let NotificationEvent::Raised(event) = event else {
                panic!("expected addition")
            };
            (event.id, event.received)
        })
        .collect();
    assert_eq!(received[&1], now - 750 * MS);
    assert!(received[&1] < gate, "pre-unlock toast must remain rejected by the UI gate");
    assert_eq!(received[&2], gate, "gate boundary is inclusive");
    assert_eq!(received[&3], now - 250 * MS);
    assert!(received[&3] > gate, "post-unlock toast remains eligible");
    reconcile(
        &mut state,
        vec![metadata(1, 250), metadata(2, 500), metadata(3, 750)],
        &mut shared,
        &tx,
        now + 1_000 * MS,
        test_wall().map(|wall| wall + 1_000_000_000),
    );
    assert!(rx.try_recv().is_err(), "moving clock anchors must not create replacement events");
}

#[test]
fn invalid_and_future_creation_times_never_become_fresh_events() {
    let now = NOW;
    assert_eq!(notification_received(-1, test_wall(), now), None);
    assert_eq!(
        notification_received(WINDOWS_EPOCH_TICKS as i64 - 1, test_wall(), now),
        None
    );
    assert_eq!(notification_received(metadata(1, 1001).created, test_wall(), now), None);
    assert_eq!(notification_received(metadata(1, 1000).created, test_wall(), now), Some(now));
    assert_eq!(
        notification_received(metadata(1, 1000).created - 1, test_wall(), now),
        Some(now - 100),
    );
}

#[test]
fn stale_lock_and_media_fail_closed_and_errors_clear_activity() {
    let mut shared = SharedState::new();
    let now = NOW;
    macos_state::update_lock(&mut shared, Some(false), now);
    macos_state::update_media(&mut shared, Some(vec!["org.example.Synthetic".into()]), now);
    assert_eq!(shared.snapshot(now).locked, Some(false));
    assert_eq!(shared.snapshot(now + LOCK_FRESHNESS + 1).locked, None);
    assert!(shared.snapshot(now + MEDIA_FRESHNESS + 1).playing.is_empty());
    macos_state::update_media(&mut shared, None, now);
    macos_state::update_lock(&mut shared, Some(true), now);
    assert!(shared.desktop.playing.is_empty());
    assert_eq!(shared.desktop.locked, Some(true));
}
