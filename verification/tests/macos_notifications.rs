use ledalert::desktop::macos_state::{Metadata, Notifications, MAX_NOTIFICATIONS};
use ledalert::desktop::{NotificationEvent, SharedState};
use std::sync::mpsc;
use std::time::Duration;

const APPLE_EPOCH_SECONDS: u64 = 978_307_200;
const NOW: u64 = 10_000_000_000_000;
const MS: u64 = 1_000_000;

/// The wall clock, 100 s after the Apple epoch.
fn wall() -> Duration {
    Duration::from_secs(APPLE_EPOCH_SECONDS + 100)
}

/// The monotonic instant at which a delivery created `created` seconds after
/// the Apple epoch happened, as the notification reader computes it.
fn received(created: f64, wall: Duration, now: u64) -> Option<u64> {
    let date = Duration::try_from_secs_f64(created).ok()?.checked_add(Duration::from_secs(APPLE_EPOCH_SECONDS))?;
    let age = wall.checked_sub(date)?;
    let age = u64::try_from(age.as_nanos()).ok()?;
    now.checked_sub(age)
}

/// A record as the notification reader hands it over.
fn record(id: i64, created: f64) -> Metadata {
    Metadata {
        id,
        application: "org.example.Synthetic".into(),
        created: created.to_bits(),
        created_valid: created.is_finite() && created >= 0.0,
        received: received(created, wall(), NOW),
    }
}

/// Reconciles one snapshot and delivers its events; a full queue ends the lifecycle.
fn reconcile(
    reducer: &mut Notifications,
    records: Vec<Metadata>,
    shared: &mut SharedState,
    tx: &mpsc::SyncSender<NotificationEvent>,
) {
    for event in reducer.reconcile(records, shared) {
        if tx.try_send(event).is_err() {
            reducer.queue_lost(shared);
            return;
        }
    }
}

#[test]
fn history_is_silent_and_wide_ids_have_distinct_lifecycles() {
    let mut shared = SharedState::new();
    let (tx, rx) = mpsc::sync_channel(8);
    let mut reducer = Notifications::new();
    reconcile(&mut reducer, vec![record(1, 99.0)], &mut shared, &tx);
    assert!(rx.try_recv().is_err());
    let wide = i64::from(u32::MAX) + 2;
    reconcile(&mut reducer, vec![record(1, 99.0), record(wide, 99.5)], &mut shared, &tx);
    let NotificationEvent::Raised(event) = rx.try_recv().unwrap() else {
        panic!("raise")
    };
    assert_eq!(event.received, NOW - 500 * MS);
    assert_eq!(event.application, "org.example.Synthetic");
    assert_ne!(event.id, 1);
    reconcile(&mut reducer, vec![record(1, 99.0)], &mut shared, &tx);
    assert!(
        matches!(rx.try_recv().unwrap(), NotificationEvent::Closed { id, generation: 0, .. } if id == event.id)
    );
}

#[test]
fn replacements_close_first_and_permission_recovery_never_replays() {
    let mut shared = SharedState::new();
    let (tx, rx) = mpsc::sync_channel(8);
    let mut reducer = Notifications::new();
    reconcile(&mut reducer, vec![record(7, 98.0)], &mut shared, &tx);
    reconcile(&mut reducer, vec![record(7, 99.5)], &mut shared, &tx);
    let NotificationEvent::Closed { id, .. } = rx.try_recv().unwrap() else {
        panic!("close")
    };
    assert!(matches!(rx.try_recv().unwrap(), NotificationEvent::Raised(event) if event.id == id));
    reducer.disconnect(&mut shared, "permission unavailable");
    let generation = shared.desktop.notification_generation;
    assert_eq!(generation, 1);
    reducer.disconnect(&mut shared, "permission still unavailable");
    assert_eq!(shared.desktop.notification_generation, generation);
    reconcile(&mut reducer, vec![record(7, 99.5), record(9, 99.8)], &mut shared, &tx);
    assert!(rx.try_recv().is_err());
    reconcile(&mut reducer, vec![record(7, 99.5), record(9, 99.8), record(10, 99.9)], &mut shared, &tx);
    assert!(matches!(rx.try_recv().unwrap(), NotificationEvent::Raised(event) if event.generation == generation));
}

#[test]
fn queue_loss_invalidates_even_already_queued_events_and_rebaselines() {
    let mut shared = SharedState::new();
    let (tx, rx) = mpsc::sync_channel(1);
    let mut reducer = Notifications::new();
    reconcile(&mut reducer, vec![], &mut shared, &tx);
    reconcile(&mut reducer, vec![record(1, 99.5), record(2, 99.5)], &mut shared, &tx);
    assert_eq!(shared.desktop.notification_generation, 1);
    assert!(matches!(rx.try_recv().unwrap(), NotificationEvent::Raised(event) if event.generation == 0));
    reconcile(&mut reducer, vec![record(1, 99.5), record(2, 99.5)], &mut shared, &tx);
    assert!(rx.try_recv().is_err());
}

#[test]
fn malformed_and_oversized_snapshots_clear_connected_lifecycles() {
    for records in [
        vec![record(1, 99.0), record(1, 99.0)],
        vec![record(1, f64::NAN)],
        vec![record(-1, 99.0)],
        (0..=MAX_NOTIFICATIONS).map(|id| record(id as i64, 99.0)).collect(),
    ] {
        let mut shared = SharedState::new();
        let (tx, _rx) = mpsc::sync_channel(8);
        let mut reducer = Notifications::new();
        reconcile(&mut reducer, vec![], &mut shared, &tx);
        reconcile(&mut reducer, records, &mut shared, &tx);
        assert_eq!(shared.desktop.notification_generation, 1);
        assert!(!reducer.connected());
    }
}

#[test]
fn future_deliveries_and_unusable_applications_are_not_raised() {
    let mut shared = SharedState::new();
    let (tx, rx) = mpsc::sync_channel(8);
    let mut reducer = Notifications::new();
    reconcile(&mut reducer, vec![], &mut shared, &tx);
    // Created after the wall clock: tracked, never raised.
    reconcile(&mut reducer, vec![record(3, 100.5)], &mut shared, &tx);
    assert!(rx.try_recv().is_err());
    assert!(reducer.connected());
    let mut spaced = record(4, 99.0);
    spaced.application = " padded".into();
    reconcile(&mut reducer, vec![spaced], &mut shared, &tx);
    assert!(!reducer.connected());
    assert_eq!(shared.desktop.notification_status, "macOS notification metadata is ambiguous; lifecycle reset");
}

#[test]
fn a_repeated_snapshot_stays_silent_and_negative_zero_is_zero() {
    let mut shared = SharedState::new();
    let (tx, rx) = mpsc::sync_channel(8);
    let mut reducer = Notifications::new();
    reconcile(&mut reducer, vec![record(3, 0.0), record(4, 50.0)], &mut shared, &tx);
    assert!(rx.try_recv().is_err());
    reconcile(&mut reducer, vec![record(3, 0.0), record(4, 50.0)], &mut shared, &tx);
    assert!(rx.try_recv().is_err());
    reconcile(&mut reducer, vec![record(3, -0.0), record(4, 50.0)], &mut shared, &tx);
    assert!(rx.try_recv().is_err());
    assert_eq!(shared.desktop.notification_generation, 0);
}
