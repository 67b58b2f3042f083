use ledalert::desktop::linux::{
    application_name, bus_name_application, is_playing, mpris_players, notification_metadata,
    property_application, property_fits, property_text, reconnect_delay, update_lock,
    update_media, BusMessage, MessageKind, NotificationObserver, NotifyCall, INITIAL_BACKOFF,
    MAX_BACKOFF,
};
use ledalert::desktop::{NotificationEvent, SharedState};

const DAEMON: &str = ":1.7";
const NOW: u64 = 1_000_000_000_000;

fn message(kind: MessageKind) -> BusMessage {
    BusMessage {
        kind,
        sender: None,
        destination: None,
        interface: None,
        path: None,
        member: None,
        serial: 0,
        reply_serial: None,
        body_len: 64,
        notify_signature: false,
        notify: None,
        owner_change: None,
        close: None,
        reply_id: None,
    }
}

fn notify(sender: &str, serial: u32, application: &str, urgency: Option<u8>) -> BusMessage {
    let mut m = message(MessageKind::MethodCall);
    m.sender = Some(sender.into());
    m.destination = Some("org.freedesktop.Notifications".into());
    m.interface = Some("org.freedesktop.Notifications".into());
    m.path = Some("/org/freedesktop/Notifications".into());
    m.member = Some("Notify".into());
    m.serial = serial;
    m.notify_signature = true;
    m.notify = Some(NotifyCall {
        application: application.into(),
        desktop_entries: Vec::new(),
        urgencies: urgency.into_iter().collect(),
    });
    m
}

fn reply(destination: &str, serial: u32, id: u32) -> BusMessage {
    let mut m = message(MessageKind::MethodReturn);
    m.sender = Some(DAEMON.into());
    m.destination = Some(destination.into());
    m.reply_serial = Some(serial);
    m.reply_id = Some(id);
    m
}

fn closed(id: u32, reason: u32) -> BusMessage {
    let mut m = message(MessageKind::Signal);
    m.sender = Some(DAEMON.into());
    m.interface = Some("org.freedesktop.Notifications".into());
    m.path = Some("/org/freedesktop/Notifications".into());
    m.member = Some("NotificationClosed".into());
    m.close = Some((id, reason));
    m
}

#[test]
fn application_names_are_visible_trimmed_and_bounded() {
    assert_eq!(application_name("  Firefox\u{200b} ").as_deref(), Some("Firefox"));
    assert_eq!(application_name("\u{202e}\u{1}"), None);
    assert_eq!(application_name(&"é".repeat(100)).unwrap().len(), 128);
    assert_eq!(application_name(&"a".repeat(1025)), None);
}

#[test]
fn replies_raise_the_pending_call_in_the_current_generation() {
    let mut shared = SharedState::new();
    let mut observer = NotificationObserver::new(Some(DAEMON.into()), 0);
    assert!(observer.observe(&notify(":1.9", 5, "Firefox", Some(2)), NOW, &mut shared).is_empty());
    let events = observer.observe(&reply(":1.9", 5, 42), NOW + 1, &mut shared);
    assert_eq!(events.len(), 1);
    let NotificationEvent::Raised(n) = &events[0] else { panic!("expected a raise") };
    assert_eq!((n.id, n.generation, n.urgency, n.received), (42, 0, 2, NOW));
    assert_eq!(n.application, "Firefox");
    // An unrelated reply serial raises nothing.
    assert!(observer.observe(&reply(":1.9", 6, 43), NOW + 2, &mut shared).is_empty());
}

#[test]
fn a_close_before_the_reply_is_replayed_after_the_raise() {
    let mut shared = SharedState::new();
    let mut observer = NotificationObserver::new(Some(DAEMON.into()), 0);
    observer.observe(&notify(":1.9", 5, "Mail", None), NOW, &mut shared);
    let early = observer.observe(&closed(42, 2), NOW + 1, &mut shared);
    assert!(matches!(early[0], NotificationEvent::Closed { generation: 0, id: 42, reason: 2 }));
    let events = observer.observe(&reply(":1.9", 5, 42), NOW + 2, &mut shared);
    assert_eq!(events.len(), 2);
    assert!(matches!(events[1], NotificationEvent::Closed { generation: 0, id: 42, reason: 2 }));
}

#[test]
fn ambiguous_invalid_or_timed_out_calls_reset_the_lifecycle() {
    let mut shared = SharedState::new();
    let mut observer = NotificationObserver::new(Some(DAEMON.into()), 0);
    observer.observe(&notify(":1.9", 5, "A", None), NOW, &mut shared);
    observer.observe(&notify(":1.9", 5, "A", None), NOW, &mut shared);
    assert_eq!(shared.desktop.notification_generation, 1);
    assert_eq!(observer.generation, 1);
    assert!(observer.observe(&reply(":1.9", 5, 42), NOW, &mut shared).is_empty());

    let mut invalid = notify(":1.9", 6, "A", None);
    invalid.body_len = 64 * 1024 + 1;
    observer.observe(&invalid, NOW, &mut shared);
    assert_eq!(shared.desktop.notification_generation, 2);

    observer.observe(&notify(":1.9", 7, "A", None), NOW, &mut shared);
    observer.sweep(NOW + 4_000_000_000, &mut shared);
    assert_eq!(shared.desktop.notification_generation, 2);
    observer.sweep(NOW + 5_000_000_000, &mut shared);
    assert_eq!(shared.desktop.notification_generation, 3);
    assert_eq!(
        shared.desktop.notification_status,
        "Monitoring notifications; reply timed out, lifecycle reset"
    );
}

#[test]
fn a_new_daemon_owner_resets_and_is_trusted_from_then_on() {
    let mut shared = SharedState::new();
    let mut observer = NotificationObserver::new(None, 0);
    // Without a daemon, calls are not tracked.
    observer.observe(&notify(":1.9", 5, "A", None), NOW, &mut shared);
    let mut owner = message(MessageKind::Signal);
    owner.sender = Some("org.freedesktop.DBus".into());
    owner.interface = Some("org.freedesktop.DBus".into());
    owner.path = Some("/org/freedesktop/DBus".into());
    owner.member = Some("NameOwnerChanged".into());
    owner.owner_change = Some(("org.freedesktop.Notifications".into(), String::new(), DAEMON.into()));
    observer.observe(&owner, NOW, &mut shared);
    assert_eq!(observer.owner.as_deref(), Some(DAEMON));
    assert_eq!(shared.desktop.notification_generation, 1);
    observer.observe(&notify(":1.9", 5, "A", None), NOW, &mut shared);
    let events = observer.observe(&reply(":1.9", 5, 9), NOW, &mut shared);
    assert!(matches!(&events[0], NotificationEvent::Raised(n) if n.generation == 1 && n.id == 9));
    // A close from anyone but the owner is ignored.
    let mut forged = closed(9, 1);
    forged.sender = Some(":1.99".into());
    assert!(observer.observe(&forged, NOW, &mut shared).is_empty());
}

#[test]
fn a_full_queue_resets_the_lifecycle() {
    let mut shared = SharedState::new();
    let mut observer = NotificationObserver::new(Some(DAEMON.into()), 0);
    observer.queue_full(&mut shared);
    assert_eq!(observer.generation, 1);
    assert_eq!(
        shared.desktop.notification_status,
        "Monitoring notifications; queue full, lifecycle reset"
    );
}

#[test]
fn desktop_entry_hints_name_the_application_and_urgency_stays_in_range() {
    let mut m = notify(":1.9", 5, "Web Browser", Some(7));
    let meta = notification_metadata(&m, NOW).unwrap();
    assert_eq!((meta.application.as_str(), meta.urgency, meta.received), ("Web Browser", 1, NOW));
    if let Some(call) = m.notify.as_mut() {
        call.desktop_entries = vec!["ignored".into(), " firefox\u{200b}".into()];
        call.urgencies = vec![2, 0];
    }
    let meta = notification_metadata(&m, NOW).unwrap();
    assert_eq!((meta.application.as_str(), meta.urgency), ("firefox", 0));
    // A hint with nothing visible falls back to the call's application name.
    if let Some(call) = m.notify.as_mut() {
        call.desktop_entries = vec!["\u{200b}".into()];
    }
    assert_eq!(notification_metadata(&m, NOW).unwrap().application, "Web Browser");
    // One oversized hint refuses the whole body.
    if let Some(call) = m.notify.as_mut() {
        call.desktop_entries = vec!["a".repeat(1025), "firefox".into()];
    }
    assert!(notification_metadata(&m, NOW).is_none());
}

#[test]
fn reconnection_backs_off_and_resets_after_a_stable_connection() {
    assert_eq!(reconnect_delay(INITIAL_BACKOFF, 0), (500_000_000, 1_000_000_000));
    assert_eq!(reconnect_delay(8_000_000_000, 1_000_000_000), (8_000_000_000, MAX_BACKOFF));
    assert_eq!(reconnect_delay(MAX_BACKOFF, 4_999_999_999), (MAX_BACKOFF, MAX_BACKOFF));
    assert_eq!(reconnect_delay(MAX_BACKOFF, 5_000_000_000), (INITIAL_BACKOFF, 1_000_000_000));
}

#[test]
fn screen_saver_state_is_recorded_with_its_time() {
    let mut shared = SharedState::new();
    update_lock(&mut shared, Some(false), 7);
    assert_eq!((shared.desktop.locked, shared.lock_checked), (Some(false), Some(7)));
    assert_eq!(shared.desktop.lock_status, "Session unlocked");
    update_lock(&mut shared, None, 8);
    assert_eq!(shared.desktop.locked, None);
    assert_eq!(shared.desktop.lock_status, "Lock service unavailable or timed out; lighting inhibited");
    update_lock(&mut shared, Some(true), 9);
    assert_eq!(shared.desktop.lock_status, "Session locked; lighting inhibited");
}

#[test]
fn media_players_are_the_first_mpris_names_in_order() {
    let names: Vec<String> = ["org.freedesktop.DBus", "org.mpris.MediaPlayer2.vlc", ":1.5", "org.mpris.MediaPlayer2.firefox.instance1", "org.mpris.MediaPlayer"]
        .iter()
        .map(|s| s.to_string())
        .collect();
    let (players, limited) = mpris_players(&names);
    assert_eq!(players, vec!["org.mpris.MediaPlayer2.firefox.instance1", "org.mpris.MediaPlayer2.vlc"]);
    assert!(!limited);
    let many: Vec<String> = (0..40).rev().map(|i| format!("org.mpris.MediaPlayer2.p{i:02}")).collect();
    let (players, limited) = mpris_players(&many);
    assert_eq!(players.len(), 32);
    assert_eq!(players[0], "org.mpris.MediaPlayer2.p00");
    assert_eq!(players[31], "org.mpris.MediaPlayer2.p31");
    assert!(limited);
}

#[test]
fn player_properties_are_bounded_and_name_the_application() {
    assert!(property_fits(1056));
    assert!(!property_fits(1057));
    assert_eq!(property_text(Some("Playing".into())).as_deref(), Some("Playing"));
    assert_eq!(property_text(Some("x".repeat(1025))), None);
    assert_eq!(property_text(None), None);
    assert!(is_playing(&Some("Playing".into())));
    assert!(!is_playing(&Some("Paused".into())));
    assert!(!is_playing(&None));
    assert_eq!(property_application(&Some(" Firefox ".into())).as_deref(), Some("Firefox"));
    assert_eq!(property_application(&Some("\u{200b}".into())), None);
    assert_eq!(bus_name_application("org.mpris.MediaPlayer2.spotify").as_deref(), Some("spotify"));
    assert_eq!(bus_name_application("org.mpris.MediaPlayer2."), None);
    assert_eq!(bus_name_application("other.player").as_deref(), Some("other.player"));
}

#[test]
fn media_observations_keep_distinct_sorted_applications() {
    let mut shared = SharedState::new();
    update_media(&mut shared, vec!["vlc".into(), "firefox".into(), "vlc".into()], false, false, 3);
    assert_eq!(shared.desktop.playing, vec!["firefox", "vlc"]);
    assert_eq!(shared.desktop.media_status, "Monitoring media playback");
    assert_eq!(shared.media_checked, Some(3));
    update_media(&mut shared, Vec::new(), false, true, 4);
    assert!(shared.desktop.playing.is_empty());
    assert_eq!(shared.desktop.media_status, "Monitoring media; some players unavailable");
    update_media(&mut shared, Vec::new(), true, true, 5);
    assert_eq!(shared.desktop.media_status, "Monitoring media; limited to 32 player services");
}
