use ledalert::engine::{admission, emphasized, keeps_persistent, rule_gate, sweep_on_update, Admission, PulseView, Pulses, Removal, RuleGate, Sweep, MAX_PULSES};
use ledalert::config::{EffectKind, NotificationMode};

const NOW: u64 = 50_000_000_000;
const MS: u64 = 1_000_000;

fn gate(persistent: bool) -> RuleGate {
    RuleGate { notifications: true, minimum_urgency: 0, dark: false, persistent }
}

fn pulse(application: &str, identity: Option<(u64, u32)>, persistent: bool, until: u64) -> PulseView {
    PulseView { application: application.into(), identity, persistent, until }
}

#[test]
fn stale_future_and_unrouted_notifications_light_nothing() {
    let none: Vec<PulseView> = Vec::new();
    let decide = |enabled, received, rule, urgency| admission(enabled, received, NOW, rule, urgency, None, "Signal", &none);
    assert_eq!(decide(true, NOW, Some(gate(false)), 1), Admission::Insert { evict: None });
    assert_eq!(decide(true, NOW - 1000 * MS, Some(gate(false)), 1), Admission::Insert { evict: None });
    assert_eq!(decide(true, NOW - 1000 * MS - 1, Some(gate(false)), 1), Admission::Rejected);
    assert_eq!(decide(true, NOW + 1, Some(gate(false)), 1), Admission::Rejected);
    assert_eq!(decide(false, NOW, Some(gate(false)), 1), Admission::Rejected);
    assert_eq!(decide(true, NOW, None, 1), Admission::Rejected);
    let quiet = RuleGate { notifications: false, ..gate(false) };
    assert_eq!(decide(true, NOW, Some(quiet), 1), Admission::Rejected);
    let critical_only = RuleGate { minimum_urgency: 2, ..gate(false) };
    assert_eq!(decide(true, NOW, Some(critical_only), 1), Admission::Rejected);
    assert_eq!(decide(true, NOW, Some(critical_only), 2), Admission::Insert { evict: None });
    let dark = RuleGate { dark: true, ..gate(false) };
    assert_eq!(decide(true, NOW, Some(dark), 2), Admission::Rejected);
}

#[test]
fn repeated_notifications_update_their_pulse() {
    let pulses = vec![
        pulse("firefox", None, false, NOW + 10),
        pulse("signal", Some((0, 7)), true, NOW - 10),
        pulse("Thunderbird", None, true, NOW - 10),
    ];
    // A burst still lit coalesces, ignoring ASCII case.
    assert_eq!(
        admission(true, NOW, NOW, Some(gate(false)), 1, None, "FireFox", &pulses),
        Admission::Update { index: 0, settled: false }
    );
    // The same desktop notification updates its own pulse.
    assert_eq!(
        admission(true, NOW, NOW, Some(gate(false)), 1, Some((0, 7)), "other", &pulses),
        Admission::Update { index: 1, settled: false }
    );
    // An identity-less persistent pulse whose envelope ended is settled.
    assert_eq!(
        admission(true, NOW, NOW, Some(gate(true)), 1, None, "thunderbird", &pulses),
        Admission::Update { index: 2, settled: true }
    );
    // A finished burst is not continued.
    assert_eq!(
        admission(true, NOW, NOW + 10, Some(gate(false)), 1, None, "firefox", &pulses),
        Admission::Insert { evict: None }
    );
}

#[test]
fn a_full_strip_displaces_only_the_oldest_burst() {
    let mut pulses: Vec<PulseView> = (0..MAX_PULSES).map(|i| pulse(&format!("p{i}"), None, true, NOW)).collect();
    assert_eq!(admission(true, NOW, NOW, Some(gate(false)), 1, None, "new", &pulses), Admission::Rejected);
    pulses[5].persistent = false;
    pulses[9].persistent = false;
    assert_eq!(
        admission(true, NOW, NOW, Some(gate(false)), 1, None, "new", &pulses),
        Admission::Insert { evict: Some(5) }
    );
}

#[test]
fn reconfiguration_keeps_only_still_persistent_routed_pulses() {
    assert!(keeps_persistent(true, Some(gate(true)), 1));
    assert!(!keeps_persistent(false, Some(gate(true)), 1));
    assert!(!keeps_persistent(true, Some(gate(false)), 1));
    assert!(!keeps_persistent(true, None, 1));
    assert!(!keeps_persistent(true, Some(RuleGate { minimum_urgency: 2, ..gate(true) }), 1));
    assert!(!keeps_persistent(true, Some(RuleGate { dark: true, ..gate(true) }), 1));
    assert!(emphasized(2, true));
    assert!(!emphasized(1, true));
    assert!(!emphasized(2, false));
}

#[test]
fn the_pulse_list_stays_bounded_and_drops_what_is_dismissed() {
    let mut pulses = Pulses::new();
    let light = |p: &mut Pulses, app: &str, identity: Option<(u64, u32)>, persistent: bool, rule: usize| {
        p.notify(true, NOW, NOW, Some((rule, gate(persistent))), 1, identity, app, NOW + 500 * MS)
    };
    assert_eq!(light(&mut pulses, "mail", Some((0, 1)), true, 1), Admission::Insert { evict: None });
    assert_eq!(light(&mut pulses, "chat", Some((0, 2)), true, 2), Admission::Insert { evict: None });
    for k in 0..(MAX_PULSES - 2) {
        let app = format!("app{k}");
        assert_eq!(light(&mut pulses, &app, None, false, 0), Admission::Insert { evict: None });
    }
    assert_eq!(pulses.len(), MAX_PULSES);
    // A full list displaces the oldest burst, never a persistent pulse.
    assert_eq!(light(&mut pulses, "new", None, false, 0), Admission::Insert { evict: Some(2) });
    assert_eq!(pulses.len(), MAX_PULSES);
    // The same notification updates its pulse in place.
    assert_eq!(light(&mut pulses, "mail", Some((0, 1)), true, 1), Admission::Update { index: 0, settled: false });
    assert_eq!(pulses.persistent_count(None), 2);
    assert_eq!(pulses.persistent_count(Some(2)), 1);
    pulses.remove_where(Removal::Identity(0, 1));
    assert_eq!(pulses.persistent_count(None), 1);
    assert_eq!(pulses.len(), MAX_PULSES - 1);
    pulses.remove_where(Removal::Transient);
    assert_eq!(pulses.len(), 1);
    pulses.remove_where(Removal::Persistent(Some(5)));
    assert_eq!(pulses.len(), 1);
    pulses.remove_where(Removal::Persistent(Some(2)));
    assert_eq!(pulses.len(), 0);
    assert_eq!(light(&mut pulses, "mail", None, false, 0), Admission::Insert { evict: None });
    pulses.remove_where(Removal::All);
    assert_eq!(pulses.len(), 0);
}

#[test]
fn rule_modes_and_sweeps() {
    let g = rule_gate(true, 1, false, NotificationMode::Persistent);
    assert!(g.persistent && g.notifications && g.minimum_urgency == 1 && !g.dark);
    assert!(!rule_gate(true, 0, true, NotificationMode::OneOff).persistent);
    assert_eq!(sweep_on_update(false, EffectKind::Ripple, false, false), Sweep::Resume);
    assert_eq!(sweep_on_update(true, EffectKind::Ripple, true, true), Sweep::Keep);
    assert_eq!(sweep_on_update(false, EffectKind::Glow, false, true), Sweep::Restart);
    assert_eq!(sweep_on_update(false, EffectKind::Ripple, true, false), Sweep::Restart);
    assert_eq!(sweep_on_update(false, EffectKind::Glow, false, false), Sweep::Keep);
}

#[test]
fn a_full_list_of_persistent_pulses_takes_no_new_one() {
    let mut pulses = Pulses::new();
    for k in 0..MAX_PULSES {
        let app = format!("app{k}");
        pulses.notify(true, NOW, NOW, Some((0, gate(true))), 1, Some((0, k as u32)), &app, NOW + 500 * MS);
    }
    assert_eq!(pulses.persistent_count(None), MAX_PULSES);
    let r = pulses.notify(true, NOW, NOW, Some((0, gate(false))), 1, None, "other", NOW + 500 * MS);
    assert_eq!(r, Admission::Rejected);
    // A known notification updates its pulse; the count stays.
    let r = pulses.notify(true, NOW, NOW, Some((0, gate(true))), 1, Some((0, 5)), "app5", NOW + 900 * MS);
    assert_eq!(r, Admission::Update { index: 5, settled: false });
    assert_eq!(pulses.len(), MAX_PULSES);
}
