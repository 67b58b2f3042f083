use ledalert::config::{DeviceConfig, DeviceError, Ipv4};
use ledalert::guidance::{
    Guidance, GuidanceError, OutputState, StopReason, ACQUISITION_LIMIT, LEASE_DURATION, PRODUCER_LIMIT,
};

const NOW: u64 = 1_000_000_000_000;
const MS: u64 = 1_000_000;

fn device(led_count: usize) -> DeviceConfig {
    DeviceConfig { address: Ipv4(192, 168, 1, 20), led_count }
}

fn output(active: bool) -> OutputState {
    OutputState { failure_epoch: 0, error: None, active }
}

#[test]
fn guidance_lights_only_the_selection_while_the_lease_holds() {
    let mut guidance = Guidance::new();
    guidance.begin(device(5), true, &output(false), NOW).unwrap();
    assert!(guidance.active());
    assert_eq!(guidance.remaining(NOW + 1_000 * MS), LEASE_DURATION - 1_000 * MS);
    assert_eq!(guidance.deadline(), Some(NOW + LEASE_DURATION));
    assert!(guidance.tick(device(5), Some((1, 2)), true, false, &output(true), NOW + 100 * MS));
    let lit: Vec<bool> = guidance.frame().iter().map(|p| *p != [0, 0, 0]).collect();
    assert_eq!(lit, vec![false, true, true, false, false]);
}

#[test]
fn every_rejection_ends_the_lease_and_darkens_the_frame() {
    let mut guidance = Guidance::new();
    guidance.begin(device(5), true, &output(false), NOW).unwrap();
    assert!(guidance.tick(device(5), Some((0, 4)), true, false, &output(true), NOW + 100 * MS));
    assert!(!guidance.tick(device(5), Some((0, 4)), true, false, &output(true), NOW + 100 * MS + PRODUCER_LIMIT));
    assert_eq!(guidance.reason(), Some(StopReason::ProducerStalled));
    assert!(guidance.frame().iter().all(|p| *p == [0, 0, 0]));
    // Later healthy input cannot rearm a consumed lease.
    assert!(!guidance.tick(device(5), Some((0, 4)), true, false, &output(true), NOW + 200 * MS));

    guidance.begin(device(5), true, &output(false), NOW).unwrap();
    assert!(!guidance.tick(device(6), Some((0, 1)), true, false, &output(true), NOW + MS));
    assert_eq!(guidance.reason(), Some(StopReason::TargetChanged));

    guidance.begin(device(5), true, &output(false), NOW).unwrap();
    assert!(!guidance.tick(device(5), Some((3, 5)), true, false, &output(true), NOW + MS));
    assert_eq!(guidance.reason(), Some(StopReason::InvalidSelection));

    guidance.begin(device(5), true, &output(false), NOW).unwrap();
    let mut t = NOW;
    while t + 400 * MS < NOW + ACQUISITION_LIMIT {
        t += 400 * MS;
        assert!(guidance.tick(device(5), Some((0, 0)), true, false, &output(false), t));
    }
    assert!(!guidance.tick(device(5), Some((0, 0)), true, false, &output(false), NOW + ACQUISITION_LIMIT));
    assert_eq!(guidance.reason(), Some(StopReason::OutputFailed));
}

#[test]
fn guidance_needs_a_valid_device_and_an_unlocked_session() {
    let mut guidance = Guidance::new();
    assert_eq!(
        guidance.begin(device(0), true, &output(false), NOW),
        Err(GuidanceError::Device(DeviceError::LedCount))
    );
    assert_eq!(guidance.begin(device(5), false, &output(false), NOW), Err(GuidanceError::Locked));
    assert!(!guidance.active());
    guidance.begin(device(5), true, &output(false), NOW).unwrap();
    guidance.cancel(StopReason::History);
    assert_eq!(guidance.reason(), Some(StopReason::History));
    assert_eq!(StopReason::Expired.message(), "Guidance time is up. Request another session to continue.");
}

#[test]
fn guidance_stays_dim_and_ends_after_two_minutes() {
    let mut guidance = Guidance::new();
    guidance.begin(device(4), true, &output(false), NOW).unwrap();
    let mut t = NOW;
    while t + 400 * MS < NOW + LEASE_DURATION {
        t += 400 * MS;
        assert!(guidance.tick(device(4), Some((0, 3)), true, false, &output(true), t));
        assert!(guidance.frame().iter().all(|p| p.iter().all(|c| *c <= 25)));
    }
    assert!(!guidance.tick(device(4), Some((0, 3)), true, false, &output(true), NOW + LEASE_DURATION));
    assert_eq!(guidance.reason(), Some(StopReason::Expired));
    assert_eq!(LEASE_DURATION, 120 * 1000 * MS);

    guidance.begin(device(4), true, &output(false), NOW).unwrap();
    assert!(!guidance.tick(device(4), Some((0, 3)), true, true, &output(true), NOW + MS));
    assert_eq!(guidance.reason(), Some(StopReason::Quiet));
    guidance.begin(device(4), true, &output(false), NOW).unwrap();
    assert!(!guidance.tick(device(4), Some((0, 3)), false, false, &output(true), NOW + MS));
    assert_eq!(guidance.reason(), Some(StopReason::Locked));
}

#[test]
fn the_latest_grant_bounds_sending() {
    let mut guidance = Guidance::new();
    assert!(guidance.frame().iter().all(|p| *p == [0, 0, 0]));
    guidance.begin(device(3), true, &output(false), NOW).unwrap();
    assert!(guidance.tick(device(3), Some((0, 1)), true, false, &output(true), NOW + 100 * MS));
    let later = NOW + 100_000 * MS;
    guidance.begin(device(3), true, &output(false), later).unwrap();
    assert!(guidance.frame().iter().all(|p| *p == [0, 0, 0]));
    let mut t = later;
    while t + 400 * MS < later + LEASE_DURATION {
        t += 400 * MS;
        assert!(guidance.tick(device(3), Some((2, 2)), true, false, &output(true), t));
    }
    assert!(!guidance.tick(device(3), Some((2, 2)), true, false, &output(true), later + LEASE_DURATION));
    assert!(!guidance.active());
    assert!(guidance.frame().iter().all(|p| *p == [0, 0, 0]));
}
