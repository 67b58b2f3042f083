use ledalert::config::{anchors_valid, rule_index_for, valid_label, DeviceConfig, DeviceError, Ipv4};
use ledalert::config::{validate_config, RangeUnit, ConfigError, ConfigFacts, PointFault, RuleFacts, ScreenFacts, SegmentFault, CURRENT_CONFIG_VERSION};

#[test]
fn rules_match_case_insensitively_then_fall_back() {
    let rules = [("Firefox", true), ("*", true), ("Slack", false)];
    assert_eq!(rule_index_for(&rules, "firefox"), Some(0));
    assert_eq!(rule_index_for(&rules, "kate"), Some(1));
    // An explicitly disabled matching rule suppresses the source, fallback included.
    assert_eq!(rule_index_for(&rules, "SLACK"), None);
    assert_eq!(rule_index_for(&[("a", true)], "b"), None);
}

#[test]
fn devices_must_be_local_unicast_targets() {
    let device = |a, b, c, d, led_count| DeviceConfig { address: Ipv4(a, b, c, d), led_count };
    assert_eq!(device(192, 168, 1, 20, 600).validate(), Ok(()));
    assert_eq!(device(127, 0, 0, 1, 1).validate(), Ok(()));
    assert_eq!(device(8, 8, 8, 8, 600).validate(), Err(DeviceError::NotLocal));
    assert_eq!(device(10, 0, 0, 255, 600).validate(), Err(DeviceError::NotTarget));
    assert_eq!(device(10, 0, 0, 2, 0).validate(), Err(DeviceError::LedCount));
    assert_eq!(device(10, 0, 0, 2, 8193).validate(), Err(DeviceError::LedCount));
    assert_eq!(DeviceError::LedCount.message(), "LED count must be 1–8192");
}

#[test]
fn labels_and_anchors_follow_the_configuration_rules() {
    assert!(valid_label("Main screen"));
    assert!(!valid_label("  "));
    assert!(!valid_label("x "));
    assert!(anchors_valid(&[], 3, 10));
    assert!(anchors_valid(&[0, 4, 9], 3, 10));
    assert!(!anchors_valid(&[0, 4, 4], 3, 5));
    assert!(!anchors_valid(&[1, 4, 9], 3, 10));
}

fn screen_facts(id: u32) -> ScreenFacts {
    ScreenFacts { id, name: "Main".into(), connector: Some("DP-1".into()), aspect_ok: true, position: None, width_ok: true, angle_ok: true }
}

fn rule_facts(application: &str, screen_id: u32) -> RuleFacts {
    RuleFacts {
        application: application.into(),
        minimum_urgency: 0,
        intensity_ok: true,
        screen_id,
        duration_ok: true,
        position_ok: true,
        range_unit: RangeUnit::Room,
        range_ok: true,
        gradient_len: 0,
        stops_ok: false,
    }
}

fn config_facts() -> ConfigFacts {
    ConfigFacts {
        version: CURRENT_CONFIG_VERSION,
        device: DeviceConfig { address: Ipv4(192, 168, 1, 20), led_count: 60 },
        room_size: (true, true, true),
        outline_ok: true,
        brightness_ok: true,
        screens: vec![screen_facts(1), screen_facts(2)],
        strip_points: 2,
        anchors: vec![0, 59],
        strip_point: None,
        strip_segment: None,
        rules: vec![rule_facts("firefox", 1), rule_facts("*", 2)],
    }
}

#[test]
fn configuration_checks_run_in_order() {
    assert_eq!(validate_config(&config_facts()), Ok(()));
    let mut f = config_facts();
    f.version = 7;
    f.screens.clear();
    assert_eq!(validate_config(&f), Err(ConfigError::Version(7)));
    let mut f = config_facts();
    f.screens.clear();
    assert_eq!(validate_config(&f), Err(ConfigError::ScreenCount));
    let mut f = config_facts();
    f.anchors = vec![0, 58];
    assert_eq!(validate_config(&f), Err(ConfigError::Anchors));
    let mut f = config_facts();
    f.screens.push(screen_facts(1));
    f.rules.push(rule_facts("", 9));
    assert_eq!(validate_config(&f), Err(ConfigError::DuplicateScreen));
    let mut f = config_facts();
    f.screens[1].position = Some(PointFault::Outside);
    f.strip_segment = Some(SegmentFault::TooClose);
    assert_eq!(validate_config(&f), Err(ConfigError::Position(PointFault::Outside)));
    let mut f = config_facts();
    f.strip_segment = Some(SegmentFault::TooClose);
    assert_eq!(validate_config(&f), Err(ConfigError::Segment(SegmentFault::TooClose)));
    let mut f = config_facts();
    f.rules.push(rule_facts("FireFox", 1));
    assert_eq!(validate_config(&f), Err(ConfigError::DuplicateApplication));
    let mut f = config_facts();
    f.rules.push(rule_facts("other", 3));
    assert_eq!(validate_config(&f), Err(ConfigError::MissingScreen));
    let mut f = config_facts();
    f.rules[0].minimum_urgency = 3;
    assert_eq!(validate_config(&f), Err(ConfigError::Urgency));
    let mut f = config_facts();
    f.rules[1].gradient_len = 1;
    f.rules[1].stops_ok = true;
    assert_eq!(validate_config(&f), Err(ConfigError::Gradient));
    f.rules[1].gradient_len = 2;
    assert_eq!(validate_config(&f), Ok(()));
    let mut f = config_facts();
    f.rules[1].range_ok = false;
    f.rules[1].range_unit = RangeUnit::Leds;
    assert_eq!(validate_config(&f), Err(ConfigError::RangeLeds));
    let mut f = config_facts();
    f.device.led_count = 0;
    assert_eq!(validate_config(&f), Err(ConfigError::Device(DeviceError::LedCount)));
}
