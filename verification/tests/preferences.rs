use ledalert::preferences::{Preferences, PreferencesError, GUIDE_STEPS, MAX_PREFERENCES_BYTES};

#[test]
fn preferences_live_beside_the_configuration() {
    assert_eq!(
        Preferences::path_for("/home/user/.config/ledalert/config.json").unwrap(),
        "/home/user/.config/ledalert/config.json.ui.json"
    );
    assert_eq!(Preferences::path_for("config.json").unwrap(), "config.json.ui.json");
    assert_eq!(Preferences::path_for("./setup").unwrap(), "./setup.ui.json");
}

#[test]
fn trailing_separators_and_dots_are_not_file_names() {
    assert_eq!(Preferences::path_for("rooms/main/").unwrap(), "rooms/main.ui.json");
    assert_eq!(Preferences::path_for("rooms/main/.//").unwrap(), "rooms/main.ui.json");
    assert_eq!(Preferences::path_for("a..").unwrap(), "a...ui.json");
}

#[test]
fn paths_without_a_file_name_are_refused() {
    for path in ["", "/", "//", ".", "./", "..", "rooms/..", "/rooms/../"] {
        assert_eq!(Preferences::path_for(path), Err(PreferencesError::NoFileName), "{path:?}");
    }
    assert_eq!(PreferencesError::NoFileName.message(), "Setup needs a filename");
}

#[test]
fn preference_files_are_limited_to_four_kibibytes() {
    assert_eq!(MAX_PREFERENCES_BYTES, 4096);
    assert_eq!(Preferences::check_size(0), Ok(()));
    assert_eq!(Preferences::check_size(4096), Ok(()));
    assert_eq!(Preferences::check_size(4097), Err(PreferencesError::TooLarge));
    assert_eq!(PreferencesError::TooLarge.message(), "Guide preferences exceed 4 KiB");
}

#[test]
fn only_existing_guide_steps_are_accepted() {
    let mut preferences = Preferences::default();
    assert_eq!(preferences.guide_step, 0);
    assert!(!preferences.guide_started && !preferences.setup_complete);
    assert_eq!(preferences.verified_address, None);
    assert_eq!(preferences.validate(), Ok(()));
    preferences.guide_step = GUIDE_STEPS - 1;
    assert_eq!(preferences.validate(), Ok(()));
    preferences.guide_step = GUIDE_STEPS;
    assert_eq!(preferences.validate(), Err(PreferencesError::InvalidStep));
    assert_eq!(PreferencesError::InvalidStep.message(), "Invalid guide step");
}
