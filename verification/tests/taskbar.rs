use ledalert::taskbar::macos::{collect_pins, PinCandidate};
use ledalert::json::{JsonNumber, JsonValue};
use ledalert::taskbar::macos::{dock_pins, local_path, sidebar_pins, validate_id, PinError};
use ledalert::taskbar::windows::{
    canonical_app_id, classify_app, parse_taskband, resolve_taskband, TaskbandError,
};
use ledalert::taskbar::{
    application_at, classify, discover_at, entry_from, nested_entry_candidates, parse_desktop_entry,
    parse_launchers, routing_desktop_file, suggested_color, validate_label, AppKind, MetadataError,
    PinnedApp,
};

const APPLETS: &str = "[Containments][1]
plugin=org.kde.panel

[Containments][1][Applets][2]
plugin=org.kde.plasma.taskmanager

[Containments][1][Applets][2][Configuration][General]
launchers=applications:org.kde.dolphin.desktop,applications:firefox.desktop,file:///home/a/b.desktop,preferred://browser,applications:org.kde.dolphin.desktop

[Containments][1][Applets][3]
plugin=org.kde.plasma.kickoff

[Containments][1][Applets][3][Configuration][General]
launchers=applications:ignored.desktop
";

#[test]
fn launchers_come_from_task_managers_in_order_and_once() {
    let ids = parse_launchers(APPLETS).unwrap();
    assert_eq!(ids, vec!["org.kde.dolphin.desktop".to_string(), "firefox.desktop".to_string()]);
}

#[test]
fn launcher_uris_are_percent_decoded_and_bare_ids_kept() {
    let text = "[Containments][7][Applets][9]\nplugin=org.kde.plasma.icontasks\n[Containments][7][Applets][9][Configuration][General]\nlaunchers=applications:my%20app.desktop,kate.desktop\n";
    let ids = parse_launchers(text).unwrap();
    assert_eq!(ids, vec!["my app.desktop".to_string(), "kate.desktop".to_string()]);
}

#[test]
fn launcher_lists_without_a_task_manager_are_ignored() {
    let text = "[Containments][1][Applets][2][Configuration][General]\nlaunchers=applications:firefox.desktop\n";
    assert_eq!(parse_launchers(text).unwrap(), Vec::<String>::new());
}

#[test]
fn malformed_applets_configuration_fails_the_snapshot() {
    assert_eq!(parse_launchers("[Containments][x][Applets][2]\nplugin=a\n"), Err(MetadataError::MalformedIdentity));
    assert_eq!(parse_launchers("[Containments\n"), Err(MetadataError::MalformedGroup));
    assert_eq!(parse_launchers("a\u{1}b"), Err(MetadataError::ControlCharacters));
    let escape = "[Containments][1][Applets][2]\nplugin=org.kde.plasma.taskmanager\n[Containments][1][Applets][2][Configuration][General]\nlaunchers=a\\\\x.desktop\n";
    assert_eq!(parse_launchers(escape), Err(MetadataError::InvalidListEscape));
    let unsafe_id = "[Containments][1][Applets][2]\nplugin=org.kde.plasma.taskmanager\n[Containments][1][Applets][2][Configuration][General]\nlaunchers=applications:a%2Fb.desktop\n";
    assert_eq!(parse_launchers(unsafe_id), Err(MetadataError::UnsafeDesktopId));
}

#[test]
fn too_many_unique_launchers_are_refused() {
    let mut list = String::new();
    for i in 0..65 {
        list.push_str(&format!("app{i}.desktop,"));
    }
    let text = format!("[Containments][1][Applets][2]\nplugin=org.kde.plasma.taskmanager\n[Containments][1][Applets][2][Configuration][General]\nlaunchers={list}\n");
    assert_eq!(parse_launchers(&text), Err(MetadataError::TooManyLaunchers));
}

#[test]
fn oversized_applets_configuration_is_refused() {
    let text = "#".repeat(1024 * 1024 + 1);
    assert_eq!(parse_launchers(&text), Err(MetadataError::AppletsTooLarge));
}

const SIGNAL: &str = "[Desktop Entry]\nType=Application\nName=Signal\nCategories=Network;InstantMessaging;\nIcon=signal-desktop\nExec=signal-desktop %U\n";

#[test]
fn desktop_entries_give_name_kind_and_declared_icon() {
    let entry = parse_desktop_entry("signal-desktop.desktop", SIGNAL).unwrap().unwrap();
    assert_eq!(entry.app.id, "signal-desktop");
    assert_eq!(entry.app.name, "Signal");
    assert_eq!(entry.app.kind, AppKind::Communication);
    assert!(entry.app.suggested);
    assert!(entry.app.icon.is_none());
    assert_eq!(entry.icon.as_deref(), Some("signal-desktop"));
}

#[test]
fn hidden_and_non_application_entries_give_no_application() {
    let hidden = "[Desktop Entry]\nType=Application\nName=X\nHidden=true\n";
    assert!(parse_desktop_entry("x.desktop", hidden).unwrap().is_none());
    let link = "[Desktop Entry]\nType=Link\nName=X\n";
    assert!(parse_desktop_entry("x.desktop", link).unwrap().is_none());
}

#[test]
fn malformed_desktop_entries_are_refused() {
    let no_name = "[Desktop Entry]\nType=Application\n";
    assert_eq!(parse_desktop_entry("x.desktop", no_name).err(), Some(MetadataError::MissingName));
    let bad_hidden = "[Desktop Entry]\nType=Application\nName=X\nHidden=maybe\n";
    assert_eq!(parse_desktop_entry("x.desktop", bad_hidden).err(), Some(MetadataError::InvalidHidden));
    let duplicate = "[Desktop Entry]\nType=Application\nName=X\nName=Y\n";
    assert_eq!(parse_desktop_entry("x.desktop", duplicate).err(), Some(MetadataError::DuplicateEntryKey));
}

#[test]
fn applications_are_classified_by_identity_and_category() {
    assert_eq!(classify("firefox", ""), AppKind::Browser);
    assert_eq!(classify("x", "Development;"), AppKind::Productivity);
    assert_eq!(classify("x", "Office;"), AppKind::Utility);
    assert_eq!(classify("x", "Utility;"), AppKind::Utility);
    assert_eq!(classify_app("MSEdge", "whatever"), AppKind::Browser);
    assert_eq!(classify_app("x", "slack"), AppKind::Communication);
}

#[test]
fn labels_are_bounded_trimmed_and_free_of_controls() {
    assert!(validate_label("Kate").is_ok());
    assert_eq!(validate_label(" Kate"), Err(MetadataError::InvalidLabel));
    assert_eq!(validate_label(""), Err(MetadataError::InvalidLabel));
    assert_eq!(validate_label(&"a".repeat(129)), Err(MetadataError::InvalidLabel));
}

#[test]
fn routing_ids_name_exactly_one_desktop_file() {
    assert_eq!(routing_desktop_file("firefox").unwrap(), "firefox.desktop");
    assert_eq!(routing_desktop_file("x.desktop").unwrap(), "x.desktop.desktop");
    assert_eq!(routing_desktop_file("a/b"), Err(MetadataError::UnsafeApplicationId));
    assert_eq!(routing_desktop_file(".."), Err(MetadataError::UnsafeApplicationId));
    assert_eq!(routing_desktop_file(" x"), Err(MetadataError::InvalidLabel));
}

#[test]
fn application_lookup_reads_the_masking_entry_once() {
    let found = application_at("signal-desktop", |id: &str| {
        assert_eq!(id, "signal-desktop.desktop");
        Ok(Some(SIGNAL.as_bytes().to_vec()))
    })
    .unwrap()
    .unwrap();
    assert_eq!(found.app.name, "Signal");
    assert!(application_at("missing", |_: &str| Ok(None)).unwrap().is_none());
    assert_eq!(
        application_at("x", |_: &str| Err(MetadataError::EntryUnreadable)).err(),
        Some(MetadataError::EntryUnreadable)
    );
    assert_eq!(
        application_at("x?", |_: &str| Ok(None)).err(),
        Some(MetadataError::UnsafeApplicationId)
    );
}

#[test]
fn oversized_or_non_utf8_entries_are_refused() {
    let big = vec![b'#'; 64 * 1024 + 1];
    assert_eq!(entry_from("x.desktop", Ok(Some(big))).err(), Some(MetadataError::EntryTooLarge));
    assert_eq!(entry_from("x.desktop", Ok(Some(vec![0xff]))).err(), Some(MetadataError::EntryNotUtf8));
}

#[test]
fn discovery_resolves_pins_in_order_and_omits_missing_entries() {
    let apps = discover_at(APPLETS, |id: &str| {
        if id == "org.kde.dolphin.desktop" {
            Ok(Some(b"[Desktop Entry]\nType=Application\nName=Dolphin\nCategories=System;FileManager;\n".to_vec()))
        } else {
            Ok(None)
        }
    })
    .unwrap();
    assert_eq!(apps.len(), 1);
    assert_eq!(apps[0].app.id, "org.kde.dolphin");
    assert_eq!(apps[0].app.name, "Dolphin");
    let failing = discover_at(APPLETS, |_: &str| Ok(Some(b"[Desktop Entry]\nType=Application\n".to_vec())));
    assert_eq!(failing.err(), Some(MetadataError::MissingName));
}

#[test]
fn nested_desktop_ids_probe_only_their_own_prefixes() {
    let candidates = nested_entry_candidates("org-kde-dolphin.desktop");
    assert_eq!(
        candidates,
        vec![
            ("org".to_string(), "kde-dolphin.desktop".to_string()),
            ("org-kde".to_string(), "dolphin.desktop".to_string()),
        ]
    );
    assert!(nested_entry_candidates("-x.desktop").is_empty());
    assert_eq!(nested_entry_candidates("..-x").len(), 0);
}

fn taskband_with(id: &[u8]) -> Vec<u8> {
    let mut extension = vec![0, 0, 0, 0, 0x1d, 0x00, 0xef, 0xbe, 2, 0];
    for &b in id {
        extension.push(b);
        extension.push(0);
    }
    extension.extend_from_slice(&[0, 0, 0, 0]);
    let length = extension.len() as u16;
    extension[0..2].copy_from_slice(&length.to_le_bytes());
    let size = (extension.len() + 2) as u16;
    let mut pidl = size.to_le_bytes().to_vec();
    pidl.extend_from_slice(&extension);
    pidl.extend_from_slice(&[0, 0]);
    let mut bytes = vec![0];
    bytes.extend_from_slice(&(pidl.len() as u32).to_le_bytes());
    bytes.extend_from_slice(&pidl);
    bytes.push(0xff);
    bytes
}

#[test]
fn taskband_records_carry_their_identity_extension() {
    let bytes = taskband_with(b"App");
    let pins = parse_taskband(&bytes).unwrap();
    assert_eq!(pins.len(), 1);
    assert_eq!(pins[0].app_id.as_deref(), Some("App"));
    assert_eq!(pins[0].pidl.len(), bytes.len() - 6);
    assert!(parse_taskband(&[0xff]).unwrap().is_empty());
    assert_eq!(parse_taskband(&[1, 0]).err(), Some(TaskbandError::UnsupportedFraming));
    assert_eq!(parse_taskband(&[0, 1, 0, 0, 0, 0, 0xff]).err(), Some(TaskbandError::InvalidPidlSize));
    assert_eq!(parse_taskband(&[0, 4, 0, 0, 0, 0, 0xff]).err(), Some(TaskbandError::TruncatedPidl));
}

#[test]
fn taskband_identities_are_canonical_and_deduplicated() {
    let mut bytes = taskband_with(b"App");
    bytes.pop();
    bytes.extend_from_slice(&taskband_with(b"App"));
    let apps = resolve_taskband(&bytes, |pin| {
        Some(PinnedApp {
            id: String::from("ignored"),
            name: String::from("Terminal"),
            kind: AppKind::Utility,
            suggested: false,
            icon: None,
        })
        .filter(|_| pin.app_id.is_some())
    })
    .unwrap();
    assert_eq!(apps.len(), 1);
    assert_eq!(apps[0].id, "App");
    assert_eq!(canonical_app_id("*"), None);
    assert_eq!(canonical_app_id("Microsoft.Edge"), Some("Microsoft.Edge"));
    assert_eq!(canonical_app_id(" x"), None);
}

#[test]
fn local_paths_accept_only_local_file_urls_and_absolute_paths() {
    assert_eq!(local_path("file:///Applications/Safari.app/").unwrap(), "/Applications/Safari.app/");
    assert_eq!(local_path("file://localhost/Applications/My%20App.app").unwrap(), "/Applications/My App.app");
    assert_eq!(local_path("/Applications/Mail.app").unwrap(), "/Applications/Mail.app");
    assert_eq!(local_path("file://server/x"), Err(PinError::RemoteHost));
    assert_eq!(local_path("https://example.com/a"), Err(PinError::NotLocal));
    assert_eq!(local_path("file:///a%2"), Err(PinError::IncompleteEscape));
    assert_eq!(local_path("file:///a%zz"), Err(PinError::InvalidEscape));
    assert_eq!(local_path("file://"), Err(PinError::NoLocalPath));
    assert!(validate_id("com.apple.Safari").is_ok());
    assert_eq!(validate_id(" com.apple.Safari"), Err(PinError::UnsafeBundleId));
}

fn text(s: &str) -> JsonValue {
    JsonValue::Text(s.to_string())
}

fn object(fields: Vec<(&str, JsonValue)>) -> JsonValue {
    JsonValue::Object(fields.into_iter().map(|(k, v)| (k.to_string(), v)).collect())
}

fn number(integer: i64, order: u64) -> JsonValue {
    JsonValue::Number(JsonNumber { integer: Some(integer), order: Some(order) })
}

fn tile(kind: &str, id: Option<&str>, url: &str) -> JsonValue {
    let mut data = vec![("file-data", object(vec![("_CFURLString", text(url))]))];
    if let Some(id) = id {
        data.push(("bundle-identifier", text(id)));
    }
    object(vec![("tile-type", text(kind)), ("tile-data", object(data))])
}

#[test]
fn dock_pins_are_file_tiles_with_local_paths_each_identity_once() {
    let root = JsonValue::Array(vec![
        tile("file-tile", Some("com.apple.Safari"), "file:///Applications/Safari.app/"),
        tile("spacer-tile", None, "x"),
        tile("file-tile", Some("com.apple.Safari"), "file:///Applications/Other.app/"),
        tile("file-tile", None, "file:///Applications/Mail.app/"),
    ]);
    let pins = dock_pins(&root).unwrap();
    assert_eq!(pins.len(), 2);
    assert_eq!(pins[0].id.as_deref(), Some("com.apple.Safari"));
    assert_eq!(pins[0].path, "/Applications/Safari.app/");
    assert_eq!(pins[1].id, None);
    assert_eq!(pins[1].path, "/Applications/Mail.app/");
    assert_eq!(dock_pins(&JsonValue::Null).err(), Some(PinError::DockNotArray));
    let untyped = JsonValue::Array(vec![object(vec![])]);
    assert_eq!(dock_pins(&untyped).err(), Some(PinError::NoTileType));
    let remote = JsonValue::Array(vec![tile("file-tile", None, "https://x/y")]);
    assert_eq!(dock_pins(&remote).err(), Some(PinError::InvalidFileUrl));
}

fn record(id: &str, keep: bool, order: Option<u64>) -> JsonValue {
    let mut fields = vec![
        ("type", number(0, 0)),
        ("id", text(id)),
        ("keepInDock", JsonValue::Bool(keep)),
        ("bundleURL", text(&format!("file:///Applications/{id}.app/"))),
    ];
    if let Some(order) = order {
        fields.push(("manualSortOrder", number(order as i64, order)));
    }
    object(fields)
}

#[test]
fn sidebar_pins_follow_complete_manual_order_stably() {
    let root = JsonValue::Array(vec![
        record("b", true, Some(2)),
        record("a", true, Some(1)),
        record("c", false, Some(0)),
        record("d", true, Some(1)),
    ]);
    let pins = sidebar_pins(&root).unwrap();
    let ids: Vec<_> = pins.iter().map(|p| p.id.clone().unwrap()).collect();
    assert_eq!(ids, vec!["a", "d", "b"]);
    assert_eq!(pins[0].path, "/Applications/a.app/");
}

#[test]
fn sidebar_pins_keep_configuration_order_without_complete_ranks() {
    let root = JsonValue::Array(vec![
        record("b", true, Some(2)),
        record("a", true, None),
        record("b", true, Some(0)),
    ]);
    let pins = sidebar_pins(&root).unwrap();
    let ids: Vec<_> = pins.iter().map(|p| p.id.clone().unwrap()).collect();
    assert_eq!(ids, vec!["b", "a"]);
}

#[test]
fn malformed_sidebar_records_fail_the_snapshot() {
    let bad_flag = JsonValue::Array(vec![object(vec![
        ("type", number(0, 0)),
        ("id", text("a")),
        ("keepInDock", text("yes")),
    ])]);
    assert_eq!(sidebar_pins(&bad_flag).err(), Some(PinError::KeepInDockNotBoolean));
    let no_type = JsonValue::Array(vec![object(vec![("id", text("a"))])]);
    assert_eq!(sidebar_pins(&no_type).err(), Some(PinError::TypeNotInteger));
    let other_kind = JsonValue::Array(vec![object(vec![("type", number(1, 1))])]);
    assert!(sidebar_pins(&other_kind).unwrap().is_empty());
    let screens = JsonValue::Array(vec![object(vec![
        ("type", number(0, 0)),
        ("id", text("a")),
        ("pinnedScreens", JsonValue::Array(vec![JsonValue::Bool(true)])),
    ])]);
    assert_eq!(sidebar_pins(&screens).err(), Some(PinError::PinnedScreensEntries));
    let many: Vec<_> = (0..65).map(|i| record(&format!("app{i}"), true, None)).collect();
    assert_eq!(sidebar_pins(&JsonValue::Array(many)).err(), Some(PinError::TooManyPins));
}

#[test]
fn pins_resolve_in_order_each_identity_once() {
    let candidates: Vec<PinCandidate> = ["/A.app", "/B.app", "/A2.app", "/missing.app"]
        .iter()
        .map(|p| PinCandidate { id: None, path: p.to_string() })
        .collect();
    let apps = collect_pins(&candidates, |c: &PinCandidate| {
        let id = match c.path.as_str() {
            "/A.app" | "/A2.app" => "com.a",
            "/B.app" => "com.b",
            _ => return Ok(None),
        };
        Ok(Some(PinnedApp { id: id.into(), name: id.into(), kind: AppKind::Utility, suggested: false, icon: None }))
    })
    .unwrap();
    let ids: Vec<_> = apps.iter().map(|a| a.id.clone()).collect();
    assert_eq!(ids, vec!["com.a", "com.b"]);
    let failed = collect_pins(&candidates, |_: &PinCandidate| Err(PinError::LookupFailed));
    assert_eq!(failed.err(), Some(PinError::LookupFailed));
}

#[test]
fn suggested_rules_take_the_icon_color_or_a_color_of_their_kind() {
    let mut entry = parse_desktop_entry("signal-desktop.desktop", SIGNAL).unwrap().unwrap();
    assert_eq!(suggested_color(&entry.app), [85, 170, 150]);
    entry.app.kind = AppKind::Browser;
    assert_eq!(suggested_color(&entry.app), [95, 150, 215]);
    entry.app.kind = AppKind::Productivity;
    assert_eq!(suggested_color(&entry.app), [175, 140, 200]);
    entry.app.kind = AppKind::Utility;
    assert_eq!(suggested_color(&entry.app), [185, 160, 110]);
    entry.app.icon = Some(std::sync::Arc::new(ledalert::app_icons::AppIcon {
        width: 1,
        height: 1,
        rgba: vec![10, 20, 30, 255],
        dominant: [10, 20, 30],
    }));
    assert_eq!(suggested_color(&entry.app), [10, 20, 30]);
}
