use gideon_core::json::Json;
use gideon_core::settings::{
    lenient_bool_false, lenient_bool_locked, lenient_bool_true, lenient_color_post_process,
    lenient_color_profile, lenient_finished_cleanup_hours, lenient_full_refresh_interval,
    lenient_idle_suspend, lenient_library_view, lenient_percent, lenient_profile_name,
    lenient_profiles, lenient_reader_fit, lenient_reader_rotation, lenient_stats_view, opt_bool,
    opt_color_profile, opt_full_refresh_interval, opt_library_view, opt_reader_fit,
    opt_reader_rotation, opt_stats_view, opt_u32, parse_storage_size, split_storage_size,
    ProfileSettings, Settings, StorageSize, DEFAULT_FINISHED_CLEANUP_HOURS,
    DEFAULT_STORAGE_LIMIT_BYTES, FINISHED_CLEANUP_STEPS,
};
use gideon_core::storage::{storage_bytes, SizeUnit};

/// The field of a JSON document, if it has one.
fn field(json: &str, name: &str) -> Option<Json> {
    let document: serde_json::Value = serde_json::from_str(json).unwrap();
    document.get(name).map(Json::from_value)
}

/// What a field reads as, or what the defaults say where it is missing.
fn load<T>(json: &str, name: &str, read: fn(&Json) -> T, default: T) -> T {
    field(json, name).map_or(default, |value| read(&value))
}

/// The size that a text states, its number read as a binary64 number.
fn storage_size(raw: &str) -> Option<u64> {
    let number = split_storage_size(raw)
        .and_then(|parts| parts.number.parse::<f64>().ok())
        .map(f64::to_bits);
    parse_storage_size(raw, number)
}

#[test]
fn defaults_match_bobo_conventions() {
    let s = Settings::default();
    assert_eq!(s.storage_size_limit.bytes(), 2 * 1024 * 1024 * 1024);
    assert_eq!(s.predownload_unread_chapters, 2);
    assert!(s.auto_check_updates);
    assert!(s.source_lists.is_empty());
    assert_eq!(s.profiles, vec!["default"]);
    assert_eq!(s.active_profile, "default");
    assert_eq!(s.reader_fit, "contain");
    assert_eq!(s.reader_rotation, 0);
    assert!(s.reader_rotation_locked);
    assert_eq!(s.color_post_process, "vivid");
    assert_eq!(s.reader_full_refresh_interval, 8);
    assert!(s.wifi_auto_connect);
    assert!(!s.auto_rotate_spreads);
    assert_eq!(s.idle_suspend_minutes, 15);
    assert_eq!(s.finished_cleanup_hours, 48);
    assert_eq!(s.storage_size_limit.bytes(), DEFAULT_STORAGE_LIMIT_BYTES);
    assert!(s.languages.is_empty());
    assert_eq!(s.color_profile, "ink-rust");
    assert_eq!(s.library_view, "list");
    assert_eq!(s.stats_view, "heatmap");
    assert_eq!(s.frontlight_brightness, 20);
    assert_eq!(s.frontlight_warmth, 0);
}

#[test]
fn finished_cleanup_hours_parses_defensively() {
    let load = |json: &str| {
        load(
            json,
            "finished_cleanup_hours",
            lenient_finished_cleanup_hours,
            Settings::default().finished_cleanup_hours,
        )
    };
    assert_eq!(load(r#"{"finished_cleanup_hours": 24}"#), 24);
    assert_eq!(load(r#"{"finished_cleanup_hours": 168}"#), 168);
    assert_eq!(load(r#"{"finished_cleanup_hours": 0}"#), 0, "0 = never");
    // Junk falls back to the default — never to a *shorter* delay, which
    // would delete more than the user ever asked for.
    assert_eq!(load(r#"{"finished_cleanup_hours": -5}"#), 48);
    assert_eq!(load(r#"{"finished_cleanup_hours": "two days"}"#), 48);
    assert_eq!(load(r#"{"finished_cleanup_hours": 1.5}"#), 48);
    assert_eq!(load(r#"{"finished_cleanup_hours": null}"#), 48);
    assert_eq!(load(r#"{"finished_cleanup_hours": 99999999999999}"#), 48);
    assert_eq!(load(r#"{}"#), 48, "an older settings file gets the default");
}

#[test]
fn finished_cleanup_steps_are_usable_as_a_cycle() {
    // The UI cycles through these; they must contain the default (so the
    // current value is always on the wheel) and start at "never".
    assert_eq!(FINISHED_CLEANUP_STEPS[0], 0);
    assert!(FINISHED_CLEANUP_STEPS.contains(&DEFAULT_FINISHED_CLEANUP_HOURS));
    assert!(
        FINISHED_CLEANUP_STEPS.windows(2).all(|w| w[0] < w[1]),
        "steps must be strictly increasing"
    );
}

#[test]
fn idle_suspend_minutes_parses_leniently() {
    let load = |json: &str| {
        load(
            json,
            "idle_suspend_minutes",
            lenient_idle_suspend,
            Settings::default().idle_suspend_minutes,
        )
    };
    assert_eq!(load(r#"{"idle_suspend_minutes": 5}"#), 5);
    assert_eq!(load(r#"{"idle_suspend_minutes": 0}"#), 0, "0 = never");
    // Wrong-typed / negative / missing default to 15.
    assert_eq!(load(r#"{"idle_suspend_minutes": "soon"}"#), 15);
    assert_eq!(load(r#"{"idle_suspend_minutes": -3}"#), 15);
    assert_eq!(load(r#"{}"#), 15);
}

#[test]
fn auto_rotate_spreads_parses_leniently() {
    let load = |json: &str| load(json, "auto_rotate_spreads", lenient_bool_false, false);
    assert!(load(r#"{"auto_rotate_spreads": true}"#));
    assert!(!load(r#"{"auto_rotate_spreads": false}"#));
    // Wrong-typed / missing default to false.
    assert!(!load(r#"{"auto_rotate_spreads": "yes"}"#));
    assert!(!load(r#"{}"#));
}

#[test]
fn wifi_auto_connect_parses_leniently() {
    let load = |json: &str| load(json, "wifi_auto_connect", lenient_bool_true, true);
    assert!(!load(r#"{"wifi_auto_connect": false}"#));
    assert!(load(r#"{"wifi_auto_connect": true}"#));
    // Wrong-typed / missing default to true.
    assert!(load(r#"{"wifi_auto_connect": "no"}"#));
    assert!(load(r#"{}"#));
}

#[test]
fn full_refresh_interval_parses_leniently() {
    let load = |json: &str| {
        load(
            json,
            "reader_full_refresh_interval",
            lenient_full_refresh_interval,
            Settings::default().reader_full_refresh_interval,
        )
    };
    assert_eq!(load(r#"{"reader_full_refresh_interval": 12}"#), 12);
    assert_eq!(load(r#"{"reader_full_refresh_interval": 4}"#), 4);
    assert_eq!(load(r#"{"reader_full_refresh_interval": 24}"#), 24);
    // Out of range, wrong type and missing all fall back to 8.
    assert_eq!(load(r#"{"reader_full_refresh_interval": 1}"#), 8);
    assert_eq!(load(r#"{"reader_full_refresh_interval": 99}"#), 8);
    assert_eq!(load(r#"{"reader_full_refresh_interval": "x"}"#), 8);
    assert_eq!(load(r#"{}"#), 8);
}

#[test]
fn color_post_process_parses_leniently() {
    let load = |json: &str| {
        load(
            json,
            "color_post_process",
            lenient_color_post_process,
            Settings::default().color_post_process,
        )
    };
    assert_eq!(load(r#"{"color_post_process": "standard"}"#), "standard");
    assert_eq!(load(r#"{"color_post_process": "OFF"}"#), "off");
    assert_eq!(load(r#"{"color_post_process": "vivid"}"#), "vivid");
    // Unknown / wrong-typed / missing all fall back to vivid.
    assert_eq!(load(r#"{"color_post_process": "nope"}"#), "vivid");
    assert_eq!(load(r#"{"color_post_process": 5}"#), "vivid");
    assert_eq!(load(r#"{}"#), "vivid");
}

#[test]
fn profiles_parse_leniently() {
    let profiles = |json: &str| {
        load(json, "profiles", lenient_profiles, Settings::default().profiles)
    };
    let active = |json: &str| {
        load(
            json,
            "active_profile",
            lenient_profile_name,
            Settings::default().active_profile,
        )
    };
    // Valid lists pass through; non-string entries are dropped.
    assert_eq!(
        profiles(r#"{"profiles": ["default", "alex"]}"#),
        vec!["default", "alex"]
    );
    assert_eq!(
        profiles(r#"{"profiles": ["default", 42, null, " bo "]}"#),
        vec!["default", "bo"]
    );
    // Empty lists and wrong types fall back to just "default".
    assert_eq!(profiles(r#"{"profiles": []}"#), vec!["default"]);
    assert_eq!(profiles(r#"{"profiles": "alex"}"#), vec!["default"]);
    // Active profile: non-empty strings pass through, the rest means
    // "default".
    assert_eq!(active(r#"{"active_profile": "alex"}"#), "alex");
    assert_eq!(active(r#"{"active_profile": ""}"#), "default");
    assert_eq!(active(r#"{"active_profile": 7}"#), "default");
    assert_eq!(active(r#"{"active_profile": null}"#), "default");
}

#[test]
fn reader_fit_parses_leniently() {
    let load = |json: &str| {
        load(json, "reader_fit", lenient_reader_fit, Settings::default().reader_fit)
    };
    // Valid values pass through (normalized).
    assert_eq!(load(r#"{"reader_fit": "fit-width"}"#), "fit-width");
    assert_eq!(load(r#"{"reader_fit": " FIT-WIDTH "}"#), "fit-width");
    assert_eq!(load(r#"{"reader_fit": "contain"}"#), "contain");
    // Unknown strings are kept (the consumer treats them as contain),
    // wrong types fall back to contain instead of erroring.
    assert_eq!(load(r#"{"reader_fit": "sideways"}"#), "sideways");
    assert_eq!(load(r#"{"reader_fit": 42}"#), "contain");
    assert_eq!(load(r#"{"reader_fit": null}"#), "contain");
}

#[test]
fn reader_rotation_parses_leniently() {
    let load = |json: &str| load(json, "reader_rotation", lenient_reader_rotation, 0);
    assert_eq!(load(r#"{"reader_rotation": 90}"#), 90);
    assert_eq!(load(r#"{"reader_rotation": 180}"#), 180);
    assert_eq!(load(r#"{"reader_rotation": 270}"#), 270);
    assert_eq!(load(r#"{"reader_rotation": 0}"#), 0);
    // Invalid angles and wrong types never error — they mean 0.
    assert_eq!(load(r#"{"reader_rotation": 45}"#), 0);
    assert_eq!(load(r#"{"reader_rotation": -90}"#), 0);
    assert_eq!(load(r#"{"reader_rotation": "90"}"#), 0);
    assert_eq!(load(r#"{"reader_rotation": null}"#), 0);
}

#[test]
fn rotation_lock_parses_leniently() {
    let load = |json: &str| load(json, "reader_rotation_locked", lenient_bool_locked, true);
    assert!(!load(r#"{"reader_rotation_locked": false}"#));
    assert!(load(r#"{"reader_rotation_locked": true}"#));
    // Wrong types and missing values never error — they mean locked.
    assert!(load(r#"{"reader_rotation_locked": "no"}"#));
    assert!(load(r#"{"reader_rotation_locked": 0}"#));
    assert!(load(r#"{"reader_rotation_locked": null}"#));
    assert!(load(r#"{}"#));
}

#[test]
fn the_other_fields_parse_leniently_too() {
    assert_eq!(lenient_percent(&Json::Unsigned(65)), 65);
    assert_eq!(lenient_percent(&Json::Unsigned(100)), 100);
    assert_eq!(lenient_percent(&Json::Unsigned(u64::MAX)), 100);
    assert_eq!(lenient_percent(&Json::Text("50".into())), 0);
    assert_eq!(lenient_stats_view(&Json::Text(" Calendar".into())), "calendar");
    assert_eq!(lenient_stats_view(&Json::Text("heatmap".into())), "heatmap");
    assert_eq!(lenient_stats_view(&Json::Text("grid".into())), "heatmap");
    for palette in ["ink-rust", "indigo", "sumi", "botanical", "mono"] {
        assert_eq!(lenient_color_profile(&Json::Text(palette.into())), palette);
        assert_eq!(
            opt_color_profile(&Json::Text(palette.to_uppercase())).as_deref(),
            Some(palette)
        );
    }
    assert_eq!(lenient_color_profile(&Json::Other), "ink-rust");
    assert_eq!(opt_stats_view(&Json::Text("calendar".into())).as_deref(), Some("calendar"));
    assert_eq!(opt_library_view(&Json::Text("shelf".into())).as_deref(), Some("shelf"));
    assert_eq!(opt_reader_fit(&Json::Text(" X ".into())).as_deref(), Some("x"));
    assert_eq!(opt_reader_rotation(&Json::Unsigned(0)), Some(0));
    assert_eq!(opt_full_refresh_interval(&Json::Unsigned(24)), Some(24));
    assert_eq!(opt_bool(&Json::Bool(true)), Some(true));
    assert_eq!(opt_u32(&Json::Unsigned(u32::MAX as u64)), Some(u32::MAX));
}

#[test]
fn the_cover_shelf_reads_back() {
    // Choosing the shelf must last beyond the next read of the file.
    let read = |word: &str| lenient_library_view(&Json::Text(word.to_string()));
    assert_eq!(read("shelf"), "shelf");
    assert_eq!(read(&read("shelf")), "shelf");
    // And a value from neither vocabulary still lands on the default
    // rather than erroring.
    assert_eq!(read("grid"), "list");
}

#[test]
fn storage_size_parsing() {
    assert_eq!(storage_size("2 GB"), Some(2 * 1024 * 1024 * 1024));
    assert_eq!(storage_size("500 MB"), Some(500 * 1024 * 1024));
    assert_eq!(storage_size("1.5 GB"), Some(1024 * 1024 * 1024 * 3 / 2));
    assert_eq!(storage_size("  2gb "), Some(2 * 1024 * 1024 * 1024));
    assert_eq!(storage_size("0 GB"), None);
    assert_eq!(storage_size("-1 GB"), None);
    assert_eq!(storage_size("lots"), None);
    assert_eq!(storage_size("2 TB"), None);
}

#[test]
fn storage_size_display_round_trips() {
    for size in [
        StorageSize(2 * 1024 * 1024 * 1024),
        StorageSize(500 * 1024 * 1024),
    ] {
        let displayed = size.to_string();
        assert_eq!(
            storage_size(&displayed),
            Some(size.bytes()),
            "{displayed}"
        );
    }
}

#[test]
fn storage_sizes_agree_with_binary64_arithmetic() {
    for number in [
        "1", "0.1", "0.3", "1.1", "3.14159", "2.9999999999999999999", "1e3", "1e-7", "1e-320",
        "17179869183.999", "17179869184", "1e300", "123456789.987654321", "4503599627370497.5",
    ] {
        for (unit, scale) in [("GB", 1024f64 * 1024.0 * 1024.0), ("MB", 1024f64 * 1024.0)] {
            let value: f64 = number.parse().unwrap();
            assert_eq!(
                storage_size(&format!("{number} {unit}")),
                Some((value * scale) as u64),
                "{number} {unit}"
            );
        }
    }
    assert_eq!(storage_size("inf GB"), None);
    assert_eq!(storage_size("nan MB"), None);
    assert_eq!(storage_size("GB"), None);
    assert_eq!(storage_bytes(0, SizeUnit::Gigabytes), None);
    assert_eq!(storage_bytes((-1.0f64).to_bits(), SizeUnit::Gigabytes), None);
    assert_eq!(storage_bytes(2.0f64.to_bits(), SizeUnit::Megabytes), Some(2 << 20));
}

#[test]
fn storage_sizes_are_written_for_people() {
    const GB: u64 = 1024 * 1024 * 1024;
    let written = |bytes: u64| StorageSize(bytes).to_string();
    assert_eq!(written(0), "0 MB");
    assert_eq!(written(500 * 1024 * 1024), "500 MB");
    assert_eq!(written(2 * GB), "2 GB");
    assert_eq!(written(GB / 2 * 3), "1.5 GB");
    assert_eq!(written(GB / 4 * 5), "1.25 GB");
    assert_eq!(written(GB / 4 * 3), "768 MB");
    assert_eq!(written(GB + 1024 * 1024), "1025 MB");
    // What is no whole number of megabytes is rounded down to one.
    assert_eq!(written(GB + 1), "1024 MB");
    // Steps of a hundredth are rounded down to hundredths.
    assert_eq!(written(1_084_479_218), "1 GB");
    assert_eq!(written(GB / 100 * 150), "1.49 GB");
    assert_eq!(written(GB / 100 * 206), "2.05 GB");
    assert_eq!(written(GB / 2 * 5_368_709), "2684354.50 GB");
    // Unless they are whole megabytes, which can be written exactly.
    assert_eq!(written(GB / 1024 * 5_368_709), "5368709 MB");
}

#[test]
fn human_friendly_sizes_survive_reading_and_writing() {
    for text in ["2 GB", "500 MB", "1.5 GB", "10.75 GB", "1 MB"] {
        let size = StorageSize(storage_size(text).unwrap());
        assert_eq!(size.to_string(), text);
    }
}

#[test]
fn whole_megabytes_survive_writing_and_reading() {
    let many = (0..44).map(|shift| 1u64 << shift).chain((1..5000).map(|n| n * 3_518_437_207));
    for megabytes in [7u64, 999, 1536, 1_000_003, 5_368_709].into_iter().chain(many) {
        let bytes = megabytes * 1024 * 1024;
        assert_eq!(storage_size(&StorageSize(bytes).to_string()), Some(bytes));
    }
}

/// A `Settings` with every field moved off its default, standing in for
/// "what a real device has in settings.json before the upgrade".
fn populated_settings() -> Settings {
    Settings {
        source_lists: vec!["https://example.com/index.json".into()],
        languages: vec!["en".into()],
        profiles: vec!["default".into(), "alex".into()],
        active_profile: "alex".into(),
        storage_size_limit: StorageSize(500 * 1024 * 1024),
        predownload_unread_chapters: 5,
        auto_check_updates: false,
        reader_fit: "fit-width".into(),
        reader_rotation: 270,
        reader_rotation_locked: false,
        color_post_process: "standard".into(),
        color_profile: "sumi".into(),
        library_view: "list".into(),
        stats_view: "calendar".into(),
        reader_full_refresh_interval: 20,
        auto_rotate_spreads: true,
        wifi_auto_connect: false,
        idle_suspend_minutes: 5,
        frontlight_brightness: 65,
        frontlight_warmth: 40,
        finished_cleanup_hours: 168,
    }
}

#[test]
fn settings_live_at_fixed_places() {
    assert_eq!(Settings::path("/cfg"), "/cfg/settings.json");
    assert_eq!(Settings::path("/cfg/"), "/cfg/settings.json");
    assert_eq!(Settings::path(""), "settings.json");
    assert_eq!(
        ProfileSettings::path("/books/@alex"),
        "/books/@alex/.gideon/settings.json"
    );
}

#[test]
fn upgrading_a_device_with_no_per_profile_file_changes_nothing() {
    // The migration guarantee. A device in the field has every value in
    // the device-global file and no per-profile file at all; the merged
    // result must be indistinguishable from today's behaviour.
    let device = populated_settings();
    let merged = device.clone().with_profile(&ProfileSettings::default());
    assert_eq!(merged, device, "an upgrade must not lose a single setting");

    // Spelled out for the two the user would notice first.
    assert_eq!(merged.reader_fit, "fit-width");
    assert_eq!(merged.reader_rotation, 270);

    // And the same holds for a fresh install.
    let fresh = Settings::default();
    assert_eq!(
        fresh.clone().with_profile(&ProfileSettings::default()),
        fresh
    );
}

#[test]
fn a_corrupt_per_profile_file_falls_back_instead_of_erroring() {
    let device = populated_settings();
    // Parseable but junk per field: those fields fall back one by one.
    let raw = r#"{
        "reader_fit": 42,
        "reader_rotation": 45,
        "reader_rotation_locked": "no",
        "auto_rotate_spreads": null,
        "reader_full_refresh_interval": 99,
        "color_profile": "chartreuse",
        "library_view": "gallery",
        "predownload_unread_chapters": -1,
        "finished_cleanup_hours": 99999999999999,
        "future_field": {"nested": true}
    }"#;
    let p = ProfileSettings {
        reader_fit: load(raw, "reader_fit", opt_reader_fit, None),
        reader_rotation: load(raw, "reader_rotation", opt_reader_rotation, None),
        reader_rotation_locked: load(raw, "reader_rotation_locked", opt_bool, None),
        auto_rotate_spreads: load(raw, "auto_rotate_spreads", opt_bool, None),
        reader_full_refresh_interval: load(
            raw,
            "reader_full_refresh_interval",
            opt_full_refresh_interval,
            None,
        ),
        color_profile: load(raw, "color_profile", opt_color_profile, None),
        library_view: load(raw, "library_view", opt_library_view, None),
        stats_view: load(raw, "stats_view", opt_stats_view, None),
        predownload_unread_chapters: load(raw, "predownload_unread_chapters", opt_u32, None),
        finished_cleanup_hours: load(raw, "finished_cleanup_hours", opt_u32, None),
    };
    assert_eq!(
        p,
        ProfileSettings::default(),
        "every junk field means unset"
    );
    assert_eq!(device.clone().with_profile(&p), device);

    // A mangled cleanup delay must never shorten: it stays the device's.
    assert_eq!(device.with_profile(&p).finished_cleanup_hours, 168);
}

#[test]
fn two_profiles_hold_different_values_independently() {
    let device = Settings::default();
    let alex = ProfileSettings {
        reader_fit: Some("fit-width".into()),
        reader_rotation: Some(90),
        color_profile: Some("indigo".into()),
        library_view: Some("list".into()),
        ..Default::default()
    };
    let bo = ProfileSettings {
        reader_fit: Some("contain".into()),
        reader_rotation: Some(180),
        color_profile: Some("mono".into()),
        ..Default::default()
    };
    let a = device.clone().with_profile(&alex);
    let b = device.clone().with_profile(&bo);

    assert_eq!(a.reader_fit, "fit-width");
    assert_eq!(b.reader_fit, "contain");
    assert_eq!(a.reader_rotation, 90);
    assert_eq!(b.reader_rotation, 180);
    assert_eq!(a.color_profile, "indigo");
    assert_eq!(b.color_profile, "mono");
    // Bo said nothing about the library view, so the device value stands.
    assert_eq!(a.library_view, "list");
    assert_eq!(b.library_view, device.library_view);
}

#[test]
fn the_overlay_never_touches_device_global_fields() {
    let device = populated_settings();
    // A profile that states everything it possibly can.
    let p = ProfileSettings::from_settings(&Settings::default());
    let merged = device.clone().with_profile(&p);

    assert_eq!(merged.source_lists, device.source_lists);
    assert_eq!(merged.languages, device.languages);
    assert_eq!(merged.profiles, device.profiles);
    assert_eq!(merged.active_profile, device.active_profile);
    assert_eq!(merged.storage_size_limit, device.storage_size_limit);
    assert_eq!(merged.auto_check_updates, device.auto_check_updates);
    assert_eq!(merged.color_post_process, device.color_post_process);
    assert_eq!(merged.wifi_auto_connect, device.wifi_auto_connect);
    assert_eq!(merged.idle_suspend_minutes, device.idle_suspend_minutes);
    assert_eq!(merged.frontlight_brightness, device.frontlight_brightness);
    assert_eq!(merged.frontlight_warmth, device.frontlight_warmth);
    // ...while the personal half did change.
    assert_ne!(merged.reader_fit, device.reader_fit);
}

#[test]
fn from_settings_then_with_profile_round_trips() {
    let personal = populated_settings();
    let p = ProfileSettings::from_settings(&personal);
    // Applied over a completely different device file, the personal
    // values come back exactly.
    let merged = Settings::default().with_profile(&p);
    assert_eq!(merged.reader_fit, personal.reader_fit);
    assert_eq!(merged.reader_rotation, personal.reader_rotation);
    assert_eq!(
        merged.reader_rotation_locked,
        personal.reader_rotation_locked
    );
    assert_eq!(merged.auto_rotate_spreads, personal.auto_rotate_spreads);
    assert_eq!(
        merged.reader_full_refresh_interval,
        personal.reader_full_refresh_interval
    );
    assert_eq!(merged.color_profile, personal.color_profile);
    assert_eq!(merged.library_view, personal.library_view);
    assert_eq!(merged.stats_view, personal.stats_view);
    assert_eq!(
        merged.predownload_unread_chapters,
        personal.predownload_unread_chapters
    );
    assert_eq!(
        merged.finished_cleanup_hours,
        personal.finished_cleanup_hours
    );
    // And saving what came back states the same again.
    assert_eq!(ProfileSettings::from_settings(&merged), p);
    assert_eq!(merged.clone().with_profile(&p), merged);
}

#[test]
fn a_profile_may_state_the_default_value_and_it_sticks() {
    // "Unset" and "set to the default" must be distinguishable: alex
    // explicitly wants rotation 0 even though the device is on 270.
    let p = ProfileSettings {
        reader_rotation: Some(0),
        reader_rotation_locked: Some(true),
        ..Default::default()
    };
    let merged = populated_settings().with_profile(&p);
    assert_eq!(merged.reader_rotation, 0);
    assert!(merged.reader_rotation_locked);
}

#[test]
fn json_values_are_read_for_what_they_are() {
    let json = |text: &str| Json::from_value(&serde_json::from_str(text).unwrap());
    assert_eq!(json("true"), Json::Bool(true));
    assert_eq!(json("18446744073709551615"), Json::Unsigned(u64::MAX));
    assert_eq!(json("-1"), Json::Other);
    assert_eq!(json("1.0"), Json::Other);
    assert_eq!(json("null"), Json::Other);
    assert_eq!(json("{\"a\": 1}"), Json::Other);
    assert_eq!(json("\" x\""), Json::Text(" x".into()));
    assert_eq!(
        json("[\"a\", 1, [\"b\"], null]"),
        Json::List(vec![Some("a".into()), None, None, None])
    );
}
