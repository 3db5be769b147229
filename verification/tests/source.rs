//! Tests of the deduplicating preference-change source and of event
//! decoding.

use tintanum::preference::alacritty_theme_file;
use tintanum::preference::extract_scheme_preference;
use tintanum::source::collect_changes;
use tintanum::ChangeEvent;
use tintanum::ExtractError;
use tintanum::PreferenceChangeSource;
use tintanum::SchemePreference;

#[test]
fn first_emitted_value_is_the_seed() {
    let out = collect_changes(SchemePreference::Dark, &vec![]);
    assert_eq!(out, vec![SchemePreference::Dark]);
}

#[test]
fn adjacent_duplicates_are_suppressed() {
    let events = vec![
        SchemePreference::Dark,
        SchemePreference::Dark,
        SchemePreference::Light,
        SchemePreference::Light,
        SchemePreference::Dark,
    ];
    let out = collect_changes(SchemePreference::NoPreference, &events);
    assert_eq!(
        out,
        vec![
            SchemePreference::NoPreference,
            SchemePreference::Dark,
            SchemePreference::Light,
            SchemePreference::Dark,
        ]
    );
}

#[test]
fn change_equal_to_seed_is_suppressed() {
    let events = vec![SchemePreference::Dark, SchemePreference::Light];
    let out = collect_changes(SchemePreference::Dark, &events);
    assert_eq!(out, vec![SchemePreference::Dark, SchemePreference::Light]);
}

#[test]
fn step_suppresses_and_emits() {
    let mut source = PreferenceChangeSource::prime(SchemePreference::Light);
    assert_eq!(source.step(SchemePreference::Light), None);
    assert_eq!(source.step(SchemePreference::Dark), Some(SchemePreference::Dark));
    assert_eq!(source.step(SchemePreference::Dark), None);
    assert_eq!(source.step(SchemePreference::Light), Some(SchemePreference::Light));
}

#[test]
fn raw_values_decode_to_preferences() {
    assert_eq!(SchemePreference::from_raw(0), SchemePreference::NoPreference);
    assert_eq!(SchemePreference::from_raw(1), SchemePreference::Dark);
    assert_eq!(SchemePreference::from_raw(2), SchemePreference::Light);
    assert_eq!(SchemePreference::from_raw(7), SchemePreference::NoPreference);
}

#[test]
fn default_preference_is_no_preference() {
    assert_eq!(SchemePreference::default(), SchemePreference::NoPreference);
}

fn event(namespace: &str, key: &str, value: Option<u32>) -> ChangeEvent {
    ChangeEvent { namespace: namespace.to_string(), key: key.to_string(), value }
}

#[test]
fn relevant_event_decodes() {
    let ev = event("org.freedesktop.appearance", "color-scheme", Some(1));
    assert_eq!(extract_scheme_preference(&ev), Ok(SchemePreference::Dark));
}

#[test]
fn unknown_payload_decodes_to_no_preference() {
    let ev = event("org.freedesktop.appearance", "color-scheme", Some(9));
    assert_eq!(extract_scheme_preference(&ev), Ok(SchemePreference::NoPreference));
}

#[test]
fn other_namespace_is_rejected() {
    let ev = event("org.freedesktop.sound", "color-scheme", Some(1));
    assert_eq!(extract_scheme_preference(&ev), Err(ExtractError::WrongSetting));
}

#[test]
fn other_key_is_rejected() {
    let ev = event("org.freedesktop.appearance", "accent-color", Some(1));
    assert_eq!(extract_scheme_preference(&ev), Err(ExtractError::WrongSetting));
}

#[test]
fn malformed_payload_is_rejected() {
    let ev = event("org.freedesktop.appearance", "color-scheme", None);
    assert_eq!(extract_scheme_preference(&ev), Err(ExtractError::BadPayload));
}

#[test]
fn raw_events_are_filtered_decoded_and_deduplicated() {
    let events = vec![
        event("org.freedesktop.appearance", "color-scheme", Some(1)),
        event("org.freedesktop.sound", "color-scheme", Some(2)),
        event("org.freedesktop.appearance", "color-scheme", None),
        event("org.freedesktop.appearance", "color-scheme", Some(1)),
        event("org.freedesktop.appearance", "color-scheme", Some(2)),
    ];
    let out = tintanum::source::collect_scheme_changes(SchemePreference::NoPreference, &events);
    assert_eq!(
        out,
        vec![
            SchemePreference::NoPreference,
            SchemePreference::Dark,
            SchemePreference::Light,
        ]
    );
}

#[test]
fn theme_file_follows_preference() {
    assert_eq!(alacritty_theme_file(SchemePreference::Dark), "theme-dark.yml");
    assert_eq!(alacritty_theme_file(SchemePreference::Light), "theme-light.yml");
    assert_eq!(alacritty_theme_file(SchemePreference::NoPreference), "theme-light.yml");
}
