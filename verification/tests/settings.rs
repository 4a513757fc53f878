use skript_lsp::settings::{target_version, AddonSetting, Settings};
use skript_lsp::version::Version;

fn detected() -> Vec<String> {
    vec!["SkBee".to_string(), "skript-reflect".to_string()]
}

#[test]
fn listed_addons_are_wanted_as_listed() {
    let settings = Settings {
        addons: AddonSetting::Named(vec!["SkQuery".to_string()]),
        ..Default::default()
    };
    assert_eq!(settings.wanted_addons(detected()), vec!["SkQuery".to_string()]);
}

#[test]
fn switched_off_addons_want_nothing() {
    let settings = Settings { addons: AddonSetting::Mode("OFF".to_string()), ..Default::default() };
    assert!(settings.addons.is_off());
    assert_eq!(settings.wanted_addons(detected()), Vec::<String>::new());
}

#[test]
fn automatic_addons_are_the_detected_ones() {
    assert_eq!(Settings::default().wanted_addons(detected()), detected());
    let settings = Settings { addons: AddonSetting::Mode("whatever".to_string()), ..Default::default() };
    assert_eq!(settings.wanted_addons(detected()), detected());
}

#[test]
fn the_version_setting_wins_then_the_installed_skript_then_the_database() {
    assert_eq!(target_version(Some("2.8"), Some("2.6.4"), Some("2.9")), Some(Version::new(2, 8, 0)));
    assert_eq!(target_version(None, Some("2.6.4"), Some("2.9")), Some(Version::new(2, 6, 4)));
    assert_eq!(target_version(None, None, Some("2.9")), Some(Version::new(2, 9, 0)));
    assert_eq!(target_version(None, None, None), None);
}

#[test]
fn an_unreadable_version_setting_targets_nothing() {
    assert_eq!(target_version(Some("latest"), Some("2.6.4"), Some("2.9")), None);
}
