use skript_lsp::addons::{detected_addon, DetectedAddon, Detection};
use skript_lsp::manifest::parse;

fn plugin(name: &str, version: &str, is_addon: bool, is_skript: bool) -> DetectedAddon {
    DetectedAddon {
        name: name.to_string(),
        version: version.to_string(),
        path: format!("/srv/plugins/{name}.jar"),
        is_addon,
        is_skript,
    }
}

#[test]
fn lists_only_the_addons() {
    let found = Detection {
        plugins_dir: Some("/srv/plugins".to_string()),
        plugins: vec![
            plugin("LuckPerms", "5.5", false, false),
            plugin("SkBee", "3.6.0", true, false),
            plugin("Skript", "2.16.1", false, true),
        ],
    };
    assert!(found.is_known());
    assert_eq!(found.addon_names(), vec!["SkBee"]);
    assert_eq!(found.addons().len(), 1);
    assert_eq!(found.skript_version(), Some("2.16.1"));
}

#[test]
fn no_plugins_directory_means_we_know_nothing() {
    let found = Detection::default();
    assert!(!found.is_known());
    assert!(found.addon_names().is_empty());
    assert_eq!(found.skript_version(), None);
}

#[test]
fn a_blank_skript_version_is_no_version() {
    let found = Detection { plugins_dir: None, plugins: vec![plugin("Skript", "", false, true)] };
    assert_eq!(found.skript_version(), None);
}

#[test]
fn a_manifest_becomes_a_detected_plugin() {
    let manifest = parse("name: SkBee\nversion: '3.6.0'\ndependencies:\n  server:\n    Skript:\n      required: true\n").unwrap();
    let addon = detected_addon(manifest, "/p/SkBee.jar".to_string());
    assert_eq!(addon.name, "SkBee");
    assert_eq!(addon.version, "3.6.0");
    assert!(addon.is_addon);
    assert!(!addon.is_skript);
}
