use skript_lsp::catalog::Category;
use skript_lsp::skripthub::{category_of, split_patterns};

#[test]
fn splits_on_crlf_too() {
    let patterns = split_patterns("first %player%\r\nsecond %player%\r\n");
    assert_eq!(patterns, vec!["first %player%", "second %player%"]);
}

#[test]
fn drops_blank_padding_lines() {
    assert_eq!(split_patterns("a\n\n\nb\n"), vec!["a", "b"]);
}

#[test]
fn maps_every_syntax_type_the_api_uses() {
    for syntax_type in [
        "expression",
        "effect",
        "condition",
        "event",
        "section",
        "structure",
        "type",
        "function",
    ] {
        assert!(
            category_of(syntax_type).is_some(),
            "{syntax_type} has no category"
        );
    }
    assert!(category_of("something-new").is_none());
}

#[test]
fn syntax_types_ignore_case_and_spacing() {
    assert_eq!(category_of("  Effect "), Some(Category::Effect));
    assert_eq!(category_of("STRUCTURE"), Some(Category::Structure));
    assert_eq!(category_of("effects"), None);
    assert_eq!(category_of(""), None);
}

#[test]
fn a_packed_string_of_one_pattern_is_one_pattern() {
    assert_eq!(split_patterns("  open real anvil  "), vec!["open real anvil"]);
    assert!(split_patterns("\r\n\n").is_empty());
}

use skript_lsp::skripthub::{AddonInfo, Record, RequiredPlugin};

fn record(id: i64, title: &str, syntax_type: &str, pattern: &str) -> Record {
    Record {
        id,
        title: title.into(),
        description: None,
        syntax_pattern: Some(pattern.into()),
        syntax_type: syntax_type.into(),
        compatible_addon_version: None,
        compatible_minecraft_version: None,
        required_plugins: Vec::new(),
        addon: None,
        return_type: None,
        event_values: None,
        json_id: None,
        event_cancellable: false,
        keywords: None,
    }
}

/// The SkBee record of the live API: "Open Real Inventory".
fn skbee() -> Record {
    Record {
        description: Some("Open real inventories to players.".into()),
        compatible_addon_version: Some("3.6.0".into()),
        compatible_minecraft_version: Some("".into()),
        addon: Some(AddonInfo { name: "SkBee".into(), link_to_addon: "https://github.com/ShaneBeee/SkBee/".into() }),
        return_type: Some("".into()),
        event_values: Some("".into()),
        json_id: Some("skbee:effect:open_real_inventory".into()),
        keywords: Some("".into()),
        ..record(
            11919,
            "Open Real Inventory",
            "effect",
            "open real anvil [inventory] to %players%\nopen real loom [inventory] to %players%",
        )
    }
}

#[test]
fn converts_a_real_record() {
    let (category, entry) = skbee().into_entry().unwrap();
    assert_eq!(category, Category::Effect);
    assert_eq!(entry.name, "Open Real Inventory");
    assert_eq!(entry.id, "skbee:effect:open_real_inventory");
    assert_eq!(entry.description, vec!["Open real inventories to players."]);
    let addon = entry.addon.as_ref().expect("addon should be attached");
    assert_eq!(addon.name, "SkBee");
    assert_eq!(addon.since_version.as_deref(), Some("3.6.0"));
    assert!(entry.requirements.is_empty());
    assert!(entry.returns.is_none());
}

#[test]
fn splits_the_packed_pattern_string() {
    let (_, entry) = skbee().into_entry().unwrap();
    assert_eq!(entry.patterns.len(), 2);
}

#[test]
fn carries_no_skript_version() {
    let (_, entry) = skbee().into_entry().unwrap();
    assert!(entry.min_version.is_none());
    assert!(entry.since.first().is_none());
}

#[test]
fn collects_required_plugins_and_minecraft_versions() {
    let mut r = record(1, "T", "effect", "do thing");
    r.compatible_minecraft_version = Some("1.21.2".into());
    r.required_plugins = vec![RequiredPlugin { name: "Citizens".into() }, RequiredPlugin { name: String::new() }];
    r.addon = Some(AddonInfo { name: "A".into(), link_to_addon: String::new() });
    let (_, entry) = r.into_entry().unwrap();
    assert!(entry.requirements.contains(&"Citizens".to_string()));
    assert!(entry.requirements.iter().any(|r| r.contains("1.21.2")));
    assert_eq!(entry.requirements, vec!["Citizens", "Minecraft 1.21.2"]);
}

#[test]
fn skips_records_with_no_pattern() {
    assert!(record(1, "T", "effect", "").into_entry().is_none());
    let mut absent = record(1, "T", "effect", "");
    absent.syntax_pattern = None;
    assert!(absent.into_entry().is_none());
    assert!(record(1, "T", "something-new", "x").into_entry().is_none());
}

#[test]
fn synthesises_an_id_when_json_id_is_absent() {
    let (_, entry) = record(42, "T", "effect", "x").into_entry().unwrap();
    assert_eq!(entry.id, "skripthub:42");
    let mut blank = record(-7, "T", "effect", "x");
    blank.json_id = Some("   ".into());
    assert_eq!(blank.into_entry().unwrap().1.id, "skripthub:-7");
}

#[test]
fn lists_split_on_commas_and_types_become_references() {
    let mut r = record(3, "T", "event", "on thing");
    r.event_values = Some(" player, block ,, ".into());
    r.keywords = Some("a,b".into());
    r.return_type = Some(" number ".into());
    r.event_cancellable = true;
    let (category, entry) = r.into_entry().unwrap();
    assert_eq!(category, Category::Event);
    let values: Vec<&str> = entry.event_values.iter().map(|v| v.name.as_str()).collect();
    assert_eq!(values, vec!["player", "block"]);
    assert_eq!(entry.keywords, vec!["a", "b"]);
    assert_eq!(entry.returns.unwrap().id, "number");
    assert!(entry.cancellable);
}

use skript_lsp::skripthub::addon_firsts;

#[test]
fn lists_addons_by_popularity() {
    let mut quiet = record(1, "a", "effect", "x");
    quiet.addon = Some(AddonInfo { name: "Quiet".into(), link_to_addon: String::new() });
    let mut popular = record(2, "b", "effect", "y");
    popular.addon = Some(AddonInfo { name: "Popular".into(), link_to_addon: String::new() });
    let records = vec![quiet, popular];
    // SkriptHub's usage scores, by record.
    let scores = [1.0f64, 99.0f64];
    let mut addons: Vec<(String, f64)> = addon_firsts(&records)
        .into_iter()
        .map(|i| (records[i].addon.as_ref().unwrap().name.clone(), scores[i]))
        .collect();
    addons.sort_by(|a, b| b.1.total_cmp(&a.1));
    assert_eq!(addons[0].0, "Popular");
    assert_eq!(addons[1].0, "Quiet");
}

#[test]
fn each_addon_is_listed_once_and_unnamed_ones_not_at_all() {
    let named = |id: i64, name: &str| {
        let mut r = record(id, "t", "effect", "x");
        r.addon = Some(AddonInfo { name: name.into(), link_to_addon: String::new() });
        r
    };
    let records = vec![named(1, "A"), record(2, "t", "effect", "x"), named(3, "B"), named(4, "A"), named(5, "")];
    assert_eq!(addon_firsts(&records), vec![0, 2]);
}

use skript_lsp::skripthub::convert_records;

#[test]
fn filters_by_addon() {
    let kept = convert_records(&vec![skbee()], &vec!["SkBee".to_string()]);
    assert_eq!(kept.0.len(), 1);
    let dropped = convert_records(&vec![skbee()], &vec!["SomethingElse".to_string()]);
    assert!(dropped.0.is_empty());
}

#[test]
fn counts_the_kept_records_it_cannot_convert() {
    let mut empty = record(1, "T", "effect", "");
    empty.addon = Some(AddonInfo { name: "SkBee".into(), link_to_addon: String::new() });
    let (entries, skipped) = convert_records(&vec![empty, skbee()], &vec!["SkBee".to_string()]);
    assert_eq!(entries.len(), 1);
    assert_eq!(skipped, 1);
}

use skript_lsp::skripthub::addon_split;

#[test]
fn installed_addons_match_ignoring_case_and_missing_ones_need_a_known_server() {
    let names: Vec<String> = ["SkBee", "Skript", "", "skript-reflect", "Vault"].iter().map(|s| s.to_string()).collect();
    let wanted = vec!["skbee".to_string(), "VAULT".to_string()];
    let (installed, missing) = addon_split(&names, &wanted, true);
    assert_eq!(installed, vec!["SkBee", "Vault"]);
    assert_eq!(missing, Some(vec!["skript-reflect".to_string()]));
    let (installed, missing) = addon_split(&names, &wanted, false);
    assert_eq!(installed, vec!["SkBee", "Vault"]);
    assert_eq!(missing, None, "without a plugins folder no addon is called missing");
}
