use skript_lsp::catalog::{Category, LineRole};
use skript_lsp::diagnostics::{Options, Severity};
use skript_lsp::docs::{AddonRef, Entry};
use skript_lsp::index::Document;
use skript_lsp::lookup::{check_catalog, hover_text, Catalog};
use skript_lsp::symbols::FileSymbols;
use skript_lsp::version::Version;

fn entry(name: &str, patterns: &[&str]) -> Entry {
    Entry {
        id: name.replace(' ', ""),
        name: name.into(),
        patterns: patterns.iter().map(|p| p.to_string()).collect(),
        ..Default::default()
    }
}

fn from_addon(mut e: Entry, addon: &str, since: Option<&str>) -> Entry {
    e.addon = Some(AddonRef { name: addon.into(), url: String::new(), since_version: since.map(str::to_string) });
    e
}

fn catalog() -> Catalog {
    let mut old = entry("Old Give", &["gift %item types% to %players%"]);
    old.deprecated = true;
    old.deprecation_note = Some("use `give` instead".into());
    let mut newer = entry("Shout", &["shout %text%"]);
    newer.min_version = Some(Version::new(2, 14, 0));
    Catalog::build(vec![
        (Category::Effect, from_addon(entry("Bungee Send", &["send %text% to %player%"]), "SkBee", Some("3.6.0"))),
        (Category::Effect, entry("Message", &["send %text% to %player%"])),
        (Category::Effect, entry("Give", &["give %item types% to %players%"])),
        (Category::Effect, old),
        (Category::Effect, newer),
        (Category::Event, entry("Join", &["[first] join"])),
        (Category::Structure, entry("Command", &["command <.+>"])),
        (Category::Effect, entry("Broken", &["oops (never closed"])),
    ])
}

#[test]
fn an_unparsable_pattern_costs_only_itself() {
    assert_eq!(catalog().unparsable_count(), 1);
}

#[test]
fn a_statement_is_classified_as_an_effect() {
    let c = catalog();
    let (id, _) = c.classify_line("give a diamond to player", LineRole::Statement).unwrap();
    assert_eq!(id.category, Category::Effect);
    assert_eq!(c.entry(id).unwrap().name, "Give");
    assert!(c.classify_line("dance wildly", LineRole::Statement).is_none());
}

#[test]
fn an_event_is_found_inside_its_on_wrapper() {
    let c = catalog();
    let (id, _) = c.classify_line("on first join:", LineRole::TopLevel).unwrap();
    assert_eq!(id.category, Category::Event);
    assert_eq!(c.entry(id).unwrap().name, "Join");
    // A statement line is never an event.
    assert!(c.classify_line("on first join:", LineRole::Statement).is_none());
}

#[test]
fn captures_found_inside_the_wrapper_point_back_into_the_line() {
    let c = Catalog::build(vec![(Category::Event, entry("Click", &["click on %block%"]))]);
    let line = "on cancelled click on stone with priority high:";
    let (_, found) = c.classify_line(line, LineRole::TopLevel).unwrap();
    let capture = &found.captures[0];
    assert_eq!(&line[capture.start..capture.end], "stone");
    assert_eq!(capture.text, "stone");
}

#[test]
fn a_structure_comes_before_an_event_at_the_top_level() {
    let c = catalog();
    let (id, _) = c.classify_line("command /home <text>:", LineRole::TopLevel).unwrap();
    assert_eq!(id.category, Category::Structure);
}

#[test]
fn skript_wins_a_tie_with_an_addon() {
    let c = Catalog::build(vec![
        (Category::Event, from_addon(entry("Proxy Join", &["[first] join"]), "SkBee", None)),
        (Category::Event, entry("Join", &["[first] join"])),
        (Category::Event, from_addon(entry("Server Join", &["[first] join"]), "Other", None)),
    ]);
    let (id, _) = c.classify_line("on join", LineRole::TopLevel).unwrap();
    assert_eq!(c.entry(id).unwrap().name, "Join");
    // An addon's syntax stands when nothing of Skript's ties with it.
    let only_addons = Catalog::build(vec![
        (Category::Event, from_addon(entry("Proxy Join", &["[first] join"]), "SkBee", None)),
        (Category::Event, from_addon(entry("Server Join", &["[first] join"]), "Other", None)),
    ]);
    let (id, _) = only_addons.classify_line("on join", LineRole::TopLevel).unwrap();
    assert_eq!(only_addons.entry(id).unwrap().name, "Proxy Join");
}

#[test]
fn hover_describes_the_line_with_its_notes() {
    let c = catalog().with_target_version(Some(Version::new(2, 10, 0)));
    let text = hover_text(&c, "\tgive a diamond to player", &Vec::new(), true).unwrap();
    assert!(text.starts_with("**Give**"));
    let shout = hover_text(&c, "\tshout \"hi\"", &Vec::new(), true).unwrap();
    assert!(shout.starts_with("⚠️ needs Skript 2.14+\n\n**Shout**"), "{shout}");
    assert_eq!(c.availability(c.classify_line("shout \"x\"", LineRole::Statement).unwrap().0), Some("needs Skript 2.14+".to_string()));
    assert!(hover_text(&c, "\tdance", &Vec::new(), true).is_none());
}

#[test]
fn hover_names_an_addon_the_server_lacks() {
    let c = Catalog::build(vec![(
        Category::Effect,
        from_addon(entry("Open Real Inventory", &["open real anvil to %players%"]), "SkBee", Some("3.6.0")),
    )]);
    let text = hover_text(&c, "\topen real anvil to player", &vec!["Vault".to_string()], true).unwrap();
    assert!(text.starts_with("from SkBee ≥ 3.6.0 — not installed\n\n"), "{text}");
    let installed = hover_text(&c, "\topen real anvil to player", &vec!["skbee".to_string()], true).unwrap();
    assert!(installed.starts_with("from SkBee ≥ 3.6.0\n\n"), "{installed}");
}

fn document(text: &str) -> Document {
    Document::new("file:///t.sk".into(), text.into(), FileSymbols::default())
}

#[test]
fn deprecated_syntax_is_reported() {
    let c = catalog();
    let mut out = Vec::new();
    check_catalog(&document("on join:\n\tgift a diamond to player\n"), &c, None, Options::default(), &mut out);
    assert_eq!(out.len(), 1);
    assert_eq!(out[0].code, "deprecated-syntax");
    assert_eq!(out[0].severity, Severity::Warning);
    assert_eq!(out[0].message, "`Old Give` is deprecated. use `give` instead");
    assert_eq!((out[0].range.start.line, out[0].range.start.character, out[0].range.end.character), (1, 1, 25));
}

#[test]
fn unknown_syntax_is_a_hint_only_when_asked_for() {
    let c = catalog();
    let text = "on join:\n\tdance wildly\n\t# a comment\n###\nprose here\n###\n";
    let mut quiet = Vec::new();
    check_catalog(&document(text), &c, None, Options::default(), &mut quiet);
    assert!(quiet.is_empty());
    let mut loud = Vec::new();
    let options = Options { unknown_syntax: true, ..Options::default() };
    check_catalog(&document(text), &c, None, options, &mut loud);
    assert_eq!(loud.len(), 1);
    assert_eq!(loud[0].code, "unknown-syntax");
    assert_eq!(loud[0].range.start.line, 1);
}

#[test]
fn syntax_of_a_missing_addon_is_named() {
    let c = catalog();
    let rest = Catalog::build(vec![(
        Category::Effect,
        from_addon(entry("Open Real Inventory", &["open real anvil to %players%"]), "SkBee", Some("3.6.0")),
    )]);
    let mut out = Vec::new();
    check_catalog(&document("on join:\n\topen real anvil to player\n"), &c, Some(&rest), Options::default(), &mut out);
    assert_eq!(out.len(), 1);
    assert_eq!(out[0].code, "requires-addon");
    assert_eq!(out[0].message, "This is `SkBee` syntax, and `SkBee` 3.6.0 or newer is not installed on this server.");
}

#[test]
fn no_addon_is_named_when_the_server_was_not_found() {
    let c = catalog();
    let options = Options { unknown_syntax: true, ..Options::default() };
    let mut out = Vec::new();
    check_catalog(&document("on join:\n\topen real anvil to player\n"), &c, None, options, &mut out);
    assert_eq!(out.len(), 1);
    assert_eq!(out[0].code, "unknown-syntax");
}

use skript_lsp::lookup::syntax_completions_for;

#[test]
fn completion_offers_statements_with_core_first_and_labels() {
    let c = catalog().with_target_version(Some(Version::new(2, 10, 0)));
    let offered = syntax_completions_for(&c, "\tsen");
    let labels: Vec<&str> = offered.iter().map(|o| o.label.as_str()).collect();
    assert_eq!(labels, vec!["Bungee Send", "Message", "Give", "Old Give", "Shout", "Broken"]);
    let bungee = &offered[0];
    assert_eq!(bungee.detail, "SkBee · effect · send %text% to %player%");
    assert_eq!(bungee.sort_text, "1Bungee Send");
    assert_eq!(offered[1].sort_text, "0Message");
    let shout = &offered[4];
    assert_eq!(shout.detail, "needs Skript 2.14+ · effect · shout %text%");
    assert_eq!(shout.sort_text, "3Shout");
    assert!(offered[3].deprecated);
    assert_eq!(offered[1].id.category, Category::Effect);
}

#[test]
fn completion_at_the_top_level_offers_structures_then_events() {
    let c = catalog();
    let labels: Vec<String> = syntax_completions_for(&c, "").into_iter().map(|o| o.label).collect();
    assert_eq!(labels, vec!["Command", "Join"]);
    let events: Vec<String> = syntax_completions_for(&c, "on ").into_iter().map(|o| o.label).collect();
    assert_eq!(events, vec!["Join"]);
}

use skript_lsp::convert::{Encoding, LineIndex};
use skript_lsp::semantic::tokens;

#[test]
fn only_the_literal_words_of_a_line_are_coloured() {
    let c = catalog();
    let text = "on join:\n\tgive a diamond to player\n###\ngive a stone to player\n###\n";
    let lines = LineIndex::new(text);
    let data = tokens(&c, text, &FileSymbols::default(), &lines, Encoding::Utf8);
    // The event line's words (`on`, `join:`), then `give` and `to` around the
    // two slots; nothing of the `###` block.
    let spans: Vec<(u32, u32, u32, u32)> = data.iter().map(|t| (t.delta_line, t.delta_start, t.length, t.token_type)).collect();
    assert_eq!(spans, vec![(0, 0, 2, 3), (0, 3, 5, 3), (1, 1, 4, 0), (0, 15, 2, 0)]);
    // Skript's own syntax is the default library.
    assert_eq!(data[1].token_modifiers_bitset, 2);
}

#[test]
fn search_matches_names_and_patterns() {
    let c = catalog();
    assert_eq!(c.search(Category::Structure, "command").len(), 1);
    assert!(c.search(Category::Structure, "zzzz").is_empty());
    let by_pattern: Vec<&str> = c.search(Category::Effect, "GIFT").iter().map(|(_, e)| e.name.as_str()).collect();
    assert_eq!(by_pattern, vec!["Old Give"]);
    assert_eq!(c.search(Category::Effect, "").len(), 6);
}

#[test]
fn classifies_a_fragment_best_first() {
    let c = catalog();
    let (id, _) = c.classify_best("give a diamond to player").expect("`give` should classify");
    assert_eq!(id.category, Category::Effect);
    assert_eq!(c.classify("send \"hi\" to player").len(), 2);
    assert!(c.classify_best("dance").is_none());
}

#[test]
fn entries_are_found_by_name_ignoring_case() {
    let c = catalog();
    let (id, entry) = c.find_by_name("COMMAND").unwrap();
    assert_eq!(id.category, Category::Structure);
    assert_eq!(entry.name, "Command");
    assert!(c.find_by_name("nothing").is_none());
    // Seven of the eight patterns parse.
    assert_eq!(c.pattern_count(), 7);
}
