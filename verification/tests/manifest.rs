use skript_lsp::manifest::parse;

/// SkBee's real manifest. It has no `plugin.yml` at all.
const SKBEE_PAPER: &str = r#"
main: com.shanebeestudios.skbee.SkBee
name: SkBee
version: '3.6.0'
description: "A simple Skript addon."
api-version: '1.21'
author: ShaneBee
website: https://github.com/ShaneBeee/SkBee
folia-supported: true

dependencies:
  server:
    Skript:
      load: BEFORE
      required: true
    SkQuery:
      load: AFTER
      required: false
"#;

/// skript-reflect's real manifest, in the classic format.
const REFLECT_CLASSIC: &str = r#"
name: skript-reflect
version: 2.5.1
description: Reflection utilities for Skript.
authors: [Bryan Terce, TPGamesNL, 'SkriptLang Team']
website: https://github.com/SkriptLang/skript-reflect
api-version: 1.19
main: com.btk5h.skriptmirror.SkriptMirror
softdepend: [Skript]
loadbefore: [skript-mirror]
"#;

#[test]
fn reads_papers_nested_dependency_block() {
    let manifest = parse(SKBEE_PAPER).expect("SkBee's manifest should parse");
    assert_eq!(manifest.name, "SkBee");
    assert_eq!(manifest.version, "3.6.0");
    assert!(
        manifest.is_skript_addon(),
        "SkBee must be detected. Dependencies found: {:?}",
        manifest.dependencies
    );
    assert!(manifest.dependencies.iter().any(|d| d == "SkQuery"));
}

#[test]
fn reads_the_classic_flow_sequence_form() {
    let manifest = parse(REFLECT_CLASSIC).expect("skript-reflect should parse");
    assert_eq!(manifest.name, "skript-reflect");
    assert_eq!(manifest.version, "2.5.1");
    assert!(manifest.is_skript_addon());
}

#[test]
fn reads_a_block_sequence() {
    let manifest =
        parse("name: Thing\nversion: 1.0\nsoftdepend:\n  - Skript\n  - Vault\n").unwrap();
    assert!(manifest.is_skript_addon());
    assert!(manifest.dependencies.iter().any(|d| d == "Vault"));
}

#[test]
fn a_plugin_that_does_not_depend_on_skript_is_not_an_addon() {
    let manifest = parse("name: LuckPerms\nversion: 5.5.50\nsoftdepend: [Vault]\n").unwrap();
    assert!(!manifest.is_skript_addon());
    assert_eq!(manifest.name, "LuckPerms");
}

#[test]
fn recognises_skript_itself() {
    let manifest = parse("name: Skript\nversion: 2.16.1\n").unwrap();
    assert!(manifest.is_skript_itself());
    assert!(!manifest.is_skript_addon());
}

#[test]
fn strips_quotes_from_scalars() {
    let manifest = parse("name: 'My Plugin'\nversion: \"1.2.3\"\n").unwrap();
    assert_eq!(manifest.name, "My Plugin");
    assert_eq!(manifest.version, "1.2.3");
}

#[test]
fn ignores_comments_but_not_hashes_inside_values() {
    let manifest = parse("name: Thing   # the plugin\nversion: 1.0\n").unwrap();
    assert_eq!(manifest.name, "Thing");

    let manifest = parse("name: C#Plugin\nversion: 1.0\n").unwrap();
    assert_eq!(manifest.name, "C#Plugin");
}

#[test]
fn is_case_insensitive_about_the_skript_dependency() {
    let manifest = parse("name: T\nversion: 1\nsoftdepend: [skript]\n").unwrap();
    assert!(manifest.is_skript_addon());
}

#[test]
fn a_manifest_without_a_name_is_rejected() {
    assert!(parse("version: 1.0\n").is_none());
    assert!(parse("").is_none());
}

#[test]
fn unbuilt_gradle_placeholders_survive_without_confusing_us() {
    let manifest = parse("name: SkBee\nversion: '$version'\n").unwrap();
    assert_eq!(manifest.name, "SkBee");
    assert_eq!(manifest.version, "$version");
}

#[test]
fn a_hash_inside_quotes_is_not_a_comment() {
    let manifest = parse("name: \"A #1\"\nversion: 1\n").unwrap();
    assert_eq!(manifest.name, "A #1");
}

#[test]
fn duplicate_dependencies_are_recorded_once_ignoring_case() {
    let manifest = parse("name: T\ndepend: [Skript, skript]\nsoftdepend:\n  - SKRIPT\n").unwrap();
    assert_eq!(manifest.dependencies, vec!["Skript".to_string()]);
}

#[test]
fn grouping_keys_of_the_nested_block_are_not_plugins() {
    let manifest = parse(SKBEE_PAPER).unwrap();
    assert_eq!(manifest.dependencies, vec!["Skript".to_string(), "SkQuery".to_string()]);
}

#[test]
fn crlf_line_endings_are_read() {
    let manifest = parse("name: Win\r\nversion: 2\r\n").unwrap();
    assert_eq!(manifest.name, "Win");
    assert_eq!(manifest.version, "2");
}
