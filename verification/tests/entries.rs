use skript_lsp::entries::{command_entries, hover, lookup};

#[test]
fn every_entry_skript_documents_is_present() {
    let command = command_entries();
    for key in [
        "usage",
        "permission",
        "permission message",
        "aliases",
        "executable by",
        "cooldown",
        "cooldown message",
        "cooldown bypass",
        "cooldown storage",
        "trigger",
    ] {
        assert!(lookup(&command, key).is_some(), "missing entry {key:?}");
    }
}

#[test]
fn lookup_ignores_case_and_a_trailing_colon() {
    let command = command_entries();
    assert!(lookup(&command, "Cooldown Message:").is_some());
    assert!(lookup(&command, "  trigger:  ").is_some());
    assert!(lookup(&command, "not an entry").is_none());
}

#[test]
fn the_card_names_the_entry_and_shows_its_example() {
    let command = command_entries();
    let card = hover(lookup(&command, "aliases").unwrap());
    assert_eq!(
        card,
        "**aliases** — command entry\n\nOther names the command answers to, separated by commas.\n\n```skript\naliases: /h, /sethome\n```"
    );
    let trigger = hover(lookup(&command, "trigger").unwrap());
    assert!(!trigger.contains("```"));
}
