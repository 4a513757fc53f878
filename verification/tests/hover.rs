use skript_lsp::catalog::Category;
use skript_lsp::docs::{render, summary, Entry, Reference};

fn entry() -> Entry {
    Entry {
        id: "EffGive".into(),
        name: "Give".into(),
        since: vec!["1.0".into()],
        description: vec!["Gives the specified items to a player.".into()],
        patterns: vec!["give %item types% to %players%".into()],
        examples: vec!["give a diamond to player".into()],
        ..Default::default()
    }
}

#[test]
fn renders_the_essentials() {
    let text = render(Category::Effect, &entry());
    assert!(text.contains("**Give**"));
    assert!(text.contains("*effect*"));
    assert!(text.contains("Gives the specified items"));
    assert!(text.contains("give %item types% to %players%"));
    assert!(text.contains("since 1.0"));
    assert!(text.contains("`EffGive`"));
}

#[test]
fn flags_deprecation_prominently() {
    let mut entry = entry();
    entry.deprecated = true;
    entry.deprecation_note = Some("use `give` instead".into());
    let text = render(Category::Effect, &entry);
    assert!(text.contains("Deprecated"));
    assert!(text.contains("use `give` instead"));
}

#[test]
fn shows_event_values_and_cancellability() {
    let mut entry = entry();
    entry.cancellable = true;
    entry.event_values = vec![Reference { id: "block".into(), name: "block".into() }];
    let text = render(Category::Event, &entry);
    assert!(text.contains("`event-block`"));
    assert!(text.contains("cancel event"));
}

#[test]
fn survives_a_completely_empty_entry() {
    let text = render(Category::Expression, &Entry::default());
    assert!(text.contains("*expression*"));
}

#[test]
fn caps_the_number_of_examples() {
    let mut entry = entry();
    entry.examples = (0..10).map(|i| format!("line {i}")).collect();
    let text = render(Category::Effect, &entry);
    assert!(text.contains("line 0"));
    assert!(text.contains("line 1"));
    assert!(!text.contains("line 2"));
}

#[test]
fn renders_the_whole_card_exactly() {
    let mut entry = entry();
    entry.returns = Some(Reference { id: "number".into(), name: String::new() });
    entry.requirements = vec!["Vault".into(), "Minecraft 1.21".into()];
    entry.events = vec![Reference { id: "join".into(), name: "On Join".into() }];
    entry.examples = vec!["give a diamond to player   ".into(), "give 2 stone to player".into(), "x".into()];
    let text = render(Category::Effect, &entry);
    assert_eq!(
        text,
        "**Give**  \n*effect* → `number`\n\nGives the specified items to a player.\n\n**Syntax**\n\n```skript\ngive %item types% to %players%\n```\n\n**Only in**: On Join\n\n**Example**\n\n```skript\ngive a diamond to player\ngive 2 stone to player\n```\n\n---\n\nsince 1.0 · requires Vault, Minecraft 1.21 · `EffGive`"
    );
}

#[test]
fn an_unnamed_entry_is_titled_by_its_id_and_an_empty_card_has_no_trailing_space() {
    let entry = Entry { id: "ExprX".into(), ..Default::default() };
    assert_eq!(render(Category::Type, &entry), "**ExprX**  \n*type*\n\n---\n\n`ExprX`");
    assert_eq!(render(Category::Section, &Entry::default()), "****  \n*section*");
}

#[test]
fn a_summary_is_the_first_description_line() {
    let mut entry = entry();
    entry.description = vec!["  First line.  ".into(), "Second.".into()];
    assert_eq!(summary(&entry), "First line.");
    assert_eq!(summary(&Entry::default()), "");
}
