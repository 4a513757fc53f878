use skript_lsp::entries::{command_entries, entry_hover, hover};
use skript_lsp::catalog::Category;
use skript_lsp::editor::{
    categories_for, closest_function, detail, edit_distance, encloses, enclosing, fragment_start,
    in_command_entry_position, kinds_alike, renameable,
};
use skript_lsp::index::{Document, Workspace};
use skript_lsp::symbols::{FileSymbols, Symbol, SymbolKind};
use skript_lsp::text::{Position, Range};

fn range(l0: u32, c0: u32, l1: u32, c1: u32) -> Range {
    Range::new(Position::new(l0, c0), Position::new(l1, c1))
}

fn function(name: &str, line: u32) -> Symbol {
    Symbol {
        kind: SymbolKind::Function,
        name: name.to_string(),
        detail: "(p: player)".to_string(),
        range: range(line, 0, line + 1, 7),
        selection_range: range(line, 9, line, 9 + name.len() as u32),
        children: Vec::new(),
    }
}

fn workspace_with(symbols: Vec<Symbol>) -> Workspace {
    let mut workspace = Workspace::new();
    workspace.open(Document::new(
        "file:///t.sk".to_string(),
        String::new(),
        FileSymbols { symbols, references: Vec::new() },
    ));
    workspace
}

#[test]
fn completion_context_narrows_by_position() {
    assert_eq!(categories_for("on "), vec![Category::Event]);
    assert!(categories_for("\tif ").contains(&Category::Condition));
    assert!(categories_for("\tsend \"%").contains(&Category::Expression));
    assert!(categories_for("").contains(&Category::Structure));
}

#[test]
fn edit_distance_is_the_usual_one() {
    assert_eq!(edit_distance("kitten", "sitting"), 3);
    assert_eq!(edit_distance("same", "same"), 0);
    assert_eq!(edit_distance("", "abc"), 3);
}

#[test]
fn a_typo_is_suggested_but_an_unrelated_name_is_not() {
    let workspace = workspace_with(vec![function("giveKit", 0), function("teleportHome", 3)]);
    assert_eq!(closest_function(&workspace, "giveKti"), Some("giveKit".to_string()));
    assert_eq!(closest_function(&workspace, "payout"), None);
}

#[test]
fn a_short_name_does_not_match_everything() {
    let workspace = workspace_with(vec![function("ab", 0)]);
    assert_eq!(closest_function(&workspace, "xy"), None);
}

#[test]
fn a_statement_fragment_covers_the_whole_phrase() {
    assert_eq!(fragment_start("\t\tsend m"), 2);
    assert_eq!(fragment_start("send"), 0);
}

#[test]
fn a_nested_fragment_starts_after_its_delimiter() {
    for line in [
        "\tsend \"%pla",
        "\tset {_x} to greet(player, am",
        "\tset {_x} to f(pl",
    ] {
        let start = fragment_start(line);
        assert!(
            !line[start..].contains(['%', '(', ',']),
            "{line:?} -> {:?} still spans a delimiter",
            &line[start..]
        );
    }
    assert_eq!(fragment_start("§ f(  x"), 7);
}

#[test]
fn entries_belong_in_the_command_body_but_not_in_its_trigger() {
    let command = Symbol {
        kind: SymbolKind::Command,
        name: "hello".to_string(),
        detail: "<text>".to_string(),
        range: range(0, 0, 4, 6),
        selection_range: range(0, 8, 0, 14),
        children: vec![
            Symbol {
                kind: SymbolKind::Entry,
                name: "permission".to_string(),
                detail: String::new(),
                range: range(1, 1, 1, 25),
                selection_range: range(1, 1, 1, 11),
                children: Vec::new(),
            },
            Symbol {
                kind: SymbolKind::Entry,
                name: "trigger".to_string(),
                detail: String::new(),
                range: range(2, 1, 4, 6),
                selection_range: range(2, 1, 2, 8),
                children: Vec::new(),
            },
        ],
    };
    // The script also holds `on join:` with `stop` in its body, on lines 6 and 7.
    let event = Symbol {
        kind: SymbolKind::Event,
        name: "join".to_string(),
        detail: String::new(),
        range: range(6, 0, 7, 5),
        selection_range: range(6, 0, 6, 7),
        children: Vec::new(),
    };
    let symbols = FileSymbols { symbols: vec![command, event], references: Vec::new() };
    assert!(in_command_entry_position(&symbols, 1), "the entry line");
    assert!(!in_command_entry_position(&symbols, 3), "inside trigger");
    assert!(!in_command_entry_position(&symbols, 4), "inside trigger");
    assert!(!in_command_entry_position(&symbols, 0), "the header itself");
    assert!(!in_command_entry_position(&symbols, 7), "inside an event");
}

#[test]
fn hierarchy_nodes_read_well() {
    let mut local = function("helper", 0);
    local.kind = SymbolKind::LocalFunction;
    assert_eq!(detail(&local), Some("local \u{b7} (p: player)".to_string()));
    local.detail = String::new();
    assert_eq!(detail(&local), Some("local \u{b7}".to_string()));
    let mut plain = function("f", 0);
    assert_eq!(detail(&plain), Some("(p: player)".to_string()));
    plain.detail = String::new();
    assert_eq!(detail(&plain), None);
}

#[test]
fn ranges_enclose_and_the_outermost_symbol_is_found() {
    assert!(encloses(range(0, 0, 5, 0), range(1, 2, 1, 4)));
    assert!(!encloses(range(1, 3, 5, 0), range(1, 2, 1, 4)));
    let symbols = FileSymbols { symbols: vec![function("a", 0), function("b", 3)], references: Vec::new() };
    assert_eq!(enclosing(&symbols, range(4, 1, 4, 3)).unwrap().name, "b");
    assert!(enclosing(&symbols, range(9, 0, 9, 1)).is_none());
}

#[test]
fn rename_and_kind_rules() {
    assert!(renameable(SymbolKind::Option));
    assert!(!renameable(SymbolKind::Event));
    assert!(kinds_alike(SymbolKind::LocalFunction, SymbolKind::Function));
    assert!(!kinds_alike(SymbolKind::LocalVariable, SymbolKind::GlobalVariable));
}

#[test]
fn hovering_a_command_entry_line_describes_the_entry() {
    let trigger = Symbol {
        kind: SymbolKind::Entry,
        name: "trigger".to_string(),
        detail: String::new(),
        range: range(2, 1, 4, 6),
        selection_range: range(2, 1, 2, 8),
        children: Vec::new(),
    };
    let command = Symbol {
        kind: SymbolKind::Command,
        name: "hello".to_string(),
        detail: String::new(),
        range: range(0, 0, 4, 6),
        selection_range: range(0, 8, 0, 14),
        children: vec![trigger],
    };
    let symbols = FileSymbols { symbols: vec![command], references: Vec::new() };
    let entries = command_entries();
    let card = entry_hover(&entries, &symbols, 2, "\tTrigger:").unwrap();
    assert_eq!(card, hover(&entries[10]));
    assert!(card.starts_with("**trigger** — command entry"));
    assert_eq!(entry_hover(&entries, &symbols, 1, "\tpermission: op"), None);
    assert_eq!(entry_hover(&entries, &symbols, 3, "\tdescription:"), None, "inside the trigger");
    assert_eq!(entry_hover(&entries, &symbols, 0, "description:"), None, "the header line");
}
