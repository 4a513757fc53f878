use skript_lsp::symbols::{first_line, normalise_variable, variable_kind, FileSymbols, Reference, Symbol, SymbolKind};
use skript_lsp::text::{Position, Range};

fn range(line: u32, start: u32, end: u32) -> Range {
    Range::new(Position::new(line, start), Position::new(line, end))
}

fn symbol(name: &str, selection: Range, children: Vec<Symbol>) -> Symbol {
    Symbol {
        kind: SymbolKind::Section,
        name: name.to_string(),
        detail: String::new(),
        range: selection,
        selection_range: selection,
        children,
    }
}

#[test]
fn strips_braces_and_scope_sigils() {
    assert_eq!(normalise_variable("{_count}"), "count");
    assert_eq!(normalise_variable("{count}"), "count");
    assert_eq!(normalise_variable(" {-ephemeral} "), "ephemeral");
    assert_eq!(normalise_variable("{score::*}"), "score::*");
    assert_eq!(variable_kind("{_x}"), SymbolKind::LocalVariable);
    assert_eq!(variable_kind("{x}"), SymbolKind::GlobalVariable);
    assert_eq!(variable_kind("{-x}"), SymbolKind::GlobalVariable);
}

#[test]
fn the_first_line_is_trimmed() {
    assert_eq!(first_line("  damage of player  \nmore"), "damage of player");
    assert_eq!(first_line(""), "");
}

#[test]
fn flattening_is_pre_order() {
    let tree = FileSymbols {
        symbols: vec![
            symbol("a", range(0, 0, 1), vec![symbol("b", range(1, 0, 1), vec![])]),
            symbol("c", range(2, 0, 1), vec![]),
        ],
        references: Vec::new(),
    };
    let names: Vec<&str> = tree.flat().iter().map(|s| s.name.as_str()).collect();
    assert_eq!(names, ["a", "b", "c"]);
}

#[test]
fn finds_the_declaration_and_reference_under_the_cursor() {
    let tree = FileSymbols {
        symbols: vec![symbol("on join", range(0, 0, 7), vec![symbol("if", range(1, 1, 3), vec![])])],
        references: vec![Reference {
            kind: SymbolKind::LocalVariable,
            name: "x".to_string(),
            range: range(1, 4, 8),
            name_range: range(1, 6, 7),
            scope: None,
        }],
    };
    assert_eq!(tree.declaration_at(Position::new(1, 3)).unwrap().name, "if");
    assert!(tree.declaration_at(Position::new(1, 5)).is_none());
    assert_eq!(tree.reference_at(Position::new(1, 8)).unwrap().name, "x");
    assert!(tree.reference_at(Position::new(2, 0)).is_none());
    assert!(SymbolKind::LocalFunction.is_function());
    assert!(SymbolKind::LocalVariable.is_variable());
    assert!(!SymbolKind::Option.is_variable());
}
