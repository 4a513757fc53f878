use skript_lsp::completion::signature_parameters;
use skript_lsp::editor::{
    declaration_hover, function_called_on, function_stub, offered_symbols, parameter_hints, symbol_under_cursor,
};
use skript_lsp::index::{Document, Workspace};
use skript_lsp::symbols::{FileSymbols, Reference, Symbol, SymbolKind};
use skript_lsp::text::{Position, Range};

fn range(l0: u32, c0: u32, l1: u32, c1: u32) -> Range {
    Range::new(Position::new(l0, c0), Position::new(l1, c1))
}

fn symbol(kind: SymbolKind, name: &str, detail: &str, selection: Range, children: Vec<Symbol>) -> Symbol {
    Symbol {
        kind,
        name: name.to_string(),
        detail: detail.to_string(),
        range: selection,
        selection_range: selection,
        children,
    }
}

fn reference(kind: SymbolKind, name: &str, at: Range) -> Reference {
    Reference { kind, name: name.to_string(), range: at, name_range: at, scope: None }
}

fn greet() -> Symbol {
    let who = symbol(SymbolKind::LocalVariable, "who", "player", range(0, 15, 0, 18), Vec::new());
    let amount = symbol(SymbolKind::LocalVariable, "amount", "number", range(0, 28, 0, 34), Vec::new());
    let mut function = symbol(SymbolKind::Function, "greet", "(who: player, amount: number) :: text", range(0, 9, 0, 14), vec![who, amount]);
    function.range = range(0, 0, 1, 12);
    function
}

#[test]
fn the_cursor_names_a_renameable_declaration_or_reference() {
    let symbols = FileSymbols {
        symbols: vec![
            greet(),
            symbol(SymbolKind::Event, "join", "", range(3, 3, 3, 7), Vec::new()),
        ],
        references: vec![
            reference(SymbolKind::LocalVariable, "x", range(3, 2, 3, 8)),
            reference(SymbolKind::Function, "greet", range(4, 1, 4, 6)),
        ],
    };
    assert_eq!(symbol_under_cursor(&symbols, Position::new(0, 10)), Some((SymbolKind::Function, "greet".to_string())));
    assert_eq!(symbol_under_cursor(&symbols, Position::new(0, 16)), Some((SymbolKind::LocalVariable, "who".to_string())));
    assert_eq!(symbol_under_cursor(&symbols, Position::new(4, 3)), Some((SymbolKind::Function, "greet".to_string())));
    // An event cannot be renamed, so the reference under it is the answer.
    assert_eq!(symbol_under_cursor(&symbols, Position::new(3, 5)), Some((SymbolKind::LocalVariable, "x".to_string())));
    assert_eq!(symbol_under_cursor(&symbols, Position::new(9, 0)), None);
}

#[test]
fn a_declaration_hover_shows_name_and_detail() {
    assert_eq!(declaration_hover(&greet()), "**greet**  \n`(who: player, amount: number) :: text`");
    let bare = symbol(SymbolKind::Command, "home", "", range(0, 8, 0, 12), Vec::new());
    assert_eq!(declaration_hover(&bare), "**home**");
}

#[test]
fn signature_parameters_come_from_the_declaration() {
    assert_eq!(signature_parameters("(who: player, amount: number) :: text"), vec!["who: player", "amount: number"]);
    assert_eq!(signature_parameters("()"), Vec::<String>::new());
    assert_eq!(signature_parameters("((a, , b"), vec!["a", "b"]);
    assert_eq!(signature_parameters(""), Vec::<String>::new());
}

#[test]
fn the_unknown_function_fix_reads_the_call_on_the_line() {
    let symbols = FileSymbols {
        symbols: Vec::new(),
        references: vec![
            reference(SymbolKind::LocalVariable, "x", range(2, 1, 2, 5)),
            reference(SymbolKind::Function, "gret", range(2, 9, 2, 13)),
            reference(SymbolKind::Function, "later", range(2, 20, 2, 25)),
        ],
    };
    assert_eq!(function_called_on(&symbols, 2), Some("gret".to_string()));
    assert_eq!(function_called_on(&symbols, 3), None);
    assert_eq!(function_stub("gret"), "\nfunction gret():\n\treturn\n");
}

#[test]
fn completion_offers_each_declared_name_once() {
    let mut workspace = Workspace::new();
    for (uri, line) in [("file:///a.sk", 0), ("file:///b.sk", 5)] {
        let symbols = FileSymbols {
            symbols: vec![
                symbol(SymbolKind::GlobalVariable, "score", "0", range(line, 1, line, 6), Vec::new()),
                symbol(SymbolKind::Event, "join", "", range(line + 1, 3, line + 1, 7), Vec::new()),
                symbol(SymbolKind::Command, "home", "", range(line + 2, 8, line + 2, 12), Vec::new()),
            ],
            references: Vec::new(),
        };
        workspace.open(Document::new(uri.to_string(), String::new(), symbols));
    }
    let in_scope = workspace.symbols_in_scope("file:///a.sk");
    let offered: Vec<(SymbolKind, &str)> =
        offered_symbols(&in_scope).into_iter().map(|s| (s.kind, s.name.as_str())).collect();
    assert_eq!(offered, vec![(SymbolKind::GlobalVariable, "score"), (SymbolKind::Command, "home")]);
}

#[test]
fn inlay_hints_label_each_argument_with_its_parameter() {
    let text = "function greet(who: player, amount: number) :: text:\n\treturn \"hi\"\non join:\n\tgreet(player, 3, true)\n";
    let symbols = FileSymbols {
        symbols: vec![greet()],
        references: vec![
            reference(SymbolKind::Function, "greet", range(3, 1, 3, 6)),
            reference(SymbolKind::Function, "missing", range(3, 1, 3, 6)),
        ],
    };
    let mut workspace = Workspace::new();
    workspace.open(Document::new("file:///t.sk".to_string(), text.to_string(), symbols));
    let document = workspace.get("file:///t.sk").unwrap();
    let hints = parameter_hints(&workspace, document, 0, 9);
    let seen: Vec<(u32, u32, &str)> =
        hints.iter().map(|h| (h.position.line, h.position.character, h.label.as_str())).collect();
    assert_eq!(seen, vec![(3, 7, "who:"), (3, 15, "amount:")]);
    assert!(parameter_hints(&workspace, document, 0, 2).is_empty());
}
