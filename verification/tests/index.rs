use skript_lsp::index::{is_file_local, kinds_match, Document, Workspace};
use skript_lsp::symbols::{FileSymbols, Reference, Symbol, SymbolKind};
use skript_lsp::text::{Position, Range};

fn range(line: u32, start: u32, end: u32) -> Range {
    Range::new(Position::new(line, start), Position::new(line, end))
}

fn symbol(kind: SymbolKind, name: &str, line: u32) -> Symbol {
    Symbol {
        kind,
        name: name.to_string(),
        detail: String::new(),
        range: range(line, 0, 20),
        selection_range: range(line, 9, 9 + name.len() as u32),
        children: Vec::new(),
    }
}

fn reference(kind: SymbolKind, name: &str, line: u32) -> Reference {
    Reference { kind, name: name.to_string(), range: range(line, 13, 19), name_range: range(line, 13, 19), scope: None }
}

fn doc(uri: &str, text: &str, symbols: Vec<Symbol>, references: Vec<Reference>) -> Document {
    Document::new(uri.to_string(), text.to_string(), FileSymbols { symbols, references })
}

#[test]
fn tracks_documents() {
    let mut workspace = Workspace::new();
    workspace.open(doc("file:///a.sk", "on join:\n\tstop\n", vec![], vec![]));
    assert_eq!(workspace.len(), 1);
    workspace.close("file:///a.sk");
    assert!(workspace.is_empty());
}

#[test]
fn opening_a_document_again_replaces_it() {
    let mut workspace = Workspace::new();
    workspace.open(doc("file:///a.sk", "old", vec![], vec![]));
    workspace.open(doc("file:///a.sk", "new", vec![], vec![]));
    assert_eq!(workspace.len(), 1);
    assert_eq!(workspace.get("file:///a.sk").unwrap().text(), "new");
    assert!(workspace.get("file:///b.sk").is_none());
}

#[test]
fn resolves_a_function_across_files() {
    let mut workspace = Workspace::new();
    workspace.open(doc(
        "file:///lib.sk",
        "function helper():\n\treturn 1\n",
        vec![symbol(SymbolKind::Function, "helper", 0)],
        vec![],
    ));
    workspace.open(doc(
        "file:///use.sk",
        "on join:\n\tset {_x} to helper()\n",
        vec![],
        vec![reference(SymbolKind::Function, "helper", 1)],
    ));
    let definitions = workspace.definitions(SymbolKind::Function, "helper", "file:///use.sk");
    assert_eq!(definitions.len(), 1);
    assert_eq!(definitions[0].0.uri(), "file:///lib.sk");
    let references = workspace.references(SymbolKind::Function, "helper", "file:///use.sk");
    assert_eq!(references.len(), 1);
}

#[test]
fn a_local_function_is_invisible_from_another_file() {
    let mut workspace = Workspace::new();
    workspace.open(doc(
        "file:///lib.sk",
        "local function helper():\n\treturn 1\n",
        vec![symbol(SymbolKind::LocalFunction, "helper", 0)],
        vec![],
    ));
    workspace.open(doc("file:///use.sk", "on join:\n\tset {_x} to helper()\n", vec![], vec![]));
    assert!(workspace.definitions(SymbolKind::Function, "helper", "file:///use.sk").is_empty());
    assert_eq!(workspace.definitions(SymbolKind::Function, "helper", "file:///lib.sk").len(), 1);
    assert_eq!(workspace.symbols_in_scope("file:///use.sk").len(), 0);
    assert_eq!(workspace.symbols_in_scope("file:///lib.sk").len(), 1);
}

#[test]
fn workspace_symbols_match_names_ignoring_case() {
    let mut workspace = Workspace::new();
    workspace.open(doc(
        "file:///lib.sk",
        "",
        vec![symbol(SymbolKind::Function, "giveApple", 0), symbol(SymbolKind::Command, "home", 3)],
        vec![],
    ));
    assert_eq!(workspace.workspace_symbols("APPLE").len(), 1);
    assert_eq!(workspace.workspace_symbols("").len(), 2);
    assert!(workspace.workspace_symbols("zzz").is_empty());
}

#[test]
fn kinds_match_functions_of_either_scope() {
    assert!(kinds_match(SymbolKind::Function, SymbolKind::LocalFunction));
    assert!(!kinds_match(SymbolKind::GlobalVariable, SymbolKind::LocalVariable));
    assert!(kinds_match(SymbolKind::Option, SymbolKind::Option));
    assert!(is_file_local(SymbolKind::Option));
    assert!(!is_file_local(SymbolKind::Function));
}

#[test]
fn lines_of_a_document() {
    let d = doc("file:///a.sk", "one\r\ntwo\n", vec![], vec![]);
    assert_eq!(d.line(0), "one");
    assert_eq!(d.line(1), "two");
    assert_eq!(d.line(2), "");
}
