use skript_lsp::hierarchy::{incoming, outgoing, prepare};
use skript_lsp::index::{Document, Workspace};
use skript_lsp::symbols::{FileSymbols, Reference, Symbol, SymbolKind};
use skript_lsp::text::{Position, Range};

fn span(l0: u32, c0: u32, l1: u32, c1: u32) -> Range {
    Range::new(Position::new(l0, c0), Position::new(l1, c1))
}

fn symbol(kind: SymbolKind, name: &str, range: Range, selection: Range) -> Symbol {
    Symbol {
        kind,
        name: name.to_string(),
        detail: String::new(),
        range,
        selection_range: selection,
        children: Vec::new(),
    }
}

fn call(name: &str, range: Range) -> Reference {
    Reference { kind: SymbolKind::Function, name: name.to_string(), range, name_range: range, scope: None }
}

/// A script with the declarations and references its parse gives.
fn script(uri: &str, text: &str, symbols: Vec<Symbol>, references: Vec<Reference>) -> Document {
    Document::new(uri.to_string(), text.to_string(), FileSymbols { symbols, references })
}

fn workspace(files: Vec<Document>) -> Workspace {
    let mut workspace = Workspace::new();
    for file in files {
        workspace.open(file);
    }
    workspace
}

/// The position of `needle`'s first occurrence, as a cursor would land on it.
fn at(text: &str, needle: &str) -> Position {
    let offset = text.find(needle).expect("the needle is in the source");
    let line = text[..offset].matches('\n').count() as u32;
    let column = offset - text[..offset].rfind('\n').map(|at| at + 1).unwrap_or(0);
    Position::new(line, column as u32)
}

fn function(name: &str, header: u32, end: (u32, u32)) -> Symbol {
    let start = 9;
    symbol(
        SymbolKind::Function,
        name,
        span(header, 0, end.0, end.1),
        span(header, start, header, start + name.len() as u32),
    )
}

fn join_event(from: u32, end: (u32, u32)) -> Symbol {
    symbol(SymbolKind::Event, "join", span(from, 0, end.0, end.1), span(from, 3, from, 7))
}

#[test]
fn an_event_counts_as_a_caller() {
    let text = "function payout(p: player):\n\tstop\n\non join:\n\tpayout(player)\n";
    let workspace = workspace(vec![script(
        "file:///a.sk",
        text,
        vec![function("payout", 0, (1, 5)), join_event(3, (4, 15))],
        vec![call("payout", span(4, 1, 4, 7))],
    )]);
    let document = workspace.get("file:///a.sk").expect("opened");

    let roots = prepare(&workspace, document, at(text, "payout"));
    assert_eq!(roots.len(), 1);

    let callers = incoming(&workspace, &roots[0]);
    assert_eq!(callers.len(), 1);
    // Not a function, but unambiguously the place the call runs from.
    assert_eq!(callers[0].node.symbol.kind, SymbolKind::Event);
    assert_eq!(callers[0].ranges.len(), 1);
}

#[test]
fn two_calls_in_one_trigger_are_one_caller() {
    let text = "function a():\n\tstop\n\non join:\n\ta()\n\ta()\n";
    let workspace = workspace(vec![script(
        "file:///a.sk",
        text,
        vec![function("a", 0, (1, 5)), join_event(3, (5, 4))],
        vec![call("a", span(4, 1, 4, 2)), call("a", span(5, 1, 5, 2))],
    )]);
    let document = workspace.get("file:///a.sk").expect("opened");

    let roots = prepare(&workspace, document, at(text, "a"));
    let callers = incoming(&workspace, &roots[0]);
    assert_eq!(callers.len(), 1, "one node, not one per call site");
    assert_eq!(callers[0].ranges.len(), 2);
}

#[test]
fn calls_are_found_across_files() {
    let a = "function payout():\n\tstop\n";
    let b = "on join:\n\tpayout()\n";
    let workspace = workspace(vec![
        script("file:///a.sk", a, vec![function("payout", 0, (1, 5))], vec![]),
        script("file:///b.sk", b, vec![join_event(0, (1, 9))], vec![call("payout", span(1, 1, 1, 7))]),
    ]);
    let document = workspace.get("file:///a.sk").expect("opened");

    let roots = prepare(&workspace, document, at(a, "payout"));
    let callers = incoming(&workspace, &roots[0]);
    assert_eq!(callers.len(), 1);
    assert_eq!(callers[0].node.document.uri(), "file:///b.sk");
}

#[test]
fn a_local_function_is_not_called_from_another_file() {
    let a = "local function secret():\n\tstop\n";
    let b = "on join:\n\tsecret()\n";
    let secret = symbol(SymbolKind::LocalFunction, "secret", span(0, 0, 1, 5), span(0, 15, 0, 21));
    let workspace = workspace(vec![
        script("file:///a.sk", a, vec![secret], vec![]),
        script("file:///b.sk", b, vec![join_event(0, (1, 9))], vec![call("secret", span(1, 1, 1, 7))]),
    ]);
    let document = workspace.get("file:///a.sk").expect("opened");

    let roots = prepare(&workspace, document, at(a, "secret"));
    assert!(
        incoming(&workspace, &roots[0]).is_empty(),
        "a local function's callers cannot live in another file"
    );
}

#[test]
fn outgoing_lists_what_the_body_calls() {
    let text = "function a():\n\tb()\n\nfunction b():\n\tstop\n";
    let workspace = workspace(vec![script(
        "file:///a.sk",
        text,
        vec![function("a", 0, (1, 4)), function("b", 3, (4, 5))],
        vec![call("b", span(1, 1, 1, 2))],
    )]);
    let document = workspace.get("file:///a.sk").expect("opened");

    let roots = prepare(&workspace, document, at(text, "a"));
    let calls = outgoing(&workspace, &roots[0]);
    assert_eq!(calls.len(), 1);
    assert_eq!(calls[0].node.symbol.name, "b");
}

#[test]
fn outgoing_stops_at_the_function_body() {
    // `c()` is in a sibling function and must not be attributed to `a`.
    let text = "function a():\n\tb()\n\nfunction b():\n\tc()\n\nfunction c():\n\tstop\n";
    let workspace = workspace(vec![script(
        "file:///a.sk",
        text,
        vec![function("a", 0, (1, 4)), function("b", 3, (4, 4)), function("c", 6, (7, 5))],
        vec![call("b", span(1, 1, 1, 2)), call("c", span(4, 1, 4, 2))],
    )]);
    let document = workspace.get("file:///a.sk").expect("opened");

    let roots = prepare(&workspace, document, at(text, "a"));
    let names: Vec<_> = outgoing(&workspace, &roots[0])
        .into_iter()
        .map(|call| call.node.symbol.name.clone())
        .collect();
    assert_eq!(names, vec!["b"]);
}

#[test]
fn a_variable_is_not_callable() {
    let text = "on join:\n\tset {_x} to 1\n";
    let x = Reference {
        kind: SymbolKind::LocalVariable,
        name: "x".to_string(),
        range: span(1, 5, 1, 9),
        name_range: span(1, 7, 1, 8),
        scope: None,
    };
    let workspace = workspace(vec![script("file:///a.sk", text, vec![join_event(0, (1, 14))], vec![x])]);
    let document = workspace.get("file:///a.sk").expect("opened");

    assert!(prepare(&workspace, document, at(text, "{_x}")).is_empty());
}

#[test]
fn the_hierarchy_starts_from_a_call_site_too() {
    let text = "function payout():\n\tstop\n\non join:\n\tpayout()\n";
    let workspace = workspace(vec![script(
        "file:///a.sk",
        text,
        vec![function("payout", 0, (1, 5)), join_event(3, (4, 9))],
        vec![call("payout", span(4, 1, 4, 7))],
    )]);
    let document = workspace.get("file:///a.sk").expect("opened");

    // Line 4 column 1 is the call, not the declaration on line 0.
    let roots = prepare(&workspace, document, Position::new(4, 1));
    assert_eq!(roots.len(), 1);
    assert_eq!(roots[0].symbol.name, "payout");
}
