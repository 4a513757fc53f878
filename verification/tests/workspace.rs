use skript_lsp::index::{Document, Workspace};
use skript_lsp::editor::scoped_symbol_under_cursor;
use skript_lsp::outline::extract;
use skript_lsp::symbols::SymbolKind;
use skript_lsp::syntax::{Field, SyntaxTree, TreeNode};
use skript_lsp::text::{Position, Range};

/// A node to build: kind, rows and columns, text, the field it sits in under
/// its parent, and its children.
struct N {
    kind: &'static str,
    span: (u32, u32, u32, u32),
    text: &'static str,
    field: Option<&'static str>,
    children: Vec<N>,
}

fn n(kind: &'static str, span: (u32, u32, u32, u32), text: &'static str, children: Vec<N>) -> N {
    N { kind, span, text, field: None, children }
}

fn leaf(kind: &'static str, span: (u32, u32, u32, u32), text: &'static str) -> N {
    n(kind, span, text, Vec::new())
}

fn f(name: &'static str, mut node: N) -> N {
    node.field = Some(name);
    node
}

fn add(nodes: &mut Vec<TreeNode>, node: N) -> usize {
    let at = nodes.len();
    let (l0, c0, l1, c1) = node.span;
    nodes.push(TreeNode {
        kind: node.kind.to_string(),
        named: true,
        range: Range::new(Position::new(l0, c0), Position::new(l1, c1)),
        text: node.text.to_string(),
        children: Vec::new(),
        fields: Vec::new(),
    });
    for child in node.children {
        let field = child.field;
        let index = add(nodes, child);
        nodes[at].children.push(index);
        if let Some(name) = field {
            nodes[at].fields.push(Field { name: name.to_string(), node: index });
        }
    }
    at
}

/// A script, with the declarations and references of its parse tree.
fn script(uri: &str, text: &str, structures: Vec<N>) -> Document {
    let mut nodes = Vec::new();
    add(&mut nodes, n("source_file", (0, 0, 9, 0), "", structures));
    let tree = SyntaxTree { nodes, has_error: false };
    Document::new(uri.to_string(), text.to_string(), extract(&tree))
}

/// `on <name>:` with one statement on line 1 holding `inner`.
fn event(name: &'static str, statement: (u32, &'static str), inner: Vec<N>) -> N {
    let line = n("statement", (1, 1, 1, statement.0), statement.1, inner);
    let body = n("block", (0, 8, 1, statement.0), "", vec![line]);
    n("event", (0, 0, 1, statement.0), "", vec![f("name", leaf("event_name", (0, 3, 0, 3 + name.len() as u32), name)), f("body", body)])
}

/// A variable reference `{...}` spanning `from..to` on line 1, its name
/// inside the braces and sigil.
fn variable(text: &'static str, from: u32, to: u32, name: &'static str, name_from: u32) -> N {
    let name_node = leaf("variable_name", (1, name_from, 1, name_from + name.len() as u32), name);
    n("variable", (1, from, 1, to), text, vec![f("name", name_node)])
}

/// `[local] function <name>():` returning on line 1.
fn function(name: &'static str, local: bool) -> N {
    let start = if local { 15 } else { 9 };
    let mut children = Vec::new();
    if local {
        children.push(leaf("keyword", (0, 0, 0, 5), "local"));
    }
    children.push(f("name", leaf("identifier", (0, start, 0, start + name.len() as u32), name)));
    children.push(f("body", n("block", (0, 20, 1, 9), "", vec![leaf("statement", (1, 1, 1, 9), "return 1")])));
    n("function", (0, 0, 1, 9), "", children)
}

fn options(value: &'static str) -> N {
    let entry = n(
        "entry",
        (1, 1, 1, 14),
        "",
        vec![f("key", leaf("key", (1, 1, 1, 7), "prefix")), f("value", leaf("value", (1, 9, 1, 14), value))],
    );
    n("options", (0, 0, 1, 14), "", vec![f("body", n("entry_body", (0, 8, 1, 14), "", vec![entry]))])
}

#[test]
fn local_variables_do_not_leak_between_files() {
    let mut workspace = Workspace::new();
    workspace.open(script(
        "file:///a.sk",
        "on join:\n\tset {_temp} to 1\n",
        vec![event("join", (17, "set {_temp} to 1"), vec![variable("{_temp}", 5, 12, "temp", 7)])],
    ));
    workspace.open(script(
        "file:///b.sk",
        "on quit:\n\tset {_temp} to 2\n",
        vec![event("quit", (17, "set {_temp} to 2"), vec![variable("{_temp}", 5, 12, "temp", 7)])],
    ));

    let references = workspace.references(SymbolKind::LocalVariable, "temp", "file:///a.sk");
    assert_eq!(references.len(), 1);
    assert_eq!(references[0].0.uri(), "file:///a.sk");
}

#[test]
fn a_global_variable_is_shared_across_files() {
    let mut workspace = Workspace::new();
    workspace.open(script(
        "file:///a.sk",
        "on join:\n\tset {score} to 1\n",
        vec![event("join", (17, "set {score} to 1"), vec![variable("{score}", 5, 12, "score", 6)])],
    ));
    workspace.open(script(
        "file:///b.sk",
        "on quit:\n\tadd 1 to {score}\n",
        vec![event("quit", (17, "add 1 to {score}"), vec![variable("{score}", 10, 17, "score", 11)])],
    ));

    let references = workspace.references(SymbolKind::GlobalVariable, "score", "file:///a.sk");
    assert_eq!(references.len(), 2);
}

#[test]
fn workspace_symbols_search_by_substring() {
    let mut workspace = Workspace::new();
    workspace.open(script("file:///a.sk", "function give_apple():\n\treturn 1\n", vec![function("give_apple", false)]));
    assert_eq!(workspace.workspace_symbols("apple").len(), 1);
    assert!(workspace.workspace_symbols("banana").is_empty());
}

#[test]
fn updating_a_document_refreshes_its_symbols() {
    let mut workspace = Workspace::new();
    workspace.open(script("file:///a.sk", "function old():\n\treturn 1\n", vec![function("old", false)]));
    workspace.open(script("file:///a.sk", "function new_name():\n\treturn 1\n", vec![function("new_name", false)]));

    assert!(workspace.definitions(SymbolKind::Function, "old", "file:///a.sk").is_empty());
    assert_eq!(workspace.definitions(SymbolKind::Function, "new_name", "file:///a.sk").len(), 1);
}

#[test]
fn a_local_functions_references_stay_in_its_own_file() {
    let mut workspace = Workspace::new();
    workspace.open(script("file:///lib.sk", "local function helper():\n\treturn 1\n", vec![function("helper", true)]));
    let call = n("function_call", (1, 13, 1, 21), "helper()", vec![f("name", leaf("identifier", (1, 13, 1, 19), "helper"))]);
    workspace.open(script(
        "file:///use.sk",
        "on join:\n\tset {_x} to helper()\n",
        vec![event("join", (21, "set {_x} to helper()"), vec![variable("{_x}", 5, 9, "x", 7), call])],
    ));

    let references = workspace.references(SymbolKind::LocalFunction, "helper", "file:///lib.sk");
    assert!(
        references.iter().all(|(document, _)| document.uri() == "file:///lib.sk"),
        "a local function's references leaked out of its file: {:?}",
        references.iter().map(|(d, _)| d.uri()).collect::<Vec<_>>()
    );
}

#[test]
fn options_are_script_local() {
    let mut workspace = Workspace::new();
    workspace.open(script("file:///a.sk", "options:\n\tprefix: &6[A]\n", vec![options("&6[A]")]));
    workspace.open(script("file:///b.sk", "options:\n\tprefix: &6[B]\n", vec![options("&6[B]")]));

    let definitions = workspace.definitions(SymbolKind::Option, "prefix", "file:///a.sk");
    assert_eq!(definitions.len(), 1, "go-to-definition on an option offered a jump into another script");
    assert_eq!(definitions[0].0.uri(), "file:///a.sk");
}

/// The text a rename would produce, applying every edit back-to-front so
/// earlier offsets stay valid.
fn rename_in(source: &str, structures: Vec<N>, kind: SymbolKind, name: &str, new_name: &str) -> String {
    let mut workspace = Workspace::new();
    workspace.open(script("file:///t.sk", source, structures));

    let mut edits: Vec<Range> = Vec::new();
    for (_, symbol) in workspace.definitions(kind, name, "file:///t.sk") {
        edits.push(symbol.selection_range);
    }
    for (_, reference) in workspace.references(kind, name, "file:///t.sk") {
        edits.push(reference.name_range);
    }
    edits.sort_by_key(|range| (range.start.line, range.start.character));
    edits.dedup();

    let mut lines: Vec<String> = source.lines().map(str::to_string).collect();
    for range in edits.iter().rev() {
        let line = &mut lines[range.start.line as usize];
        let start = range.start.character as usize;
        let end = (range.end.character as usize).min(line.len());
        line.replace_range(start..end, new_name);
    }
    lines.join("\n")
}

#[test]
fn renaming_a_default_variable_keeps_its_braces() {
    let target = variable("{score}", 1, 8, "score", 2);
    let assignment = n("assignment", (1, 1, 1, 12), "{score} = 0", vec![f("target", target), f("value", leaf("value", (1, 11, 1, 12), "0"))]);
    let block = n("variables", (0, 0, 1, 12), "", vec![f("body", n("assignment_body", (0, 10, 1, 12), "", vec![assignment]))]);
    let out = rename_in("variables:\n\t{score} = 0\n", vec![block], SymbolKind::GlobalVariable, "score", "total");
    assert!(out.contains("{total} = 0"), "got:\n{out}");
}

#[test]
fn renaming_a_list_variable_keeps_its_list_suffix() {
    let list = variable("{score::*}", 5, 15, "score::*", 6);
    let out = rename_in(
        "on join:\n\tset {score::*} to 1\n",
        vec![event("join", (20, "set {score::*} to 1"), vec![list])],
        SymbolKind::GlobalVariable,
        "score::*",
        "total::*",
    );
    assert!(out.contains("{total::*}"), "the `::*` was lost:\n{out}");
}

#[test]
fn renaming_a_local_variable_keeps_its_underscore() {
    let count = variable("{_count}", 5, 13, "count", 7);
    let out = rename_in(
        "on join:\n\tset {_count} to 1\n",
        vec![event("join", (18, "set {_count} to 1"), vec![count])],
        SymbolKind::LocalVariable,
        "count",
        "total",
    );
    assert!(out.contains("{_total}"), "the scope sigil was lost:\n{out}");
}

const TWO_TRIGGERS: &str = "on join:\n\tset {_i} to 1\n\tsend \"%{_i}%\" to player\n\non quit:\n\tset {_i} to 99\n\tsend \"%{_i}%\" to player\n";

/// A variable `text` on line `line` spanning `from..to`, named `name` from `name_from`.
fn variable_on(line: u32, text: &'static str, from: u32, to: u32, name: &'static str, name_from: u32) -> N {
    let name_node = leaf("variable_name", (line, name_from, line, name_from + name.len() as u32), name);
    n("variable", (line, from, line, to), text, vec![f("name", name_node)])
}

/// `on <name>:` at `top`, setting `{_i}` on the next line and sending it on the one after.
fn trigger(name: &'static str, top: u32, value: &'static str) -> N {
    let set_len = 12 + value.len() as u32;
    let set = n("statement", (top + 1, 1, top + 1, set_len), "", vec![variable_on(top + 1, "{_i}", 5, 9, "i", 7)]);
    let send = n("statement", (top + 2, 1, top + 2, 25), "", vec![variable_on(top + 2, "{_i}", 8, 12, "i", 10)]);
    let body = n("block", (top, 8, top + 2, 25), "", vec![set, send]);
    n(
        "event",
        (top, 0, top + 2, 25),
        "",
        vec![f("name", leaf("event_name", (top, 3, top, 3 + name.len() as u32), name)), f("body", body)],
    )
}

fn two_triggers() -> Workspace {
    let mut workspace = Workspace::new();
    workspace.open(script("file:///t.sk", TWO_TRIGGERS, vec![trigger("join", 0, "1"), trigger("quit", 4, "99")]));
    workspace
}

#[test]
fn a_local_belongs_to_its_trigger_only() {
    let workspace = two_triggers();
    let document = workspace.get("file:///t.sk").unwrap();
    let first = document
        .symbols()
        .references
        .iter()
        .find(|reference| reference.range.start.line == 1)
        .expect("the first trigger uses {_i}");
    assert!(first.scope.is_some(), "a local must know its trigger");

    let scoped = workspace.references_in_scope(SymbolKind::LocalVariable, &first.name, "file:///t.sk", first.scope);
    let lines: Vec<u32> = scoped.iter().map(|(_, reference)| reference.range.start.line).collect();
    assert!(lines.iter().all(|line| *line < 4), "renaming in the first trigger reached the second: {lines:?}");
    assert_eq!(lines.len(), 2, "both uses in the first trigger: {lines:?}");

    // Unscoped, every `{_i}` in the file answers.
    assert_eq!(workspace.references(SymbolKind::LocalVariable, "i", "file:///t.sk").len(), 4);
}

#[test]
fn the_two_triggers_have_different_scopes() {
    let workspace = two_triggers();
    let document = workspace.get("file:///t.sk").unwrap();
    let scopes: Vec<_> = document
        .symbols()
        .references
        .iter()
        .filter(|reference| reference.kind == SymbolKind::LocalVariable)
        .map(|reference| reference.scope)
        .collect();
    assert!(scopes.iter().all(Option::is_some));
    assert_ne!(scopes.first(), scopes.last(), "both triggers reported the same scope");
}

/// `on <name>:` at `top` whose one statement, on the next line, sets `{score}`.
fn sets_score(name: &'static str, top: u32) -> N {
    let set = n("statement", (top + 1, 1, top + 1, 17), "", vec![variable_on(top + 1, "{score}", 5, 12, "score", 6)]);
    let body = n("block", (top, 8, top + 1, 17), "", vec![set]);
    n(
        "event",
        (top, 0, top + 1, 17),
        "",
        vec![f("name", leaf("event_name", (top, 3, top, 3 + name.len() as u32), name)), f("body", body)],
    )
}

fn two_globals() -> Workspace {
    let mut workspace = Workspace::new();
    workspace.open(script(
        "file:///t.sk",
        "on join:\n\tset {score} to 1\n\non quit:\n\tset {score} to 2\n",
        vec![sets_score("join", 0), sets_score("quit", 3)],
    ));
    workspace
}

#[test]
fn a_global_is_not_trigger_scoped() {
    let workspace = two_globals();
    let document = workspace.get("file:///t.sk").unwrap();
    assert_eq!(document.symbols().references.len(), 2);
    for reference in &document.symbols().references {
        if reference.kind == SymbolKind::GlobalVariable {
            assert!(reference.scope.is_none(), "a global was trigger-scoped");
        }
    }
}

#[test]
fn a_scope_is_ignored_for_anything_but_a_local() {
    let first_trigger = Some(Range::new(Position::new(0, 0), Position::new(1, 17)));
    let globals = two_globals();
    assert_eq!(globals.references_in_scope(SymbolKind::GlobalVariable, "score", "file:///t.sk", first_trigger).len(), 2);

    let locals = two_triggers();
    let elsewhere = Some(Range::new(Position::new(20, 0), Position::new(21, 0)));
    assert!(locals.references_in_scope(SymbolKind::LocalVariable, "i", "file:///t.sk", elsewhere).is_empty());
    assert_eq!(locals.references_in_scope(SymbolKind::LocalVariable, "i", "file:///t.sk", None).len(), 4);
}

#[test]
fn the_cursor_names_the_trigger_of_a_local() {
    let workspace = two_triggers();
    let document = workspace.get("file:///t.sk").unwrap();
    let (kind, name, scope) = scoped_symbol_under_cursor(document.symbols(), Position::new(5, 7)).unwrap();
    assert_eq!(kind, SymbolKind::LocalVariable);
    assert_eq!(name, "i");
    assert_eq!(scope, Some(Range::new(Position::new(4, 0), Position::new(6, 25))));
    let lines: Vec<u32> = workspace
        .references_in_scope(kind, &name, "file:///t.sk", scope)
        .iter()
        .map(|(_, reference)| reference.range.start.line)
        .collect();
    // In the order a stack walk of the tree finds them: the later statement first.
    assert_eq!(lines, vec![6, 5]);
}

#[test]
fn updating_a_document_that_is_not_open_opens_it() {
    let mut workspace = Workspace::new();
    workspace.update("file:///new.sk", "on join:\n".to_string(), skript_lsp::symbols::FileSymbols::default());
    assert_eq!(workspace.get("file:///new.sk").unwrap().text(), "on join:\n");
    workspace.update("file:///new.sk", "on quit:\n".to_string(), skript_lsp::symbols::FileSymbols::default());
    assert_eq!(workspace.get("file:///new.sk").unwrap().text(), "on quit:\n");
}
