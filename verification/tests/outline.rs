use skript_lsp::folding::{folding_ranges, FoldKind};
use skript_lsp::format::Options;
use skript_lsp::outline::extract;
use skript_lsp::symbols::SymbolKind;
use skript_lsp::syntax::{Field, SyntaxTree, TreeNode};
use skript_lsp::text::{Position, Range};

/// A node to build: kind, its rows and columns, its text, the field it sits
/// in under its parent, and its children.
struct N {
    kind: &'static str,
    named: bool,
    span: (u32, u32, u32, u32),
    text: &'static str,
    field: Option<&'static str>,
    children: Vec<N>,
}

fn n(kind: &'static str, span: (u32, u32, u32, u32), text: &'static str, children: Vec<N>) -> N {
    N { kind, named: true, span, text, field: None, children }
}

fn leaf(kind: &'static str, span: (u32, u32, u32, u32), text: &'static str) -> N {
    n(kind, span, text, Vec::new())
}

fn f(name: &'static str, mut node: N) -> N {
    node.field = Some(name);
    node
}

fn anon(kind: &'static str, span: (u32, u32, u32, u32)) -> N {
    N { kind, named: false, span, text: kind, field: None, children: Vec::new() }
}

fn range(span: (u32, u32, u32, u32)) -> Range {
    Range { start: Position { line: span.0, character: span.1 }, end: Position { line: span.2, character: span.3 } }
}

fn add(nodes: &mut Vec<TreeNode>, node: N) -> usize {
    let at = nodes.len();
    nodes.push(TreeNode {
        kind: node.kind.to_string(),
        named: node.named,
        range: range(node.span),
        text: node.text.to_string(),
        children: Vec::new(),
        fields: Vec::new(),
    });
    for child in node.children {
        let field = child.field;
        let index = add(nodes, child);
        nodes[at].children.push(index);
        if let Some(name) = field {
            nodes[at].fields.push(Field { name: name.to_string(), node: index });
        }
    }
    at
}

fn tree(root: N) -> SyntaxTree {
    let mut nodes = Vec::new();
    add(&mut nodes, root);
    SyntaxTree { nodes, has_error: false }
}

fn file(children: Vec<N>) -> SyntaxTree {
    tree(n("source_file", (0, 0, 9, 0), "", children))
}

fn parameter(span: (u32, u32, u32, u32), text: &'static str, name: N, ty: N) -> N {
    n("parameter", span, text, vec![f("name", name), f("type", ty)])
}

fn give_apple() -> N {
    // function give_apple(name: text, amount: number) :: item:
    //     return 1
    let first = parameter(
        (0, 20, 0, 30),
        "name: text",
        n("identifier", (0, 20, 0, 24), "name", vec![]),
        n("type", (0, 26, 0, 30), "text", vec![]),
    );
    let second = parameter(
        (0, 32, 0, 46),
        "amount: number",
        n("identifier", (0, 32, 0, 38), "amount", vec![]),
        n("type", (0, 40, 0, 46), "number", vec![]),
    );
    let list = n(
        "parameter_list",
        (0, 20, 0, 46),
        "name: text, amount: number",
        vec![first, anon(",", (0, 30, 0, 31)), second],
    );
    let body = n("block", (0, 56, 1, 9), "return 1", vec![n("statement", (1, 1, 1, 9), "return 1", vec![])]);
    n(
        "function",
        (0, 0, 1, 9),
        "function give_apple(name: text, amount: number) :: item:\n\treturn 1",
        vec![
            anon("function", (0, 0, 0, 8)),
            f("name", n("identifier", (0, 9, 0, 19), "give_apple", vec![])),
            f("parameters", list),
            f("return_type", n("type", (0, 51, 0, 55), " item", vec![])),
            f("body", body),
        ],
    )
}

#[test]
fn finds_functions_with_their_signatures() {
    let found = extract(&file(vec![give_apple()]));
    assert_eq!(found.symbols.len(), 1);
    let function = &found.symbols[0];
    assert_eq!(function.kind, SymbolKind::Function);
    assert_eq!(function.name, "give_apple");
    assert_eq!(function.detail, "(name: text, amount: number) :: item");
    assert_eq!(function.selection_range, range((0, 9, 0, 19)));
}

#[test]
fn a_function_declares_its_parameters() {
    let found = extract(&file(vec![give_apple()]));
    let names: Vec<&str> = found.symbols[0].children.iter().map(|c| c.name.as_str()).collect();
    assert_eq!(names, vec!["name", "amount"]);
    for child in &found.symbols[0].children {
        assert_eq!(child.kind, SymbolKind::LocalVariable);
    }
    assert_eq!(found.symbols[0].children[0].detail, "text");
    assert_eq!(found.symbols[0].children[1].detail, "number");
    // Only the name is selected, so a rename keeps the type.
    assert_eq!(found.symbols[0].children[0].selection_range, range((0, 20, 0, 24)));
}

#[test]
fn distinguishes_local_functions() {
    let local = n("function", (0, 0, 1, 9), "local function helper():", vec![
        n("keyword", (0, 0, 0, 5), "local", vec![]),
        f("name", n("identifier", (0, 15, 0, 21), "helper", vec![])),
    ]);
    let found = extract(&file(vec![local]));
    assert_eq!(found.symbols[0].kind, SymbolKind::LocalFunction);
    assert_eq!(found.symbols[0].detail, "()");
    assert!(found.symbols[0].children.is_empty());
}

#[test]
fn finds_commands_without_the_slash() {
    let key = leaf("key", (1, 1, 1, 8), "trigger");
    let trigger = n("entry_section", (1, 1, 2, 6), "trigger:\n\t\tstop", vec![f("key", key)]);
    let body = n("entry_body", (0, 21, 2, 6), "", vec![trigger]);
    let command = n(
        "command",
        (0, 0, 2, 6),
        "command /home <text>:",
        vec![
            f("name", leaf("command_name", (0, 8, 0, 13), "/home")),
            f("argument", leaf("argument", (0, 14, 0, 20), "<text>")),
            f("body", body),
        ],
    );
    let found = extract(&file(vec![command]));
    let command = &found.symbols[0];
    assert_eq!(command.kind, SymbolKind::Command);
    assert_eq!(command.name, "home");
    assert_eq!(command.detail, "<text>");
    assert!(command.children.iter().any(|child| child.name == "trigger" && child.kind == SymbolKind::Entry));
}

#[test]
fn finds_options_and_their_values() {
    let entry = n(
        "entry",
        (1, 1, 1, 20),
        "prefix: &6[Server]",
        vec![f("key", leaf("key", (1, 1, 1, 7), "prefix")), f("value", leaf("value", (1, 9, 1, 20), "&6[Server]"))],
    );
    let body = n("entry_body", (0, 8, 1, 20), "", vec![entry]);
    let options = n(
        "options",
        (0, 0, 1, 20),
        "options:\n\tprefix: &6[Server]",
        vec![anon("options", (0, 0, 0, 7)), f("body", body)],
    );
    let found = extract(&file(vec![options]));
    assert_eq!(found.symbols[0].kind, SymbolKind::Structure);
    assert_eq!(found.symbols[0].name, "options");
    assert_eq!(found.symbols[0].selection_range, range((0, 0, 0, 7)));
    let option = &found.symbols[0].children[0];
    assert_eq!(option.kind, SymbolKind::Option);
    assert_eq!(option.name, "prefix");
    assert_eq!(option.detail, "&6[Server]");
}

#[test]
fn finds_default_variables_and_aliases() {
    let target = n("variable", (1, 1, 1, 8), "{score}", vec![f("name", leaf("variable_name", (1, 2, 1, 7), "score"))]);
    let assignment = n(
        "assignment",
        (1, 1, 1, 12),
        "{score} = 0",
        vec![f("target", target), f("value", leaf("value", (1, 11, 1, 12), " 0 "))],
    );
    let body = n("assignment_body", (0, 10, 1, 13), "", vec![assignment]);
    let variables = n("variables", (0, 0, 1, 13), "variables:\n\t{score} = 0", vec![f("body", body)]);
    let alias = n(
        "assignment",
        (4, 1, 4, 17),
        "ores = iron ore",
        vec![f("target", leaf("alias_name", (4, 1, 4, 5), "ores ")), f("value", leaf("value", (4, 8, 4, 17), "iron ore"))],
    );
    let alias_body = n("assignment_body", (3, 8, 4, 17), "", vec![alias]);
    let aliases = n("aliases", (3, 0, 4, 17), "aliases:\n\tores = iron ore", vec![f("body", alias_body)]);
    let found = extract(&file(vec![variables, aliases]));
    let variable = &found.symbols[0].children[0];
    assert_eq!(variable.kind, SymbolKind::GlobalVariable);
    assert_eq!(variable.name, "score");
    assert_eq!(variable.detail, "0");
    assert_eq!(variable.selection_range, range((1, 2, 1, 7)));
    let alias = &found.symbols[1].children[0];
    assert_eq!(alias.kind, SymbolKind::Alias);
    assert_eq!(alias.name, "ores");
    assert_eq!(alias.selection_range, range((4, 1, 4, 5)));
}

fn join_event() -> N {
    // on join:
    //     set {_x} to give_apple("a", 1)
    //     send "{@prefix}"
    //     add 1 to {score::%uuid of player%}
    let x = n("variable", (1, 5, 1, 9), "{_x}", vec![f("name", leaf("variable_name", (1, 7, 1, 8), "x"))]);
    let call = n(
        "function_call",
        (1, 13, 1, 31),
        "give_apple(\"a\", 1)",
        vec![f("name", leaf("identifier", (1, 13, 1, 23), "give_apple"))],
    );
    let set = n("statement", (1, 1, 1, 31), "set {_x} to give_apple(\"a\", 1)", vec![x, call]);
    let option = n("option_ref", (2, 7, 2, 16), "{@prefix}", vec![f("name", leaf("option_name", (2, 9, 2, 15), "prefix"))]);
    let send = n("statement", (2, 1, 2, 17), "send \"{@prefix}\"", vec![option]);
    let slot = leaf("interpolation", (3, 18, 3, 39), "%uuid of player%");
    let dynamic = n("variable_name", (3, 11, 3, 39), "score::%uuid of player%", vec![slot]);
    let score = n("variable", (3, 10, 3, 40), "{score::%uuid of player%}", vec![f("name", dynamic)]);
    let add = n("statement", (3, 1, 3, 40), "add 1 to {score::%uuid of player%}", vec![score]);
    let body = n("block", (0, 8, 3, 40), "", vec![set, send, add]);
    n("event", (0, 0, 3, 40), "on join:", vec![f("name", leaf("event_name", (0, 3, 0, 7), "join")), f("body", body)])
}

#[test]
fn records_function_calls_options_and_variables_as_references() {
    let found = extract(&file(vec![join_event()]));
    let seen: Vec<(SymbolKind, &str)> = found.references.iter().map(|r| (r.kind, r.name.as_str())).collect();
    // A stack walk: later statements come out first.
    assert_eq!(
        seen,
        vec![(SymbolKind::Option, "prefix"), (SymbolKind::Function, "give_apple"), (SymbolKind::LocalVariable, "x")]
    );
    let x = &found.references[2];
    assert_eq!(x.range, range((1, 5, 1, 9)));
    assert_eq!(x.name_range, range((1, 7, 1, 8)));
}

#[test]
fn skips_interpolated_variable_names() {
    let found = extract(&file(vec![join_event()]));
    assert!(found.references.iter().all(|r| !r.name.contains("score")));
}

#[test]
fn events_keep_their_full_name() {
    let event = n(
        "event",
        (0, 0, 1, 5),
        "on damage of player:",
        vec![
            f("name", leaf("word", (0, 3, 0, 9), "damage")),
            f("name", leaf("word", (0, 10, 0, 12), "of")),
            f("name", leaf("word", (0, 13, 0, 19), "player")),
        ],
    );
    let found = extract(&file(vec![event]));
    assert_eq!(found.symbols[0].kind, SymbolKind::Event);
    assert_eq!(found.symbols[0].name, "damage of player");
    assert_eq!(found.symbols[0].selection_range, range((0, 3, 0, 9)));
    let nameless = extract(&file(vec![n("event", (0, 0, 0, 5), "on x:", vec![])]));
    assert_eq!(nameless.symbols[0].name, "event");
}

fn event_with_if() -> N {
    // on join:
    //     if {_x} is set:
    //         stop
    let inner = n("block", (1, 16, 2, 6), "", vec![leaf("statement", (2, 2, 2, 6), "stop")]);
    let section = n(
        "section",
        (1, 1, 2, 6),
        "if {_x} is set:\n\t\tstop",
        vec![
            f("header", leaf("word", (1, 1, 1, 3), "if")),
            f("header", leaf("condition", (1, 4, 1, 15), "{_x} is set")),
            f("body", inner),
        ],
    );
    let body = n("block", (0, 8, 2, 6), "", vec![section]);
    n("event", (0, 0, 2, 6), "on join:", vec![f("name", leaf("event_name", (0, 3, 0, 7), "join")), f("body", body)])
}

#[test]
fn nested_sections_appear_in_the_outline() {
    let found = extract(&file(vec![event_with_if()]));
    let event = &found.symbols[0];
    assert_eq!(event.children.len(), 1);
    assert_eq!(event.children[0].kind, SymbolKind::Section);
    assert_eq!(event.children[0].name, "if {_x} is set");
}

#[test]
fn a_sections_selection_range_covers_only_its_header() {
    let found = extract(&file(vec![event_with_if()]));
    let section = &found.symbols[0].children[0];
    assert_eq!(section.selection_range, range((1, 1, 1, 15)));
    assert_eq!(section.range, range((1, 1, 2, 6)));
    assert!(found.declaration_at(Position { line: 2, character: 4 }).is_none());
    assert_eq!(found.declaration_at(Position { line: 1, character: 2 }).map(|s| s.kind), Some(SymbolKind::Section));
}

#[test]
fn using_statements_are_structures() {
    let found = extract(&file(vec![n("using", (0, 0, 0, 23), "  using script reflection ", vec![])]));
    assert_eq!(found.symbols[0].kind, SymbolKind::Structure);
    assert_eq!(found.symbols[0].name, "using script reflection");
    assert!(extract(&file(vec![n("comment", (0, 0, 0, 5), "# hi", vec![])])).symbols.is_empty());
}

#[test]
fn formats_to_the_structural_depth() {
    let text = "on join:\n    if {_x} is set:\n  stop\n";
    let out = skript_lsp::format::format(&file(vec![event_with_if()]), text, Options::default());
    assert_eq!(out.as_deref(), Some("on join:\n\tif {_x} is set:\n\t\tstop\n"));
}

#[test]
fn refuses_to_format_a_file_that_does_not_parse() {
    let mut broken = file(vec![event_with_if()]);
    broken.has_error = true;
    assert_eq!(skript_lsp::format::format(&broken, "on join:\n  stop\n", Options::default()), None);
}

#[test]
fn block_comment_interiors_keep_their_indentation() {
    let text = "###\n   prose\n###\non join:\n    stop\n";
    let body = n("block", (3, 8, 4, 8), "", vec![leaf("statement", (4, 4, 4, 8), "stop")]);
    let event = n("event", (3, 0, 4, 8), "on join:", vec![f("body", body)]);
    let tree = file(vec![leaf("block_comment", (0, 0, 2, 3), "###\n   prose\n###"), event]);
    assert_eq!(skript_lsp::format::format(&tree, text, Options::default()).as_deref(), Some("###\n   prose\n###\non join:\n\tstop\n"));
}

#[test]
fn folds_from_the_parse_tree() {
    let folds = folding_ranges(&file(vec![event_with_if()]));
    let spans: Vec<(u32, u32, FoldKind)> = folds.iter().map(|f| (f.start_line, f.end_line, f.kind)).collect();
    assert_eq!(spans, vec![(0, 2, FoldKind::Region), (1, 2, FoldKind::Region)]);
    assert_eq!(folds[0].collapsed_text, " … 3 lines of event ");
    assert_eq!(folds[1].collapsed_text, " … 2 lines of section ");
}

#[test]
fn the_node_visited_first_wins_a_shared_span() {
    // The walk reaches the event before the comment that ends on the same
    // row, so the event's fold is the one kept.
    let tree = file(vec![n("block_comment", (0, 0, 2, 3), "###\n   prose\n###", vec![]), event_with_if()]);
    let folds = folding_ranges(&tree);
    assert_eq!(folds.len(), 2);
    assert_eq!(folds[0].kind, FoldKind::Region);
    let comment_only = folding_ranges(&file(vec![n("block_comment", (0, 0, 2, 3), "###\n   prose\n###", vec![])]));
    assert_eq!(comment_only.len(), 1);
    assert_eq!(comment_only[0].kind, FoldKind::Comment);
}

#[test]
fn the_selection_range_covers_only_the_name() {
    // A rename edits `selection_range`. If it covered `who: player`, the
    // rename would eat the type.
    let source = "function f(who: player):\n\treturn\n";
    let parameter = parameter(
        (0, 11, 0, 22),
        "who: player",
        leaf("identifier", (0, 11, 0, 14), "who"),
        leaf("type", (0, 16, 0, 22), "player"),
    );
    let list = n("parameter_list", (0, 11, 0, 22), "who: player", vec![parameter]);
    let function = n(
        "function",
        (0, 0, 1, 7),
        source,
        vec![f("name", leaf("identifier", (0, 9, 0, 10), "f")), f("parameters", list)],
    );
    let file = extract(&file(vec![function]));
    let parameter = &file.symbols.iter().find(|s| s.kind.is_function()).unwrap().children[0];

    let line = source.lines().next().unwrap();
    let start = parameter.selection_range.start.character as usize;
    let end = parameter.selection_range.end.character as usize;
    assert_eq!(&line[start..end], "who");
}

#[test]
fn a_function_without_parameters_has_no_children() {
    let function = n(
        "function",
        (0, 0, 1, 7),
        "function tick():\n\treturn",
        vec![f("name", leaf("identifier", (0, 9, 0, 13), "tick")), f("parameters", leaf("parameter_list", (0, 14, 0, 14), ""))],
    );
    let file = extract(&file(vec![function]));
    let function = file.symbols.iter().find(|s| s.kind.is_function()).unwrap();
    assert!(function.children.is_empty());
}
