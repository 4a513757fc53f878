use skript_lsp::format::Options;
use skript_lsp::syntax::{SyntaxTree, TreeNode};
use skript_lsp::text::{Position, Range};

/// A node of the parse tree, as far as layout reads it: its kind and rows.
struct N {
    kind: &'static str,
    rows: (u32, u32),
    children: Vec<N>,
}

fn n(kind: &'static str, rows: (u32, u32), children: Vec<N>) -> N {
    N { kind, rows, children }
}

fn leaf(kind: &'static str, row: u32) -> N {
    n(kind, (row, row), Vec::new())
}

fn add(nodes: &mut Vec<TreeNode>, node: N) -> usize {
    let at = nodes.len();
    nodes.push(TreeNode {
        kind: node.kind.to_string(),
        named: true,
        range: Range::new(Position::new(node.rows.0, 0), Position::new(node.rows.1, 1)),
        text: String::new(),
        children: Vec::new(),
        fields: Vec::new(),
    });
    for child in node.children {
        let index = add(nodes, child);
        nodes[at].children.push(index);
    }
    at
}

fn tree(structures: Vec<N>) -> SyntaxTree {
    let mut nodes = Vec::new();
    add(&mut nodes, n("source_file", (0, 20), structures));
    SyntaxTree { nodes, has_error: false }
}

/// `on <event>:` on row `at`, its body one level in, holding `body`.
fn event(at: u32, end: u32, body: Vec<N>) -> N {
    n("event", (at, end), vec![n("block", (at, end), body)])
}

/// A section on row `at` whose body holds `body`.
fn section(at: u32, end: u32, body: Vec<N>) -> N {
    n("section", (at, end), vec![n("block", (at, end), body)])
}

/// `command /a:` with `permission: x` and a `trigger:` holding `trigger`.
fn command(permission: u32, trigger: u32, end: u32, body: Vec<N>) -> N {
    let entry = leaf("entry", permission);
    let trigger = n("entry_section", (trigger, end), vec![n("block", (trigger, end), body)]);
    n("command", (0, end), vec![n("entry_body", (0, end), vec![entry, trigger])])
}

fn formatted_with(source: &str, tree: &SyntaxTree, options: Options) -> String {
    skript_lsp::format::format(tree, source, options).unwrap_or_else(|| source.to_string())
}

fn formatted(source: &str, tree: &SyntaxTree) -> String {
    formatted_with(source, tree, Options::default())
}

#[test]
fn fixes_an_inconsistent_indent_from_the_parse_tree() {
    // The body is indented six spaces at one level; structurally it is one
    // level deep, so it comes out as one tab.
    let out = formatted("on join:\n      send \"hi\"\n", &tree(vec![event(0, 1, vec![leaf("statement", 1)])]));
    assert_eq!(out, "on join:\n\tsend \"hi\"\n");
}

#[test]
fn indents_nested_blocks_by_depth() {
    let shape = tree(vec![event(0, 2, vec![section(1, 2, vec![leaf("statement", 2)])])]);
    let out = formatted("on join:\n\tif {_x} is set:\n\t\t\t\tsend \"deep\"\n", &shape);
    assert_eq!(out, "on join:\n\tif {_x} is set:\n\t\tsend \"deep\"\n");
}

#[test]
fn indents_command_entries_and_their_trigger() {
    let shape = tree(vec![command(1, 2, 3, vec![leaf("statement", 3)])]);
    let out = formatted("command /a:\n  permission: x\n  trigger:\n     stop\n", &shape);
    assert_eq!(out, "command /a:\n\tpermission: x\n\ttrigger:\n\t\tstop\n");
}

#[test]
fn can_use_spaces_instead() {
    let options = Options { hard_tabs: false, tab_size: 2, ..Options::default() };
    let shape = tree(vec![event(0, 1, vec![leaf("statement", 1)])]);
    assert_eq!(
        skript_lsp::format::format(&shape, "on join:\n\tsend \"hi\"\n", options).unwrap(),
        "on join:\n  send \"hi\"\n"
    );
}

#[test]
fn trims_trailing_whitespace() {
    let out = formatted("on join:   \n\tsend \"hi\"\t\n", &tree(vec![event(0, 1, vec![leaf("statement", 1)])]));
    assert_eq!(out, "on join:\n\tsend \"hi\"\n");
}

#[test]
fn collapses_runs_of_blank_lines() {
    let shape = tree(vec![event(0, 1, vec![leaf("statement", 1)]), event(6, 7, vec![leaf("statement", 7)])]);
    let out = formatted("on join:\n\tstop\n\n\n\n\non quit:\n\tstop\n", &shape);
    assert_eq!(out, "on join:\n\tstop\n\non quit:\n\tstop\n");
}

#[test]
fn leaves_string_and_comment_contents_alone() {
    let source = "on join:\n\tsend \"  spaced   out  #1  \" # a  comment\n";
    assert_eq!(formatted(source, &tree(vec![event(0, 1, vec![leaf("statement", 1)])])), source);
}

#[test]
fn does_not_reindent_inside_a_block_comment() {
    let source = "###\n   deliberately indented prose\n\tand a tab\n###\non join:\n\tstop\n";
    let shape = tree(vec![n("block_comment", (0, 3), Vec::new()), event(4, 5, vec![leaf("statement", 5)])]);
    assert_eq!(formatted(source, &shape), source);
}

#[test]
fn is_idempotent() {
    let messy = "command /a:\n  permission: x\n\n\n\n  trigger:\n     if {_x} is set:\n            stop   \n";
    let messy_shape = tree(vec![command(1, 5, 7, vec![section(6, 7, vec![leaf("statement", 7)])])]);
    let once = formatted(messy, &messy_shape);
    // The formatted text parses to the same structure, two blank rows fewer.
    let once_shape = tree(vec![command(1, 3, 5, vec![section(4, 5, vec![leaf("statement", 5)])])]);
    let twice = formatted(&once, &once_shape);
    assert_eq!(once, twice, "formatting must reach a fixed point");
    assert_eq!(once, "command /a:\n\tpermission: x\n\n\ttrigger:\n\t\tif {_x} is set:\n\t\t\tstop\n");
}

#[test]
fn returns_nothing_when_the_file_is_already_formatted() {
    let shape = tree(vec![event(0, 1, vec![leaf("statement", 1)])]);
    assert!(skript_lsp::format::format(&shape, "on join:\n\tstop\n", Options::default()).is_none());
}

#[test]
fn preserves_every_non_whitespace_byte() {
    let source = "command /a:\n  permission: skript.a\n  trigger:\n     send \"x %player% y\"\n";
    let out = formatted(source, &tree(vec![command(1, 2, 3, vec![leaf("statement", 3)])]));
    let strip = |text: &str| text.chars().filter(|ch| !ch.is_whitespace()).collect::<String>();
    assert_eq!(strip(&out), strip(source));
}
