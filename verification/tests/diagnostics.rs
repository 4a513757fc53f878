use skript_lsp::diagnostics::{check, Diagnostic, Options};
use skript_lsp::index::{Document, Workspace};
use skript_lsp::symbols::{FileSymbols, Reference, Symbol, SymbolKind};
use skript_lsp::text::{Position, Range};

fn range(line: u32, start: u32, end: u32) -> Range {
    Range::new(Position::new(line, start), Position::new(line, end))
}

fn function(name: &str, line: u32, start: u32) -> Symbol {
    Symbol {
        kind: SymbolKind::Function,
        name: name.to_string(),
        detail: "()".to_string(),
        range: range(line, 0, start + name.len() as u32 + 3),
        selection_range: range(line, start, start + name.len() as u32),
        children: Vec::new(),
    }
}

fn call(name: &str, line: u32, start: u32) -> Reference {
    let at = range(line, start, start + name.len() as u32);
    Reference {
        kind: SymbolKind::Function,
        name: name.to_string(),
        range: at,
        name_range: at,
        scope: None,
    }
}

/// Checks `source` as the only script of a fully indexed project, with the
/// symbols the parser finds in it.
fn check_with(source: &str, symbols: FileSymbols) -> Vec<Diagnostic> {
    let mut workspace = Workspace::new();
    workspace.open(Document::new("file:///t.sk".to_string(), source.to_string(), symbols));
    let document = workspace.get("file:///t.sk").unwrap();
    check(
        document,
        &workspace,
        Options {
            project_indexed: true,
            ..Options::default()
        },
    )
}

fn codes_with(source: &str, symbols: FileSymbols) -> Vec<&'static str> {
    check_with(source, symbols).into_iter().map(|d| d.code).collect()
}

fn codes(source: &str) -> Vec<&'static str> {
    codes_with(source, FileSymbols::default())
}

#[test]
fn accepts_ordinary_tab_indented_script() {
    assert!(codes("on join:\n\tsend \"hi\"\n\tif {_x} is set:\n\t\tstop\n").is_empty());
}

#[test]
fn accepts_ordinary_space_indented_script() {
    assert!(codes("on join:\n    send \"hi\"\n        stop\n").is_empty());
}

#[test]
fn rejects_tabs_and_spaces_in_one_indent() {
    assert!(codes("on join:\n \tsend \"hi\"\n").contains(&"mixed-indentation"));
}

#[test]
fn rejects_switching_indent_character_mid_file() {
    let found = codes("on join:\n\tsend \"a\"\non quit:\n    send \"b\"\n");
    assert!(found.contains(&"inconsistent-indentation"));
}

#[test]
fn rejects_an_indent_that_is_not_a_multiple_of_the_unit() {
    let found = codes("on join:\n    send \"a\"\n      send \"b\"\n");
    assert!(found.contains(&"indent-not-a-multiple"));
}

#[test]
fn a_comment_indented_differently_is_not_an_error() {
    let found = codes(
        "on join:
    # aligned with spaces
	send \"hi\"
",
    );
    assert!(
        !found.contains(&"inconsistent-indentation"),
        "a comment must not set the file's indent unit, got {found:?}"
    );
}

#[test]
fn real_mixing_is_still_reported_around_a_comment() {
    let found = codes(
        "on join:
    send \"a\"
	# note
	send \"b\"
",
    );
    assert!(found.contains(&"inconsistent-indentation"));
}

#[test]
fn reports_an_unclosed_block_comment() {
    assert!(codes("###\nnever closed\n").contains(&"unclosed-block-comment"));
    assert!(!codes("###\nclosed\n###\n").contains(&"unclosed-block-comment"));
}

#[test]
fn reports_duplicate_functions_and_commands() {
    let symbols = FileSymbols {
        symbols: vec![function("a", 0, 9), function("a", 3, 9)],
        references: Vec::new(),
    };
    let found = codes_with("function a():\n\tstop\n\nfunction a():\n\tstop\n", symbols);
    assert!(found.contains(&"duplicate-declaration"));
}

#[test]
fn a_duplicate_points_at_the_first_declaration() {
    let symbols = FileSymbols {
        symbols: vec![function("a", 0, 9), function("a", 3, 9)],
        references: Vec::new(),
    };
    let duplicate = check_with("function a():\n\tstop\n\nfunction a():\n\tstop\n", symbols)
        .into_iter()
        .find(|d| d.code == "duplicate-declaration")
        .expect("the duplicate is reported");
    let related = duplicate.related.first().expect("it says where the first one is");
    assert_eq!(duplicate.range.start.line, 3);
    assert_eq!(related.range.start.line, 0);
    assert_eq!(duplicate.message, "`a` is declared more than once in this script.");
    assert_eq!(related.message, "`a` is first declared here.");
}

#[test]
fn a_java_constructor_is_not_a_missing_skript_function() {
    let symbols = FileSymbols {
        symbols: Vec::new(),
        references: vec![call("ArrayList", 1, 20)],
    };
    let found = codes_with(
        "on join:
	set {_list} to new ArrayList()
",
        symbols,
    );
    assert!(
        !found.contains(&"unknown-function"),
        "`new X()` is skript-reflect, not a Skript call, got {found:?}"
    );
}

#[test]
fn reports_a_call_to_a_function_that_does_not_exist() {
    let symbols = FileSymbols {
        symbols: Vec::new(),
        references: vec![call("missing_function", 1, 13)],
    };
    let found = codes_with("on join:\n\tset {_x} to missing_function()\n", symbols);
    assert!(found.contains(&"unknown-function"));
}

#[test]
fn accepts_a_call_to_a_function_declared_in_the_same_file() {
    let symbols = FileSymbols {
        symbols: vec![function("helper", 0, 9)],
        references: vec![call("helper", 4, 13)],
    };
    let found = codes_with(
        "function helper():\n\tstop\n\non join:\n\tset {_x} to helper()\n",
        symbols,
    );
    assert!(!found.contains(&"unknown-function"));
}

#[test]
fn diagnostics_come_back_in_document_order() {
    let symbols = FileSymbols {
        symbols: Vec::new(),
        references: vec![call("nope", 2, 13)],
    };
    let found = check_with("on join:\n \tbad indent\n\tset {_x} to nope()\n", symbols);
    assert_eq!(found.len(), 2);
    for pair in found.windows(2) {
        assert!(pair[0].range.start <= pair[1].range.start);
    }
}

#[test]
fn block_comment_prose_does_not_set_the_indent_unit() {
    let found = codes("###\n   deliberately indented prose\n\tand a tab\n###\non join:\n\tstop\n");
    assert!(found.is_empty(), "prose inside a block comment was read as code: {found:?}");
}

#[test]
fn real_indentation_errors_are_still_caught_around_a_block_comment() {
    let found = codes("###\n   prose\n###\non join:\n \tmixed\n");
    assert!(found.contains(&"mixed-indentation"), "got {found:?}");
}

#[test]
fn indentation_messages_name_the_problem() {
    let found = check_with("on join:\n    send \"a\"\n      send \"b\"\n", FileSymbols::default());
    assert_eq!(
        found[0].message,
        "Indentation is 6 characters, which is not a multiple of this script's indent unit of 4."
    );
    assert_eq!(found[0].range, range(2, 0, 6));
    let found = check_with("on join:\n\tsend \"a\"\non quit:\n    send \"b\"\n", FileSymbols::default());
    assert_eq!(
        found[0].message,
        "Indentation uses spaces here but tabs earlier in the file. Skript infers one indent unit per script."
    );
}

#[test]
fn an_unindexed_project_reports_no_unknown_function() {
    let symbols = FileSymbols {
        symbols: Vec::new(),
        references: vec![call("missing_function", 1, 13)],
    };
    let mut workspace = Workspace::new();
    workspace.open(Document::new(
        "file:///t.sk".to_string(),
        "on join:\n\tset {_x} to missing_function()\n".to_string(),
        symbols,
    ));
    let document = workspace.get("file:///t.sk").unwrap();
    assert!(check(document, &workspace, Options::default()).is_empty());
}

#[test]
fn a_local_function_of_another_file_is_not_callable() {
    let mut workspace = Workspace::new();
    let mut helper = function("helper", 0, 15);
    helper.kind = SymbolKind::LocalFunction;
    workspace.open(Document::new(
        "file:///lib.sk".to_string(),
        "local function helper():\n\tstop\n".to_string(),
        FileSymbols { symbols: vec![helper], references: Vec::new() },
    ));
    workspace.open(Document::new(
        "file:///use.sk".to_string(),
        "on join:\n\tset {_x} to helper()\n".to_string(),
        FileSymbols { symbols: Vec::new(), references: vec![call("helper", 1, 13)] },
    ));
    let document = workspace.get("file:///use.sk").unwrap();
    let found = check(document, &workspace, Options { project_indexed: true, ..Options::default() });
    assert_eq!(found.len(), 1);
    assert_eq!(found[0].message, "No function named `helper` is declared in this project.");
}

#[test]
fn block_comment_interiors_are_prose() {
    let flags = skript_lsp::diagnostics::block_comment_lines("on join:\n###\nprose\n  more\n###\n\tstop\n");
    assert_eq!(flags, vec![false, false, true, true, false, false]);
    assert_eq!(skript_lsp::diagnostics::block_comment_lines(""), Vec::<bool>::new());
}

fn finding(line: u32, start: u32, code: &'static str) -> Diagnostic {
    Diagnostic {
        range: range(line, start, start + 1),
        severity: skript_lsp::diagnostics::Severity::Error,
        message: code.to_string(),
        code,
        related: Vec::new(),
    }
}

#[test]
fn diagnostics_at_the_same_place_keep_their_order() {
    let sorted = skript_lsp::diagnostics::sort_by_start(vec![
        finding(2, 0, "b"),
        finding(0, 4, "a"),
        finding(2, 0, "c"),
        finding(0, 1, "d"),
        finding(2, 0, "e"),
    ]);
    let codes: Vec<&str> = sorted.iter().map(|d| d.code).collect();
    assert_eq!(codes, vec!["d", "a", "b", "c", "e"]);
}
