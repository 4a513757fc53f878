use skript_lsp::format::{format_lines, Options};

#[test]
fn normalises_spaces_to_tabs() {
    let out = format_lines("on join:\n    send \"hi\"\n", &vec![0, 1], &vec![false, false], Options::default());
    assert_eq!(out.as_deref(), Some("on join:\n\tsend \"hi\"\n"));
}

#[test]
fn an_already_formatted_file_needs_no_change() {
    let out = format_lines("on join:\n\tsend \"hi\"\n", &vec![0, 1], &vec![false, false], Options::default());
    assert_eq!(out, None);
}

#[test]
fn collapses_blank_runs_and_trailing_newlines() {
    let out = format_lines("a\n\n\n\nb   \n\n\n", &vec![0; 7], &vec![false; 7], Options::default());
    assert_eq!(out.as_deref(), Some("a\n\nb\n"));
}

#[test]
fn keeps_block_comment_prose_verbatim() {
    let text = "###\n   prose  \n###\n";
    let out = format_lines(text, &vec![0, 0, 0], &vec![false, true, false], Options::default());
    assert_eq!(out.as_deref(), Some("###\n   prose\n###\n"));
}

#[test]
fn indents_with_spaces_when_asked() {
    let options = Options { hard_tabs: false, tab_size: 2, max_blank_lines: 1 };
    assert_eq!(options.indent(3), "      ");
    let out = format_lines("x:\n\ty\n", &vec![0, 1], &vec![false, false], options);
    assert_eq!(out.as_deref(), Some("x:\n  y\n"));
    assert_eq!(format_lines("", &vec![], &vec![], options), None);
}

fn visible(text: &str) -> String {
    text.chars().filter(|ch| !ch.is_whitespace()).collect()
}

#[test]
fn format_lines_preserves_every_non_whitespace_character() {
    let source = "command /a:\n  permission: skript.a\n  trigger:\n     send \"x %player% y\"   \r\n";
    let out = format_lines(source, &vec![0, 1, 1, 2], &vec![false; 4], Options::default()).unwrap();
    assert_eq!(out, "command /a:\n\tpermission: skript.a\n\ttrigger:\n\t\tsend \"x %player% y\"\n");
    assert_eq!(visible(&out), visible(source));
}

#[test]
fn a_formatted_file_ends_with_exactly_one_newline() {
    let out = format_lines("on join:\n\tstop", &vec![0, 1], &vec![false; 2], Options::default()).unwrap();
    assert_eq!(out, "on join:\n\tstop\n");
    let blank = format_lines("\n\n\n", &vec![0; 3], &vec![false; 3], Options::default()).unwrap();
    assert_eq!(blank, "\n");
    let none_kept = Options { max_blank_lines: 0, ..Options::default() };
    assert_eq!(format_lines("\n\n", &vec![0; 2], &vec![false; 2], none_kept).as_deref(), Some(""));
}

#[test]
fn formatting_the_output_again_with_its_own_layout_changes_nothing() {
    let text = "on load:\n   send 1   \n\n\n\n### note\n  keep   \n###\n\n\n";
    let depths = vec![0, 1, 0, 0, 0, 0, 0, 0, 0, 0];
    let verbatim = vec![false, false, false, false, false, false, true, false, false, false];
    let out = format_lines(text, &depths, &verbatim, Options::default()).unwrap();
    assert_eq!(out, "on load:\n\tsend 1\n\n### note\n  keep\n###\n");
    // The lines that stay, with the depth and flag each was formatted with.
    let again = format_lines(&out, &vec![0, 1, 0, 0, 0, 0], &vec![false, false, false, false, true, false], Options::default());
    assert_eq!(again, None);
}
