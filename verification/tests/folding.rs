use skript_lsp::folding::{node_fold, ranges, Fold, FoldKind, SyntaxNode};

fn node(kind: &str, start_row: u32, end_row: u32, body: Option<(u32, u32)>) -> SyntaxNode {
    SyntaxNode { kind: kind.to_string(), start_row, end_row, body, key: None }
}

#[test]
fn folds_an_event_from_its_header_line() {
    // on join:\n\tsend "a"\n\tsend "b"\n
    let found = ranges(&vec![node("source_file", 0, 3, None), node("event", 0, 2, Some((1, 2)))]);
    assert_eq!(found.len(), 1);
    assert_eq!(found[0].start_line, 0);
    assert_eq!(found[0].end_line, 2);
    assert_eq!(found[0].kind, FoldKind::Region);
    assert_eq!(found[0].collapsed_text, " … 2 lines of event ");
}

#[test]
fn folds_nested_sections_separately() {
    // The walk visits the inner `if` before the event that holds it.
    let found = ranges(&vec![node("section", 1, 2, Some((2, 2))), node("event", 0, 2, Some((1, 2)))]);
    assert_eq!(found.len(), 2);
    assert_eq!(found[0].start_line, 0);
    assert_eq!(found[1].start_line, 1);
    assert_eq!(found[1].collapsed_text, " … 1 lines of section ");
}

#[test]
fn entry_sections_are_named_by_their_key() {
    let mut trigger = node("entry_section", 1, 3, Some((2, 3)));
    trigger.key = Some("trigger".to_string());
    let found = ranges(&vec![trigger, node("command", 0, 3, Some((1, 3)))]);
    assert!(found.iter().any(|fold| fold.collapsed_text.contains("trigger")));
    let unnamed = node_fold(&node("entry_section", 1, 3, Some((2, 3)))).unwrap();
    assert_eq!(unnamed.collapsed_text, " … 2 lines of section ");
}

#[test]
fn folds_block_comments_as_comments() {
    let found = ranges(&vec![node("block_comment", 0, 3, None), node("event", 4, 5, Some((5, 5)))]);
    assert_eq!(found.len(), 2);
    assert_eq!(found[0].kind, FoldKind::Comment);
    assert_eq!(found[0].collapsed_text, "###  …  ###");
    assert_eq!(found[1].kind, FoldKind::Region);
}

#[test]
fn does_not_fold_a_single_line_construct() {
    assert_eq!(ranges(&vec![node("block_comment", 2, 2, None)]), Vec::<Fold>::new());
    assert_eq!(ranges(&vec![node("event", 0, 0, Some((0, 0)))]), Vec::<Fold>::new());
    assert_eq!(ranges(&vec![node("event", 0, 1, None)]), Vec::<Fold>::new());
    assert_eq!(ranges(&vec![node("statement", 0, 4, Some((1, 4)))]), Vec::<Fold>::new());
}

#[test]
fn folds_options_and_variables_blocks() {
    let found = ranges(&vec![
        node("variables", 4, 6, Some((5, 6))),
        node("options", 0, 2, Some((1, 2))),
    ]);
    assert_eq!(found.len(), 2);
    assert_eq!(found[0].collapsed_text, " … 2 lines of options ");
    assert_eq!(found[1].collapsed_text, " … 2 lines of variables ");
}

#[test]
fn one_fold_per_span_the_first_visited_wins() {
    let found = ranges(&vec![
        node("function", 0, 4, Some((1, 4))),
        node("section", 0, 9, Some((1, 4))),
        node("aliases", 0, 4, Some((2, 4))),
    ]);
    assert_eq!(found.len(), 1);
    assert_eq!(found[0].collapsed_text, " … 4 lines of function ");
}

#[test]
fn folds_are_sorted_by_start_then_end() {
    let found = ranges(&vec![
        node("section", 3, 4, Some((4, 4))),
        node("import", 0, 9, Some((1, 9))),
        node("section", 0, 5, Some((1, 5))),
    ]);
    let spans: Vec<(u32, u32)> = found.iter().map(|f| (f.start_line, f.end_line)).collect();
    assert_eq!(spans, vec![(0, 5), (0, 9), (3, 4)]);
}

#[test]
fn folds_command_entries() {
    // command /home:
    //     trigger:
    //         stop
    //         stop
    let mut trigger = node("entry_section", 1, 3, Some((2, 3)));
    trigger.key = Some("trigger".to_string());
    let found = ranges(&vec![
        node("source_file", 0, 4, None),
        node("command", 0, 3, Some((1, 3))),
        node("entry_body", 0, 3, None),
        trigger,
    ]);
    assert!(found.iter().any(|fold| fold.collapsed_text.contains("trigger")));
}
