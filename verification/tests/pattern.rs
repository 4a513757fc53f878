use skript_lsp::parser::{ParseError, Pattern};
use skript_lsp::pattern::Node;

fn lit(text: &str) -> Node {
    Node::Literal(text.to_string())
}

fn literals_of(pattern: &Pattern) -> Vec<&str> {
    pattern
        .nodes
        .iter()
        .filter_map(|node| match node {
            Node::Literal(text) => Some(text.as_str()),
            _ => None,
        })
        .collect()
}

#[test]
fn parses_a_plain_literal() {
    let pattern = Pattern::parse("cancel event").unwrap();
    assert_eq!(pattern.nodes, vec![lit("cancel event")]);
}

#[test]
fn lowercases_and_collapses_whitespace() {
    let pattern = Pattern::parse("Cancel   The  Event").unwrap();
    assert_eq!(pattern.nodes, vec![lit("cancel the event")]);
}

#[test]
fn parses_optionals() {
    let pattern = Pattern::parse("[the] leash holder[s]").unwrap();
    assert_eq!(
        pattern.nodes,
        vec![
            Node::Optional(vec![lit("the")]),
            Node::Choice(vec![vec![lit("leash holder")], vec![lit("leash holders")]]),
        ]
    );
}

#[test]
fn parses_choices() {
    let pattern = Pattern::parse("(spawn|summon)").unwrap();
    assert_eq!(
        pattern.nodes,
        vec![Node::Choice(vec![vec![lit("spawn")], vec![lit("summon")]])]
    );
}

#[test]
fn parses_a_bare_alternation_inside_an_optional() {
    let pattern = Pattern::parse("[a|b]").unwrap();
    assert_eq!(
        pattern.nodes,
        vec![Node::Optional(vec![Node::Choice(vec![
            vec![lit("a")],
            vec![lit("b")]
        ])])]
    );
}

#[test]
fn parses_slots_with_every_modifier() {
    let pattern =
        Pattern::parse("%~objects% %-player% %*number% %living entities/locations%").unwrap();
    let slots = pattern.slots();
    assert_eq!(slots.len(), 4);
    assert!(slots[0].by_reference);
    assert!(slots[0].is_object());
    assert!(slots[1].nullable);
    assert!(slots[2].literal_only);
    assert_eq!(
        slots[3].types,
        vec!["living entities".to_string(), "locations".to_string()]
    );
}

#[test]
fn parses_a_regex_slot() {
    let pattern = Pattern::parse("using [[the] experiment] <.+>").unwrap();
    assert!(matches!(pattern.nodes.last(), Some(Node::Regex(r)) if r == ".+"));
}

#[test]
fn strips_parse_marks() {
    let pattern = Pattern::parse("[:local] function").unwrap();
    assert_eq!(
        pattern.nodes,
        vec![Node::Optional(vec![lit("local")]), lit("function")]
    );
}

#[test]
fn strips_numbered_parse_marks() {
    let pattern = Pattern::parse("(1¦first|2¦second)").unwrap();
    assert_eq!(
        pattern.nodes,
        vec![Node::Choice(vec![vec![lit("first")], vec![lit("second")]])]
    );
}

#[test]
fn honours_escapes() {
    let pattern = Pattern::parse(r"a \| b").unwrap();
    assert_eq!(pattern.nodes, vec![lit("a | b")]);
}

#[test]
fn required_literals_skip_optionals() {
    let pattern = Pattern::parse("[the] leash holder[s] of %entities%").unwrap();
    assert_eq!(pattern.required_literals(), vec!["leash", "of"]);
}

#[test]
fn required_literals_keep_words_common_to_every_branch() {
    let pattern = Pattern::parse("(is|are) set").unwrap();
    assert_eq!(pattern.required_literals(), vec!["set"]);

    let pattern = Pattern::parse("(cancel the|cancel this) event").unwrap();
    assert_eq!(pattern.required_literals(), vec!["cancel", "event"]);
}

#[test]
fn reports_unclosed_groups() {
    assert!(Pattern::parse("[the").is_err());
    assert!(Pattern::parse("(a|b").is_err());
    assert!(Pattern::parse("%player").is_err());
}

#[test]
fn specificity_prefers_concrete_patterns() {
    let vague = Pattern::parse("%objects%").unwrap();
    let concrete = Pattern::parse("give %item types% to %players%").unwrap();
    assert!(concrete.specificity() > vague.specificity());
}

#[test]
fn a_colon_after_a_slot_is_literal_text() {
    let pattern = Pattern::parse("%number%:%number%").unwrap();
    assert_eq!(
        literals_of(&pattern),
        vec![":"],
        "the colon was swallowed: {:?}",
        pattern.nodes
    );
}

#[test]
fn a_colon_after_a_choice_is_literal_text() {
    let pattern = Pattern::parse("(a|b):c").unwrap();
    assert!(literals_of(&pattern).is_empty(), "got {:?}", pattern.nodes);
    assert_eq!(
        pattern.nodes,
        vec![Node::Choice(vec![
            vec![Node::Literal("a:c".into())],
            vec![Node::Literal("b:c".into())],
        ])],
    );
}

#[test]
fn a_real_parse_mark_is_still_stripped() {
    let pattern = Pattern::parse("[:local] function").unwrap();
    assert_eq!(
        pattern.nodes,
        vec![
            Node::Optional(vec![Node::Literal("local".into())]),
            Node::Literal("function".into())
        ]
    );
}

#[test]
fn a_parse_mark_after_an_alternative_is_still_stripped() {
    let pattern = Pattern::parse("(:first|:second)").unwrap();
    assert_eq!(
        pattern.nodes,
        vec![Node::Choice(vec![
            vec![Node::Literal("first".into())],
            vec![Node::Literal("second".into())]
        ])]
    );
}

// ------------------------------------------------------------ further cases

#[test]
fn unclosed_groups_are_reported_at_the_end_of_the_source() {
    assert_eq!(
        Pattern::parse("[the"),
        Err(ParseError { message: "unclosed `[`".to_string(), offset: 4 })
    );
    assert_eq!(
        Pattern::parse("é(a|b"),
        Err(ParseError { message: "unclosed `(`".to_string(), offset: 6 })
    );
}

#[test]
fn an_unclosed_slot_is_reported_where_it_opens() {
    assert_eq!(
        Pattern::parse("give %player"),
        Err(ParseError { message: "unclosed `%`".to_string(), offset: 5 })
    );
}

#[test]
fn a_less_than_sign_without_a_closing_bracket_is_literal() {
    let pattern = Pattern::parse("(<|>) %number%").unwrap();
    assert_eq!(
        pattern.nodes[0],
        Node::Choice(vec![vec![lit("<")], vec![lit(">")]])
    );
}

#[test]
fn the_source_is_kept() {
    let pattern = Pattern::parse("Cancel [the] Event").unwrap();
    assert_eq!(pattern.source(), "Cancel [the] Event");
}

#[test]
fn specificity_has_an_exact_value() {
    // Two required words, one choice between fixed words, one definite slot.
    let pattern = Pattern::parse("(exit|stop) give %item% to").unwrap();
    assert_eq!(pattern.specificity(), 2 * 10 + 8 + 1);
    let anything = Pattern::parse("%objects% %object%").unwrap();
    assert_eq!(anything.specificity(), -4);
}

#[test]
fn a_glued_run_is_spelled_out_whole() {
    let pattern = Pattern::parse("cancel[l]ed").unwrap();
    assert_eq!(
        pattern.nodes,
        vec![Node::Choice(vec![vec![lit("canceled")], vec![lit("cancelled")]])]
    );
}

fn all_literals(nodes: &[Node], out: &mut Vec<String>) {
    for node in nodes {
        match node {
            Node::Literal(text) => out.push(text.clone()),
            Node::Optional(inner) => all_literals(inner, out),
            Node::Choice(branches) => {
                for branch in branches {
                    all_literals(branch, out);
                }
            }
            _ => {}
        }
    }
}

#[test]
fn nested_literals_are_lowercased_and_collapsed() {
    let pattern = Pattern::parse("Make  [The   BIG] (Red  Dog|Blue\tCat) Jump").unwrap();
    let mut literals = Vec::new();
    all_literals(&pattern.nodes, &mut literals);
    assert!(!literals.is_empty());
    for text in &literals {
        assert!(!text.is_empty());
        assert_eq!(text, &text.to_lowercase());
        assert!(!text.contains("  "));
        assert!(!text.contains('\t'));
    }
    assert!(literals.contains(&"the big".to_string()));
    assert!(literals.contains(&"red dog".to_string()));
    assert!(literals.contains(&"blue cat".to_string()));
}
