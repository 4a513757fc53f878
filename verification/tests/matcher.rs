use skript_lsp::matcher::{match_pattern, tokenize, Match};
use skript_lsp::parser::Pattern;

fn matched(pattern: &str, line: &str) -> Option<Match> {
    match_pattern(&Pattern::parse(pattern).unwrap(), line)
}

fn matches(pattern: &str, line: &str) -> bool {
    matched(pattern, line).is_some()
}

fn captures(pattern: &str, line: &str) -> Vec<String> {
    matched(pattern, line)
        .expect("expected a match")
        .captures
        .into_iter()
        .map(|capture| capture.text)
        .collect()
}

#[test]
fn matches_a_literal() {
    assert!(matched("cancel event", "cancel event").is_some());
    assert!(matched("cancel event", "cancel the event").is_none());
}

#[test]
fn is_case_insensitive() {
    assert!(matched("cancel event", "Cancel Event").is_some());
}

#[test]
fn honours_optionals() {
    assert!(matched("cancel [the] event", "cancel event").is_some());
    assert!(matched("cancel [the] event", "cancel the event").is_some());
}

#[test]
fn honours_choices() {
    assert!(matched("(spawn|summon) %number%", "spawn 3").is_some());
    assert!(matched("(spawn|summon) %number%", "summon 3").is_some());
    assert!(matched("(spawn|summon) %number%", "conjure 3").is_none());
}

#[test]
fn captures_slots() {
    assert_eq!(
        captures("give %item types% to %players%", "give 1 diamond to player"),
        vec!["1 diamond", "player"]
    );
}

#[test]
fn binds_a_slot_lazily_so_a_later_literal_anchors_it() {
    assert_eq!(
        captures(
            "send %texts% to %players%",
            r#"send "go to spawn" to player"#
        ),
        vec![r#""go to spawn""#, "player"]
    );
}

#[test]
fn keeps_strings_variables_and_interpolations_whole() {
    let tokens = tokenize(r#"set {my::var} to "a b" and %player's tool%"#);
    let texts: Vec<&str> = tokens.iter().map(|t| t.text.as_str()).collect();
    assert_eq!(
        texts,
        vec![
            "set",
            "{my::var}",
            "to",
            "\"a b\"",
            "and",
            "%player's tool%"
        ]
    );
}

#[test]
fn handles_doubled_quote_escapes() {
    let tokens = tokenize(r#"send "he said ""hi""" to player"#);
    let texts: Vec<&str> = tokens.iter().map(|t| t.text.as_str()).collect();
    assert_eq!(texts, vec!["send", r#""he said ""hi""""#, "to", "player"]);
}

#[test]
fn requires_the_whole_line_to_be_consumed() {
    assert!(matched("cancel event", "cancel event now").is_none());
}

#[test]
fn capture_spans_point_back_into_the_line() {
    let line = "give 1 diamond to player";
    let matched = matched("give %item types% to %players%", line).unwrap();
    let first = &matched.captures[0];
    assert_eq!(&line[first.start..first.end], "1 diamond");
}

#[test]
fn gives_up_rather_than_hanging_on_a_pathological_line() {
    let pattern = "%objects% %objects% %objects% %objects% %objects% %objects%";
    let line = "a b c d e f g h i j k l m n o p q r s t u v w x y z";
    let _ = matched(pattern, line);
}

#[test]
fn a_trailing_slot_may_consume_more_than_one_token() {
    assert!(matches("wait [for] %timespan%", "wait 3 seconds"));
    assert!(matches("loop %objects%", "loop all players"));
    assert!(matches(
        "set %~objects% to %objects%",
        "set {_x} to player's location"
    ));
    assert!(matches("%objects%", "one two three four"));
}

#[test]
fn a_pattern_still_has_to_cover_the_whole_line() {
    assert!(!matches("stop", "stop the music"));
    assert!(!matches("cancel [the] event", "cancel the event now"));
    assert!(!matches("%objects% has passed", "{_d} has passed already"));
    assert!(matches("wait [for] %timespan%", "wait 3 seconds then go"));
}

#[test]
fn captures_are_the_text_the_slot_actually_took() {
    let matched = match_pattern(
        &Pattern::parse("give %~objects% %objects%").unwrap(),
        "give the player 3 gold ingots",
    )
    .expect("should match");
    let texts: Vec<&str> = matched.captures.iter().map(|c| c.text.as_str()).collect();
    assert_eq!(texts, vec!["the", "player 3 gold ingots"]);
}

#[test]
fn a_group_glued_to_a_word_matches_the_whole_word() {
    assert!(matches(
        "[the] event is cancel[l]ed",
        "the event is cancelled"
    ));
    assert!(matches("[the] event is cancel[l]ed", "event is canceled"));
    assert!(matches("%objects% ha(s|ve) passed", "{_d} has passed"));
    assert!(matches("%objects% ha(s|ve) passed", "{_d} have passed"));
    assert!(matches("[right|left]click[ing]", "rightclick"));
    assert!(matches("[right|left]click[ing]", "leftclicking"));
    assert!(matches("[right|left]click[ing]", "click"));
    assert!(matches("%objects% block[s]", "{_x} blocks"));
}

#[test]
fn a_glued_group_does_not_match_across_a_space() {
    assert!(!matches("%objects% block[s]", "{_x} block s"));
}

#[test]
fn spacing_still_separates_ordinary_groups() {
    assert!(matches("[the] event", "the event"));
    assert!(matches("[the] event", "event"));
    assert!(!matches("[the] event", "theevent"));
}

// ------------------------------------------------------------ further cases

#[test]
fn token_spans_are_bytes_into_the_line() {
    let tokens = tokenize("héllo  {x}");
    assert_eq!(tokens.len(), 2);
    assert_eq!((tokens[0].start, tokens[0].end), (0, 6));
    assert_eq!((tokens[1].start, tokens[1].end), (8, 11));
    assert_eq!(tokens[0].text, "héllo");
}

#[test]
fn a_capture_keeps_the_lines_own_case_and_its_slot() {
    let matched = matched("give %item% to %players%", "give DIAMOND to Notch").unwrap();
    assert_eq!(matched.captures.len(), 2);
    assert_eq!(matched.captures[0].text, "DIAMOND");
    assert_eq!(matched.captures[0].slot.types, vec!["item".to_string()]);
    assert_eq!((matched.captures[1].start, matched.captures[1].end), (16, 21));
}

#[test]
fn a_regex_takes_tokens_but_captures_nothing() {
    let matched = matched("using <.+>", "using anything at all").unwrap();
    assert!(matched.captures.is_empty());
}

#[test]
fn an_empty_line_matches_only_what_can_vanish() {
    assert!(matches("[the]", ""));
    assert!(!matches("%objects%", ""));
}

#[test]
fn captures_come_in_line_order_without_overlap() {
    let pattern = skript_lsp::parser::Pattern::parse("set %object% to %object% for %players%").unwrap();
    let line = "set {_x} to 5 + 2 for all players";
    let found = skript_lsp::matcher::match_pattern(&pattern, line).unwrap();
    assert_eq!(found.captures.len(), 3);
    for pair in found.captures.windows(2) {
        assert!(pair[0].end <= pair[1].start);
    }
    for capture in &found.captures {
        assert!(capture.start < capture.end);
        assert_eq!(&line[capture.start..capture.end], capture.text);
    }
}
