use skript_lsp::matcher::match_pattern;
use skript_lsp::parser::Pattern;
use skript_lsp::pattern_index::{literal_coverage, PatternIndex};

fn index_of(patterns: &[&str]) -> PatternIndex<String> {
    let mut index = PatternIndex::new();
    for source in patterns {
        index.insert(Pattern::parse(source).unwrap(), source.to_string());
    }
    index.finish();
    index
}

#[test]
fn narrows_candidates_by_rarest_word() {
    let index = index_of(&[
        "give %item types% to %players%",
        "send %texts% to %players%",
        "broadcast %texts%",
        "cancel [the] event",
    ]);
    let candidates = index.candidates("broadcast \"hi\"");
    assert_eq!(candidates.len(), 1);
}

#[test]
fn picks_the_most_specific_match() {
    let index = index_of(&["%objects%", "give %item types% to %players%"]);
    let (which, _) = index.best_match("give 1 diamond to player").unwrap();
    assert_eq!(which, "give %item types% to %players%");
}

#[test]
fn returns_nothing_for_an_unknown_line() {
    let index = index_of(&["cancel [the] event"]);
    assert!(index.best_match("totally unknown addon syntax").is_none());
}

// ------------------------------------------------------------ further cases

#[test]
fn a_pattern_is_found_only_after_finish() {
    let mut index = PatternIndex::new();
    index.insert(Pattern::parse("broadcast %texts%").unwrap(), 1);
    assert_eq!(index.len(), 1);
    assert!(!index.is_empty());
    assert!(index.candidates("broadcast hi").is_empty());
    index.finish();
    assert_eq!(index.candidates("broadcast hi"), vec![0]);
}

#[test]
fn a_pattern_without_required_words_is_always_a_candidate() {
    let index = index_of(&["%objects%", "cancel [the] event"]);
    assert_eq!(index.candidates("anything at all"), vec![0]);
    assert_eq!(index.candidates("cancel event"), vec![0, 1]);
}

#[test]
fn the_rarest_word_is_the_key() {
    // `to` is required by both of the first two patterns, `give` by one only.
    let index = index_of(&["give %items% to %players%", "send %texts% to %players%"]);
    assert_eq!(index.candidates("to to to"), Vec::<usize>::new());
    assert_eq!(index.candidates("give x to y"), vec![0]);
}

#[test]
fn scores_combine_coverage_and_specificity() {
    let index = index_of(&["%objects%", "give %item types% to %players%"]);
    let scored = index.matches_scored("give 1 diamond to player");
    assert_eq!(scored.len(), 2);
    // `give` and `to` are six bytes of coverage; two words, two slots.
    assert_eq!(scored[0].0, 6 * 10 + 2 * 10 + 2);
    assert_eq!(scored[0].1, "give %item types% to %players%");
    // A bare `%objects%` covers nothing and accepts anything.
    assert_eq!(scored[1].0, -2);
    let plain = index.matches("give 1 diamond to player");
    assert_eq!(plain.len(), 2);
    assert_eq!(plain[1].0, "%objects%");
}

#[test]
fn coverage_counts_the_bytes_outside_the_captures() {
    let pattern = Pattern::parse("give %item types% to %players%").unwrap();
    let line = "give  1 diamond to player";
    let found = match_pattern(&pattern, line).unwrap();
    assert_eq!(literal_coverage(line, &found), 6);
}
