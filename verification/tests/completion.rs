use skript_lsp::completion::{
    argument_offsets, enclosing_call, filter_text_for, pick_branch, snippet_for, snippet_for_typed,
};
use skript_lsp::settings::{AddonSetting, Settings};
use skript_lsp::source::DocsSource;

#[test]
fn snippets_drop_optionals_and_number_the_slots() {
    assert_eq!(
        snippet_for("give %item types% to %players%"),
        "give ${1:item types} to ${2:players}"
    );
    assert_eq!(snippet_for("cancel [the] event"), "cancel event");
    assert_eq!(snippet_for("(spawn|summon) %number%"), "spawn ${1:number}");
}

#[test]
fn snippets_strip_slot_modifiers() {
    assert_eq!(snippet_for("filter %~objects%"), "filter ${1:objects}");
}

#[test]
fn settings_choose_the_right_docs_source() {
    let local = Settings {
        docs_path: Some("/tmp/docs.json".into()),
        ..Default::default()
    };
    assert!(matches!(local.docs_source(), DocsSource::Local(_)));

    let pinned = Settings {
        skript_version: Some("2.15.3".into()),
        ..Default::default()
    };
    assert!(matches!(pinned.docs_source(), DocsSource::Version(_)));

    assert!(matches!(
        Settings::default().docs_source(),
        DocsSource::Latest
    ));
}

#[test]
fn finds_the_enclosing_call_and_argument_index() {
    assert_eq!(
        enclosing_call("\tset {_x} to greet("),
        Some(("greet".to_string(), 0))
    );
    assert_eq!(
        enclosing_call("\tset {_x} to greet(\"a\", "),
        Some(("greet".to_string(), 1))
    );
    assert_eq!(enclosing_call("\tset {_x} to greet(\"a\") "), None);
    assert_eq!(enclosing_call("\tsend \"a (b\" "), None);
    assert_eq!(
        enclosing_call("\tset {_x} to outer(inner("),
        Some(("inner".to_string(), 0))
    );
}

#[test]
fn argument_offsets_point_at_each_argument() {
    let line = "\tset {_x} to greet(a, b)";
    let offsets = argument_offsets(line, 0, 18);
    assert_eq!(offsets.len(), 2);
    assert_eq!(&line[offsets[0] as usize..offsets[0] as usize + 1], "a");
    assert_eq!(&line[offsets[1] as usize..offsets[1] as usize + 1], "b");
}

#[test]
fn a_comma_inside_a_string_or_a_nested_call_does_not_split() {
    let line = "greet(\"a, b\", f(1, 2), c)";
    let offsets = argument_offsets(line, 0, 5);
    assert_eq!(offsets.len(), 3, "got {offsets:?}");
}

#[test]
fn a_name_not_followed_by_a_paren_yields_nothing() {
    assert!(argument_offsets("set {_x} to 5", 0, 3).is_empty());
}

#[test]
fn the_keyword_a_user_types_is_matchable() {
    for (name, pattern, typed) in [
        (
            "Message",
            "(message|send) [message[s]] %objects% [to %commandsenders%]",
            "send",
        ),
        (
            "Consume Brewing Fuel",
            "make %blocks% [not] consume [the] fuel",
            "make",
        ),
        (
            "Apply Fishing Lure",
            "(reel|pull) in [the] hook[ed] entity",
            "reel",
        ),
        (
            "Teleport",
            "teleport %entities% (to|%direction%) %location%",
            "teleport",
        ),
    ] {
        let filter = filter_text_for(name, pattern).to_lowercase();
        assert!(
            filter.contains(typed),
            "typing {typed:?} cannot reach {name:?}; filter text was {filter:?}"
        );
        assert!(
            filter.contains(&name.to_lowercase()),
            "{name:?} is no longer findable by its own name"
        );
    }
}

#[test]
fn slots_and_tab_stops_are_not_matchable_text() {
    let filter = filter_text_for("Message", "(message|send) %objects% [to %commandsenders%]");
    assert!(!filter.contains('%'), "a slot leaked in: {filter:?}");
    assert!(!filter.contains('$'), "a tab stop leaked in: {filter:?}");
}

#[test]
fn a_pattern_with_no_literals_still_yields_the_name() {
    assert_eq!(filter_text_for("Entities", "%*entity types%"), "Entities");
}

const MESSAGE: &str = "(message|send [message[s]]) %objects% [to %audiences%]";

#[test]
fn a_typed_keyword_survives_and_its_optional_does_not_leak() {
    for typed in ["send", "se", "send m"] {
        let snippet = snippet_for_typed(MESSAGE, typed);
        assert!(
            snippet.starts_with("send"),
            "typing {typed:?} inserted {snippet:?}"
        );
        assert!(!snippet.contains('['), "an optional leaked: {snippet:?}");
    }
}

#[test]
fn the_default_is_still_the_shortest_form() {
    assert_eq!(snippet_for(MESSAGE), "message ${1:objects}");
}

#[test]
fn tab_stops_stay_sequential_through_a_chosen_branch() {
    let snippet = snippet_for_typed("(give %items% to|hand) %players%", "give");
    assert!(snippet.contains("${1:"), "{snippet:?}");
    assert!(snippet.contains("${2:"), "{snippet:?}");
}

#[test]
fn an_unrelated_word_falls_back_to_the_first_branch() {
    let list = vec!["message".to_string(), "send".to_string()];
    assert_eq!(pick_branch(&list, "teleport"), "message");
    assert_eq!(pick_branch(&list, ""), "message");
}

// ------------------------------------------------------------ further cases

#[test]
fn filter_text_lists_each_word_once_in_order() {
    assert_eq!(
        filter_text_for("Message", "(message|send) [message[s]] %objects% [to %commandsenders%]"),
        "Message message send s to"
    );
}

#[test]
fn a_regex_becomes_a_numbered_tab_stop() {
    assert_eq!(snippet_for("using <.+> now"), "using $1 now");
}

#[test]
fn argument_offsets_read_the_requested_line_in_bytes() {
    let text = "first line\né(x, yz)";
    assert_eq!(argument_offsets(text, 1, 2), vec![3, 6]);
    assert!(argument_offsets(text, 5, 0).is_empty());
}

#[test]
fn an_open_paren_with_no_name_is_no_call() {
    assert_eq!(enclosing_call("set {_x} to ("), None);
    assert_eq!(enclosing_call("f(a, g(b), "), Some(("f".to_string(), 2)));
}

#[test]
fn addon_settings_read_their_mode() {
    assert!(AddonSetting::Mode("OFF".to_string()).is_off());
    assert!(!AddonSetting::default().is_off());
    let named = AddonSetting::Named(vec!["SkBee".to_string()]);
    assert_eq!(named.explicit().map(|v| v.len()), Some(1));
    assert!(AddonSetting::default().explicit().is_none());
}

#[test]
fn a_url_beats_a_pinned_version() {
    let settings = Settings {
        docs_url: Some("https://example.org/docs.json".into()),
        skript_version: Some("2.15.3".into()),
        ..Default::default()
    };
    assert_eq!(
        settings.docs_source(),
        DocsSource::Url("https://example.org/docs.json".into())
    );
}
