use skript_lsp::catalog::Category;
use skript_lsp::convert::{Encoding, LineIndex};
use skript_lsp::semantic::{
    call_statement, encode, entry_key, executable_part, push_span, push_token, strip_trailing_comment,
    token_type_index, token_types, Token,
};
use skript_lsp::symbols::{FileSymbols, Reference, Symbol, SymbolKind};
use skript_lsp::text::{Position, Range};

#[test]
fn the_legend_covers_every_category() {
    for category in Category::all() {
        assert!(
            token_type_index(category).is_some(),
            "{category:?} has no legend entry"
        );
    }
}

#[test]
fn does_not_treat_a_hash_inside_a_string_as_a_comment() {
    assert_eq!(
        strip_trailing_comment(r#"send "item #1" to player"#),
        r#"send "item #1" to player"#
    );
    assert_eq!(strip_trailing_comment("stop # done"), "stop ");
    assert_eq!(
        strip_trailing_comment("set {count##} to 1"),
        "set {count##} to 1"
    );
}

#[test]
fn a_doubled_hash_is_an_escaped_literal() {
    assert_eq!(strip_trailing_comment("send \"a\" ## not a comment"), "send \"a\" ## not a comment");
    assert_eq!(strip_trailing_comment("{x # y} # real"), "{x # y} ");
}

#[test]
fn executable_part_drops_comments_and_blank_lines() {
    assert_eq!(executable_part("   # just a comment"), None);
    assert_eq!(executable_part("   "), None);
    assert_eq!(executable_part("\tstop # done"), Some("stop".to_string()));
}

#[test]
fn legend_indices_follow_the_legend() {
    assert_eq!(token_type_index(Category::Effect), Some(0));
    assert_eq!(token_type_index(Category::Structure), Some(5));
    assert_eq!(token_type_index(Category::Function), Some(7));
    assert_eq!(token_types().len(), 8);
}

#[test]
fn spans_colour_words_not_whitespace() {
    let code: Vec<char> = "give  apple to".chars().collect();
    let mut tokens = Vec::new();
    push_span(&mut tokens, &code, 2, 1, 0, 11, 0, 0);
    let spans: Vec<(u32, u32)> = tokens.iter().map(|t| (t.start, t.length)).collect();
    assert_eq!(spans, [(1, 4), (7, 5)]);
    push_token(&mut tokens, 3, (5, 5), 7, 0);
    assert_eq!(tokens.len(), 2);
}

fn tok(line: u32, start: u32, length: u32) -> Token {
    Token { line, start, length, token_type: 0, modifiers: 0 }
}

#[test]
fn tokens_are_delta_encoded_in_order() {
    let index = LineIndex::new("aaaa bbbb\ncc\n");
    let out = encode(vec![tok(1, 0, 2), tok(0, 5, 4), tok(0, 0, 4)], &index, Encoding::Utf16);
    let deltas: Vec<(u32, u32, u32)> = out.iter().map(|t| (t.delta_line, t.delta_start, t.length)).collect();
    assert_eq!(deltas, [(0, 0, 4), (0, 5, 4), (1, 0, 2)]);
}

#[test]
fn utf16_columns_count_code_units() {
    let index = LineIndex::new("§a x");
    let out = encode(vec![tok(0, 4, 1)], &index, Encoding::Utf16);
    assert_eq!(out[0].delta_start, 3);
    let out = encode(vec![tok(0, 4, 1)], &index, Encoding::Utf8);
    assert_eq!(out[0].delta_start, 4);
}

fn range(line: u32, start: u32, end: u32) -> Range {
    Range::new(Position::new(line, start), Position::new(line, end))
}

#[test]
fn entries_and_calls_come_from_the_index() {
    let symbols = FileSymbols {
        symbols: vec![Symbol {
            kind: SymbolKind::Command,
            name: "home".to_string(),
            detail: String::new(),
            range: range(0, 0, 20),
            selection_range: range(0, 8, 13),
            children: vec![Symbol {
                kind: SymbolKind::Entry,
                name: "permission".to_string(),
                detail: String::new(),
                range: range(1, 1, 30),
                selection_range: range(1, 1, 11),
                children: Vec::new(),
            }],
        }],
        references: vec![Reference {
            kind: SymbolKind::Function,
            name: "giveKit".to_string(),
            range: range(3, 1, 8),
            name_range: range(3, 1, 8),
            scope: None,
        }],
    };
    assert_eq!(entry_key(&symbols, 1), Some((1, 11)));
    assert_eq!(entry_key(&symbols, 0), None);
    assert_eq!(call_statement(&symbols, 3), Some((1, 8)));
    assert_eq!(call_statement(&symbols, 1), None);
}

#[test]
fn the_legend_has_two_modifiers() {
    assert_eq!(skript_lsp::semantic::token_modifiers(), vec!["deprecated", "defaultLibrary"]);
}

#[test]
fn tokens_at_the_same_place_keep_their_order() {
    let index = LineIndex::new("aaaa bbbb\n");
    let first = Token { line: 0, start: 5, length: 4, token_type: 2, modifiers: 0 };
    let second = Token { line: 0, start: 5, length: 2, token_type: 7, modifiers: 1 };
    let out = encode(vec![second, tok(0, 0, 4), first], &index, Encoding::Utf8);
    let seen: Vec<(u32, u32, u32, u32)> =
        out.iter().map(|t| (t.delta_start, t.length, t.token_type, t.token_modifiers_bitset)).collect();
    assert_eq!(seen, [(0, 4, 0, 0), (5, 2, 7, 1), (0, 4, 2, 0)]);
}
