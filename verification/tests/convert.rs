use skript_lsp::convert::{
    floor_char_boundary, from_lsp_position, nth_line, to_lsp_position, to_lsp_range, Encoding,
    LineIndex,
};
use skript_lsp::text::{Position, Range};

#[test]
fn utf8_is_a_no_op() {
    let index = LineIndex::new("§§§\n");
    assert_eq!(index.to_column(0, 4, Encoding::Utf8), 4);
}

#[test]
fn utf16_counts_code_units_before_the_byte() {
    let index = LineIndex::new("a§b😀c\r\nnext");
    assert_eq!(index.to_column(0, 0, Encoding::Utf16), 0);
    assert_eq!(index.to_column(0, 3, Encoding::Utf16), 2);
    assert_eq!(index.to_column(0, 2, Encoding::Utf16), 1);
    assert_eq!(index.to_column(0, 8, Encoding::Utf16), 5);
    assert_eq!(index.to_column(0, 100, Encoding::Utf16), 6);
    assert_eq!(index.to_column(9, 3, Encoding::Utf16), 0);
    let r = index.to_lsp_range(Range::new(Position::new(0, 1), Position::new(0, 3)), Encoding::Utf16);
    assert_eq!(r, Range::new(Position::new(0, 1), Position::new(0, 2)));
}

#[test]
fn converts_back_from_utf16() {
    let text = "a§b😀c\nx";
    assert_eq!(from_lsp_position(text, Position::new(0, 2), Encoding::Utf16), Position::new(0, 3));
    assert_eq!(from_lsp_position(text, Position::new(0, 5), Encoding::Utf16), Position::new(0, 8));
    assert_eq!(from_lsp_position(text, Position::new(0, 50), Encoding::Utf16), Position::new(0, 9));
    assert_eq!(from_lsp_position(text, Position::new(1, 7), Encoding::Utf8), Position::new(1, 7));
}

#[test]
fn lines_and_boundaries() {
    assert_eq!(nth_line("a\r\r\nb\n", 0).into_iter().collect::<String>(), "a");
    assert_eq!(nth_line("a\nb\n", 2).len(), 0);
    assert_eq!(nth_line("a\nb\n", 5).len(), 0);
    let line: Vec<char> = "a§b".chars().collect();
    assert_eq!(floor_char_boundary(&line, 2), 1);
    assert_eq!(floor_char_boundary(&line, 3), 3);
    assert_eq!(floor_char_boundary(&line, 9), 4);
}

#[test]
fn negotiates_utf8_only_when_offered() {
    let offered = vec!["utf-16".to_string(), "utf-8".to_string()];
    assert_eq!(Encoding::negotiate(Some(&offered)), Encoding::Utf8);
    assert_eq!(Encoding::negotiate(Some(&vec!["utf-16".to_string()])), Encoding::Utf16);
    assert_eq!(Encoding::negotiate(None), Encoding::Utf16);
    assert_eq!(Encoding::Utf8.kind(), "utf-8");
}

const LINE: &str = "send \"héllo ✦\" to player";

#[test]
fn utf8_is_a_pass_through() {
    let position = Position::new(0, 7);
    let lsp = to_lsp_position(LINE, position, Encoding::Utf8);
    assert_eq!(lsp.character, 7);
    assert_eq!(from_lsp_position(LINE, lsp, Encoding::Utf8).character, 7);
}

#[test]
fn utf16_accounts_for_multibyte_characters() {
    let lsp = to_lsp_position(LINE, Position::new(0, 8), Encoding::Utf16);
    assert_eq!(lsp.character, 7);
}

#[test]
fn utf16_round_trips() {
    for byte in 0..LINE.len() as u32 {
        let position = Position::new(0, byte);
        let lsp = to_lsp_position(LINE, position, Encoding::Utf16);
        let back = from_lsp_position(LINE, lsp, Encoding::Utf16);
        assert!(back.character <= byte);
    }
}

#[test]
fn a_byte_offset_inside_a_character_does_not_panic() {
    let lsp = to_lsp_position(LINE, Position::new(0, 7), Encoding::Utf16);
    assert!(lsp.character <= 7);
}

#[test]
fn an_out_of_range_line_is_treated_as_empty() {
    let lsp = to_lsp_position(LINE, Position::new(99, 3), Encoding::Utf16);
    assert_eq!(lsp.character, 0);
}

#[test]
fn negotiation_prefers_utf8_when_offered() {
    let offered = vec!["utf-16".to_string(), "utf-8".to_string()];
    assert_eq!(Encoding::negotiate(Some(&offered)), Encoding::Utf8);
    assert_eq!(Encoding::negotiate(None), Encoding::Utf16);
}

#[test]
fn a_range_converts_both_ends() {
    let r = to_lsp_range(LINE, Range::new(Position::new(0, 8), Position::new(0, 14)), Encoding::Utf16);
    assert_eq!(r, Range::new(Position::new(0, 7), Position::new(0, 12)));
}

#[test]
fn the_line_prefix_stops_at_a_character_boundary() {
    assert_eq!(skript_lsp::convert::line_prefix("send §a hi", 5), "send ");
    // Byte 6 falls inside `§`, so the prefix stops before it.
    assert_eq!(skript_lsp::convert::line_prefix("send §a hi", 6), "send ");
    assert_eq!(skript_lsp::convert::line_prefix("send §a hi", 7), "send §");
    assert_eq!(skript_lsp::convert::line_prefix("abc", 99), "abc");
}

#[test]
fn utf16_round_trip_lands_on_the_last_boundary_at_or_before_the_column() {
    for byte in 0..LINE.len() as u32 {
        let lsp = to_lsp_position(LINE, Position::new(0, byte), Encoding::Utf16);
        let back = from_lsp_position(LINE, lsp, Encoding::Utf16);
        let boundary = (0..=byte as usize).rev().find(|&k| LINE.is_char_boundary(k)).unwrap();
        assert_eq!(back.line, 0);
        assert_eq!(back.character as usize, boundary);
    }
}
