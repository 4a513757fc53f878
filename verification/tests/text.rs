use skript_lsp::text::{Position, Range};

#[test]
fn contains_is_half_open_and_touches_is_closed() {
    let range = Range::new(Position::new(1, 2), Position::new(1, 6));
    assert!(range.contains(Position::new(1, 2)));
    assert!(range.contains(Position::new(1, 5)));
    assert!(!range.contains(Position::new(1, 6)));
    assert!(range.touches(Position::new(1, 6)));
    assert!(!range.touches(Position::new(1, 7)));
}

#[test]
fn positions_order_by_line_then_character() {
    assert!(Position::new(0, 9).before(&Position::new(1, 0)));
    assert!(Position::new(1, 2).before(&Position::new(1, 3)));
    assert!(!Position::new(1, 3).before(&Position::new(1, 3)));
    assert!(Position::new(1, 3).at_or_before(&Position::new(1, 3)));
}

#[test]
fn a_multi_line_range_contains_the_lines_between() {
    let range = Range::new(Position::new(1, 5), Position::new(3, 0));
    assert!(range.contains(Position::new(2, 100)));
    assert!(!range.contains(Position::new(1, 4)));
    assert!(range.touches(Position::new(3, 0)));
}
