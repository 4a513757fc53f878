use skript_lsp::catalog::{strip_event_wrapper, Category, LineRole};

fn wrapper(line: &str) -> Option<(String, usize)> {
    strip_event_wrapper(&line.chars().collect()).map(|(bare, at)| (bare.into_iter().collect(), at))
}

#[test]
fn roles_follow_indentation() {
    assert_eq!(LineRole::from_indent(0), LineRole::TopLevel);
    assert_eq!(LineRole::from_indent(4), LineRole::Statement);
    assert_eq!(LineRole::TopLevel.tiers(), vec![vec![Category::Structure], vec![Category::Event]]);
    assert!(LineRole::Statement.allows(Category::Effect));
    assert!(!LineRole::Statement.allows(Category::Expression));
    assert!(LineRole::Any.allows(Category::Expression));
    assert_eq!(Category::all().len(), 8);
}

#[test]
fn strips_the_event_wrapper() {
    assert_eq!(wrapper("on first join"), Some(("first join".to_string(), 3)));
    assert_eq!(wrapper("On Cancelled damage"), Some(("damage".to_string(), 13)));
    assert_eq!(
        wrapper("on join with priority highest"),
        Some(("join".to_string(), 3))
    );
    assert_eq!(wrapper("on   "), None);
    assert_eq!(wrapper("every 5 seconds"), None);
    assert_eq!(wrapper("on  é join"), Some(("é join".to_string(), 4)));
}

#[test]
fn every_category_has_a_token_type() {
    for category in Category::all() {
        assert!(!category.semantic_token_type().is_empty());
    }
    assert_eq!(Category::Function.semantic_token_type(), "function");
}
