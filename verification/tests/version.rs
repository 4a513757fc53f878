use skript_lsp::version::{parse_since, Version};

#[test]
fn parses_plain_versions() {
    assert_eq!(Version::parse("2.10"), Some(Version::new(2, 10, 0)));
    assert_eq!(Version::parse("2.8.0"), Some(Version::new(2, 8, 0)));
    assert_eq!(Version::parse("1.0"), Some(Version::new(1, 0, 0)));
}

#[test]
fn normalises_minor_and_patch_spelling() {
    assert_eq!(Version::parse("2.9"), Version::parse("2.9.0"));
}

#[test]
fn a_dev_build_sorts_before_its_release() {
    let dev = Version::parse("2.2-dev28").unwrap();
    let release = Version::parse("2.2").unwrap();
    assert!(dev < release, "{dev:?} should precede {release:?}");
}

#[test]
fn a_fixes_release_sorts_after_its_release() {
    let fixes = Version::parse("2.2-Fixes-V10").unwrap();
    let release = Version::parse("2.2").unwrap();
    assert!(fixes > release, "{fixes:?} should follow {release:?}");
    assert!(fixes < Version::parse("2.3").unwrap());
}

#[test]
fn is_case_insensitive_about_tags() {
    assert_eq!(
        Version::parse("2.2-Fixes-V10"),
        Version::parse("2.2-fixes-v10")
    );
}

#[test]
fn parses_space_separated_prereleases() {
    let beta = Version::parse("2.0 beta 3").unwrap();
    assert!(beta < Version::parse("2.0").unwrap());
    let pre = Version::parse("1.0 pre-5").unwrap();
    assert!(pre < Version::parse("1.0").unwrap());
    assert_eq!(Version::parse("2.4-alpha4").unwrap().major, 2);
}

#[test]
fn takes_the_earliest_atom_of_a_history() {
    assert_eq!(
        parse_since("1.0, 2.6 (BlockData support)"),
        Some(Version::new(1, 0, 0))
    );
    assert_eq!(
        parse_since("2.2, 2.7 (local functions)"),
        Some(Version::new(2, 2, 0))
    );
    assert_eq!(
        parse_since("1.0, 2.6.1 (with section), 2.8.6 (dropped items), 2.10 (entity snapshots)"),
        Some(Version::new(1, 0, 0))
    );
}

#[test]
fn ignores_commas_inside_a_note() {
    assert_eq!(
        parse_since("2.14 (syntax changes, infinite duration support)"),
        Some(Version::new(2, 14, 0))
    );
    assert_eq!(
        parse_since("1.3 (spawned entity), 2.0 (shot entity), 2.7 (struck lightning, firework)"),
        Some(Version::new(1, 3, 0))
    );
}

#[test]
fn handles_a_non_monotonic_history() {
    assert_eq!(
        parse_since("2.1.2, 2.2 (offline players' uuids), 2.2-dev24 (other entities' uuids)"),
        Some(Version::new(2, 1, 2))
    );
}

#[test]
fn handles_unknown_and_absent() {
    assert_eq!(parse_since("unknown (before 2.1)"), None);
    assert_eq!(parse_since("Before 2.1"), None);
    assert_eq!(parse_since("before 2.1"), None);
    assert_eq!(parse_since(""), None);
    assert_eq!(
        parse_since("unknown, 2.5.2 (falling block), 2.8.0 (any entity support)"),
        Some(Version::new(2, 5, 2))
    );
}

#[test]
fn handles_embedded_quotes_in_notes() {
    assert_eq!(
        parse_since("1.4.6, 2.12 ('or better')"),
        Some(Version::new(1, 4, 6))
    );
    assert_eq!(
        parse_since("2.15 ('uncolored' vs 'unformatted' distinction)"),
        Some(Version::new(2, 15, 0))
    );
}

#[test]
fn orders_a_realistic_sequence() {
    let mut versions: Vec<Version> = [
        "2.10",
        "1.0",
        "2.2-dev36",
        "2.2",
        "2.8.0",
        "2.2-Fixes-V10",
        "2.16.1",
    ]
    .iter()
    .filter_map(|text| Version::parse(text))
    .collect();
    versions.sort();

    let rendered: Vec<String> = versions.iter().map(Version::to_string).collect();
    assert_eq!(
        rendered,
        ["1.0", "2.2", "2.2", "2.2", "2.8", "2.10", "2.16.1"],
        "sorted order was wrong (display collapses the tags)"
    );
    assert!(Version::parse("2.2-dev36").unwrap() < Version::parse("2.2").unwrap());
    assert!(Version::parse("2.2").unwrap() < Version::parse("2.2-Fixes-V10").unwrap());
}

#[test]
fn display_omits_a_zero_patch() {
    assert_eq!(Version::new(2, 10, 0).to_string(), "2.10");
    assert_eq!(Version::new(2, 8, 6).to_string(), "2.8.6");
}

#[test]
fn compare_agrees_with_the_derived_order() {
    let a = Version::parse("2.2-dev36").unwrap();
    let b = Version::parse("2.2").unwrap();
    assert_eq!(a.compare(&b), std::cmp::Ordering::Less);
    assert_eq!(b.compare(&a), std::cmp::Ordering::Greater);
    assert_eq!(b.compare(&b), std::cmp::Ordering::Equal);
    assert!(a.lt(&b));
    assert!(!b.lt(&a));
}

#[test]
fn text_without_a_number_is_not_a_version() {
    assert_eq!(Version::parse("unknown"), None);
    assert_eq!(Version::parse(""), None);
}

#[test]
fn the_ancient_version_is_the_floor() {
    assert_eq!(Version::ancient(), Version::new(0, 0, 0));
    assert!(Version::ancient().lt(&Version::new(1, 0, 0)));
}

#[test]
fn parsed_versions_stay_within_skripts_real_range() {
    // `since` values as the published database writes them.
    let current = Version::new(2, 16, 1);
    for since in ["2.16.1", "1.0", "2.2-dev36", "2.0 beta 3", "1.0 pre-5", "2.7 (attributes)", "INSERT VERSION 2.9", "2.10, 2.12"] {
        let Some(version) = parse_since(since) else {
            continue;
        };
        assert!(version <= current, "{since:?} parsed as {version:?}");
        assert!(version.major <= 2, "{since:?} parsed as {version:?}");
    }
}
