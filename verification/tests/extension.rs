use skript_lsp::extension::{
    after_fetch, archive_kind, asset_name, binary_path, binary_source, completion_label, exe_name,
    install_plan, newest_first, update_check_due, version_dir, version_key, ArchiveKind,
    Architecture, BinarySource, CompletionKind, InstallPlan, Os, UPDATE_CHECK_TTL_SECONDS,
};

fn names(list: &[&str]) -> Vec<String> {
    list.iter().map(|name| name.to_string()).collect()
}

#[test]
fn version_key_reads_numeric_components() {
    assert_eq!(version_key("skript-lsp-0.10.0"), vec![0, 10, 0]);
    assert_eq!(version_key("skript-lsp-1.2.3-rc4"), vec![1, 2, 3, 4]);
    assert_eq!(version_key("skript-lsp-007.1"), vec![7, 1]);
}

#[test]
fn version_key_of_an_unparseable_name_is_empty() {
    assert_eq!(version_key("stray"), Vec::<u64>::new());
    assert_eq!(version_key("skript-lsp-"), Vec::<u64>::new());
    assert_eq!(version_key(""), Vec::<u64>::new());
}

#[test]
fn version_key_strips_every_leading_prefix() {
    assert_eq!(version_key("skript-lsp-skript-lsp-2.0"), vec![2, 0]);
}

#[test]
fn version_key_drops_components_too_large_for_u64() {
    assert_eq!(version_key("skript-lsp-99999999999999999999.1"), vec![1]);
    assert_eq!(version_key("skript-lsp-18446744073709551615"), vec![u64::MAX]);
    assert_eq!(version_key("skript-lsp-18446744073709551616.3"), vec![3]);
}

#[test]
fn newer_minor_versions_sort_first_numerically() {
    let sorted = newest_first(&names(&["skript-lsp-0.9.0", "skript-lsp-0.10.0", "skript-lsp-0.2.1"]));
    assert_eq!(sorted, names(&["skript-lsp-0.10.0", "skript-lsp-0.9.0", "skript-lsp-0.2.1"]));
}

#[test]
fn unparseable_directories_sort_last() {
    let sorted = newest_first(&names(&["stray", "skript-lsp-1.0.0", "skript-lsp-x"]));
    assert_eq!(sorted, names(&["skript-lsp-1.0.0", "stray", "skript-lsp-x"]));
}

#[test]
fn equal_versions_keep_their_order() {
    let sorted = newest_first(&names(&["b1.0", "skript-lsp-0.5", "a1.0", "skript-lsp-1.0"]));
    assert_eq!(sorted, names(&["b1.0", "a1.0", "skript-lsp-1.0", "skript-lsp-0.5"]));
}

#[test]
fn a_version_prefix_sorts_before_its_extension() {
    let sorted = newest_first(&names(&["skript-lsp-1.0", "skript-lsp-1.0.1", "skript-lsp-1"]));
    assert_eq!(sorted, names(&["skript-lsp-1.0.1", "skript-lsp-1.0", "skript-lsp-1"]));
}

#[test]
fn asset_names_follow_the_release_layout() {
    assert_eq!(
        asset_name(Os::Linux, Architecture::X8664),
        Ok("skript-lsp-x86_64-unknown-linux-gnu.tar.gz".to_string())
    );
    assert_eq!(
        asset_name(Os::Mac, Architecture::Aarch64),
        Ok("skript-lsp-aarch64-apple-darwin.tar.gz".to_string())
    );
    assert_eq!(
        asset_name(Os::Windows, Architecture::X8664),
        Ok("skript-lsp-x86_64-pc-windows-msvc.zip".to_string())
    );
}

#[test]
fn there_is_no_32_bit_x86_asset() {
    assert_eq!(
        asset_name(Os::Linux, Architecture::X86),
        Err("skript-lsp is not built for 32-bit x86".to_string())
    );
}

#[test]
fn archives_are_zip_on_windows_only() {
    assert_eq!(archive_kind(Os::Windows), ArchiveKind::Zip);
    assert_eq!(archive_kind(Os::Linux), ArchiveKind::GzipTar);
    assert_eq!(archive_kind(Os::Mac), ArchiveKind::GzipTar);
}

#[test]
fn executable_names_and_paths() {
    assert_eq!(exe_name("skript-lsp", Os::Windows), "skript-lsp.exe");
    assert_eq!(exe_name("skript-lsp", Os::Mac), "skript-lsp");
    assert_eq!(version_dir("1.2.0"), "skript-lsp-1.2.0");
    assert_eq!(binary_path("skript-lsp-1.2.0", Os::Linux), "skript-lsp-1.2.0/skript-lsp");
    assert_eq!(binary_path("skript-lsp-1.2.0", Os::Windows), "skript-lsp-1.2.0/skript-lsp.exe");
}

#[test]
fn update_checks_are_due_after_a_day() {
    assert!(update_check_due(None));
    assert!(!update_check_due(Some(0)));
    assert!(!update_check_due(Some(UPDATE_CHECK_TTL_SECONDS - 1)));
    assert!(update_check_due(Some(UPDATE_CHECK_TTL_SECONDS)));
    assert_eq!(UPDATE_CHECK_TTL_SECONDS, 24 * 60 * 60);
}

#[test]
fn a_configured_binary_wins_then_path_then_download() {
    assert_eq!(
        binary_source(Some("/opt/lsp".to_string()), Some("/usr/bin/skript-lsp".to_string())),
        BinarySource::Configured("/opt/lsp".to_string())
    );
    assert_eq!(
        binary_source(None, Some("/usr/bin/skript-lsp".to_string())),
        BinarySource::OnPath("/usr/bin/skript-lsp".to_string())
    );
    assert_eq!(binary_source(None, None), BinarySource::Download);
}

#[test]
fn install_plan_prefers_cache_then_fresh_install() {
    assert_eq!(
        install_plan(Some("a".to_string()), Some("b".to_string()), true),
        InstallPlan::Cached("a".to_string())
    );
    assert_eq!(
        install_plan(None, Some("b".to_string()), false),
        InstallPlan::Existing("b".to_string())
    );
    assert_eq!(install_plan(None, Some("b".to_string()), true), InstallPlan::Fetch);
    assert_eq!(install_plan(None, None, false), InstallPlan::Fetch);
}

#[test]
fn a_fetched_release_is_used_and_recorded() {
    let resolved = after_fetch(Ok("skript-lsp-2.0/skript-lsp".to_string()), Some("old".to_string())).unwrap();
    assert_eq!(resolved.path, "skript-lsp-2.0/skript-lsp");
    assert!(resolved.record_check);
    assert_eq!(resolved.warning, None);
}

#[test]
fn a_failed_fetch_falls_back_to_the_existing_install() {
    let resolved = after_fetch(Err("rate limited".to_string()), Some("old/skript-lsp".to_string())).unwrap();
    assert_eq!(resolved.path, "old/skript-lsp");
    assert!(!resolved.record_check);
    assert_eq!(
        resolved.warning,
        Some("skript-lsp update check failed, using existing install: rate limited".to_string())
    );
}

#[test]
fn a_failed_fetch_with_nothing_installed_explains_itself() {
    let error = after_fetch(Err("offline".to_string()), None).unwrap_err();
    assert!(error.starts_with("Could not find or download skript-lsp.\n\n"));
    assert!(error.contains("\"lsp\": { \"skript-lsp\": { \"binary\": { \"path\": \"/path/to/skript-lsp\" } } }"));
    assert!(error.ends_with("\n\nUnderlying error: offline"));
}

#[test]
fn completion_labels_split_pattern_and_detail() {
    let label = completion_label("give %item%", Some("effect".to_string()), Some(CompletionKind::Function)).unwrap();
    assert_eq!(label.code, "give %item%  effect");
    assert_eq!(label.spans.len(), 2);
    assert_eq!(label.spans[0].text, "give %item%");
    assert_eq!(label.spans[0].highlight, "function");
    assert_eq!(label.spans[1].text, "  effect");
    assert_eq!(label.spans[1].highlight, "comment");
    assert_eq!((label.filter_start, label.filter_end), (0, 11));
}

#[test]
fn completion_labels_without_detail_or_kind() {
    let label = completion_label("on join", None, Some(CompletionKind::Event)).unwrap();
    assert_eq!(label.code, "on join");
    assert_eq!(label.spans[0].highlight, "function.builtin");
    assert_eq!(label.spans[1].text, "");
    assert!(completion_label("on join", None, None).is_none());
    let other = completion_label("é", None, Some(CompletionKind::Other)).unwrap();
    assert_eq!(other.spans[0].highlight, "");
    assert_eq!(other.filter_end, 2);
}
