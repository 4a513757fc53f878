use std::collections::hash_map::DefaultHasher;
use std::hash::{Hash, Hasher};

use skript_lsp::source::{check_download, sanitize, DocsSource, LoadError, LATEST_URL};

/// What std's `DefaultHasher` yields for a string.
fn hash(value: &str) -> u64 {
    let mut hasher = DefaultHasher::new();
    value.to_string().hash(&mut hasher);
    hasher.finish()
}

#[test]
fn builds_archive_urls() {
    assert_eq!(DocsSource::Latest.url().unwrap(), LATEST_URL);
    assert_eq!(
        DocsSource::Version("2.15.3".into()).url().unwrap(),
        "https://docs.skriptlang.org/archives/2.15.3/docs.json"
    );
    assert!(DocsSource::Local("x.json".into()).url().is_none());
}

#[test]
fn cache_keys_are_distinct_and_filesystem_safe() {
    let keys = [
        DocsSource::Latest.cache_key(),
        DocsSource::Version("2.15.3".into()).cache_key(),
        DocsSource::Version("../../etc/passwd".into()).cache_key(),
        DocsSource::Url("https://example.com/a.json".into()).cache_key(),
    ];
    for key in &keys {
        assert!(!key.contains('/') && !key.contains('\\') && !key.contains(".."));
    }
    let unique: std::collections::HashSet<_> = keys.iter().collect();
    assert_eq!(unique.len(), keys.len());
}

#[test]
fn sanitize_collapses_dots_and_replaces_separators() {
    assert_eq!(sanitize("2.15.3"), "2.15.3");
    assert_eq!(sanitize("../../etc/passwd"), "____etc_passwd");
    assert_eq!(sanitize("a...b"), "a_.b");
}

#[test]
fn a_url_key_is_its_hash_in_sixteen_hex_digits() {
    let url = "https://example.com/a.json";
    let key = DocsSource::Url(url.into()).cache_key();
    assert_eq!(key, format!("docs-{:016x}.json", hash(url)));
    assert_ne!(hash("a"), hash("b"));
}

#[test]
fn validates_archive_versions() {
    assert!(DocsSource::Latest.validate().is_ok());
    assert!(DocsSource::Version("2.10".into()).validate().is_ok());
    assert!(DocsSource::Version("2.16.1".into()).validate().is_ok());
    match DocsSource::Version("2.9.5".into()).validate() {
        Err(LoadError::Http(message)) => {
            assert!(message.starts_with("Skript 2.9.5 cannot be used"));
            assert!(message.ends_with("The oldest usable version is 2.10."));
        }
        other => panic!("expected an error, got {other:?}"),
    }
    match DocsSource::Version("latest!".into()).validate() {
        Err(LoadError::Http(message)) => {
            assert_eq!(message, "\"latest!\" is not a Skript version number");
        }
        other => panic!("expected an error, got {other:?}"),
    }
}

#[test]
fn only_json_may_be_cached() {
    assert!(check_download("u", "{\"a\": 1}", 8).is_ok());
    assert_eq!(
        check_download("https://x", "<html>", 6),
        Err(LoadError::Http(
            "https://x returned 6 bytes that are not valid JSON \u{2014} not caching it".into()
        ))
    );
}
