//! Where the syntax database comes from: the published releases, a version's
//! archive, a file of the user's, a mirror, or SkriptHub's addon catalog.
//!
//! The database is downloaded and cached rather than vendored. This module
//! decides the URL and the cache file name of each source, refuses archives
//! that are known not to parse, and checks that a download is JSON before it
//! may be cached.
use vstd::prelude::*;

use std::collections::hash_map::DefaultHasher;
use std::hash::{BuildHasher, BuildHasherDefault};

use crate::strings::{chars_of, is_ascii_alnum, string_of};
use crate::version::{display_version, parse_version, version_lt, Version, decimal_chars, decimal_of};

verus! {

/// The current release, tracking whatever Skript version is newest.
pub const LATEST_URL: &'static str = "https://docs.skriptlang.org/docs.json";

/// SkriptHub's addon syntax catalog.
pub const SKRIPTHUB_URL: &'static str = "https://skripthub.net/api/v1/addonsyntaxlist/";

/// Why the database could not be had.
#[derive(Debug, Clone, PartialEq, Eq)]
pub enum LoadError {
    /// Reading or writing a file failed.
    Io(String),
    /// The source could not be used or fetched.
    Http(String),
    /// The text is not a database.
    Parse(String),
}

/// Where to get the database from.
#[derive(Debug, Clone, PartialEq, Eq)]
pub enum DocsSource {
    /// The newest published release.
    Latest,
    /// A specific Skript version, from the published archives.
    Version(String),
    /// A file the user generated with `/sk gen-docs`, pinned to their server's
    /// exact Skript build.
    Local(String),
    /// An arbitrary URL, for a private mirror.
    Url(String),
    /// SkriptHub's addon catalog, in its own schema.
    SkriptHub,
    /// A user-supplied syntax file, in either schema.
    Custom(String),
}

/// The oldest archive that is machine-readable: every published archive below
/// it is invalid JSON upstream.
pub open spec fn oldest_archive() -> Version {
    Version { major: 2, minor: 10, patch: 0, stage: 0 }
}

pub fn oldest_usable_archive() -> (v: Version)
    ensures
        v == oldest_archive(),
{
    Version::new(2, 10, 0)
}

/// The URL a source is fetched from; local files have none.
pub open spec fn source_url(s: DocsSource) -> Option<Seq<char>> {
    match s {
        DocsSource::Latest => Some(LATEST_URL@),
        DocsSource::Version(v) => Some(
            "https://docs.skriptlang.org/archives/"@ + v@ + "/docs.json"@,
        ),
        DocsSource::Url(u) => Some(u@),
        DocsSource::SkriptHub => Some(SKRIPTHUB_URL@),
        DocsSource::Local(_) => None,
        DocsSource::Custom(_) => None,
    }
}

/// What `{:?}` prints for a string: std's escaped, quoted form.
pub uninterp spec fn debug_text(s: Seq<char>) -> Seq<char>;

/// The message refusing an archive older than the oldest usable one.
pub open spec fn too_old_message(v: Seq<char>) -> Seq<char> {
    let oldest = display_version(oldest_archive());
    "Skript "@ + v + " cannot be used: every published archive below "@ + oldest
        + " is invalid JSON upstream (the `region` type contains an unescaped quote). The oldest usable version is "@
        + oldest + "."@
}

/// The error that `validate` reports for a source, if any.
pub open spec fn validation_error(s: DocsSource) -> Option<Seq<char>> {
    match s {
        DocsSource::Version(v) => match parse_version(v@) {
            None => Some(debug_text(v@) + " is not a Skript version number"@),
            Some(parsed) => if version_lt(parsed, oldest_archive()) {
                Some(too_old_message(v@))
            } else {
                None
            },
        },
        _ => None,
    }
}

/// Appends the characters of `s`.
pub fn append_str(out: &mut Vec<char>, s: &str)
    ensures
        final(out)@ == old(out)@ + s@,
{
    let chars = chars_of(s);
    append_chars(out, &chars);
}

pub fn append_chars(out: &mut Vec<char>, s: &Vec<char>)
    ensures
        final(out)@ == old(out)@ + s@,
{
    let ghost start = out@;
    let mut i: usize = 0;
    while i < s.len()
        invariant
            i <= s@.len(),
            out@ == start + s@.take(i as int),
        decreases s@.len() - i,
    {
        out.push(s[i]);
        i += 1;
        assert(start + s@.take(i as int) =~= (start + s@.take((i - 1) as int)).push(s@[i - 1]));
    }
    assert(s@.take(s@.len() as int) =~= s@);
}

/// `format!("{:?}", value)`.
#[verifier::external_body]
fn debug_string(value: &str) -> (out: String)
    ensures
        out@ == debug_text(value@),
{
    format!("{value:?}")
}

impl DocsSource {
    /// The URL this source is fetched from; `None` for local files.
    pub fn url(&self) -> (u: Option<String>)
        ensures
            match u {
                Some(s) => source_url(*self) == Some(s@),
                None => source_url(*self) is None,
            },
    {
        match self {
            DocsSource::Latest => Some(string_of(&chars_of(LATEST_URL))),
            DocsSource::Version(version) => {
                let mut out: Vec<char> = Vec::new();
                append_str(&mut out, "https://docs.skriptlang.org/archives/");
                append_str(&mut out, version.as_str());
                append_str(&mut out, "/docs.json");
                Some(string_of(&out))
            },
            DocsSource::Url(url) => Some(url.clone()),
            DocsSource::SkriptHub => Some(string_of(&chars_of(SKRIPTHUB_URL))),
            DocsSource::Local(_) => None,
            DocsSource::Custom(_) => None,
        }
    }

    /// Rejects archives that are known not to parse, with a message that
    /// explains why rather than failing later inside the deserializer.
    pub fn validate(&self) -> (r: Result<(), LoadError>)
        ensures
            match validation_error(*self) {
                Some(message) => r matches Err(LoadError::Http(m)) && m@ == message,
                None => r is Ok,
            },
    {
        match self {
            DocsSource::Version(version) => {
                match Version::parse(version.as_str()) {
                    None => {
                        let mut out = chars_of(debug_string(version.as_str()).as_str());
                        append_str(&mut out, " is not a Skript version number");
                        Err(LoadError::Http(string_of(&out)))
                    },
                    Some(parsed) => {
                        let oldest = oldest_usable_archive();
                        if parsed.lt(&oldest) {
                            let shown = chars_of(oldest.to_string().as_str());
                            let mut out = chars_of("Skript ");
                            append_str(&mut out, version.as_str());
                            append_str(&mut out, " cannot be used: every published archive below ");
                            append_chars(&mut out, &shown);
                            append_str(
                                &mut out,
                                " is invalid JSON upstream (the `region` type contains an unescaped quote). The oldest usable version is ",
                            );
                            append_chars(&mut out, &shown);
                            append_str(&mut out, ".");
                            Err(LoadError::Http(string_of(&out)))
                        } else {
                            Ok(())
                        }
                    },
                }
            },
            _ => Ok(()),
        }
    }
}

// ------------------------------------------------------------ cache keys

/// One character of a sanitized version: ASCII letters, digits and dots stay,
/// everything else becomes `_`.
pub open spec fn safe_char(c: char) -> char {
    if is_ascii_alnum(c) || c == '.' {
        c
    } else {
        '_'
    }
}

/// A user-supplied version made safe to use in a file name: separators become
/// `_`, and a dot that would follow a dot becomes `_`, so no `..` survives.
pub open spec fn sanitized(s: Seq<char>) -> Seq<char>
    decreases s.len(),
{
    if s.len() == 0 {
        Seq::empty()
    } else {
        let out = sanitized(s.drop_last());
        let c = safe_char(s.last());
        if c == '.' && out.len() > 0 && out.last() == '.' {
            out.drop_last().push('_')
        } else {
            out.push(c)
        }
    }
}

/// What `sanitized` yields holds only letters, digits, `.` and `_`, and never
/// two dots in a row: no path separator and no `..` can survive it.
pub proof fn lemma_sanitized_is_safe(s: Seq<char>)
    ensures
        forall|i: int|
            0 <= i < sanitized(s).len() ==> (is_ascii_alnum(#[trigger] sanitized(s)[i]) || sanitized(
                s,
            )[i] == '.' || sanitized(s)[i] == '_'),
        forall|i: int|
            0 <= i < sanitized(s).len() - 1 ==> !(#[trigger] sanitized(s)[i] == '.' && sanitized(
                s,
            )[i + 1] == '.'),
    decreases s.len(),
{
    if s.len() > 0 {
        let prev = sanitized(s.drop_last());
        lemma_sanitized_is_safe(s.drop_last());
        let c = safe_char(s.last());
        let out = sanitized(s);
        if c == '.' && prev.len() > 0 && prev.last() == '.' {
            assert(out == prev.drop_last().push('_'));
            assert forall|i: int| 0 <= i < out.len() implies (is_ascii_alnum(#[trigger] out[i])
                || out[i] == '.' || out[i] == '_') by {
                if i < out.len() - 1 {
                    assert(out[i] == prev[i]);
                }
            }
            assert forall|i: int| 0 <= i < out.len() - 1 implies !(#[trigger] out[i] == '.'
                && out[i + 1] == '.') by {
                assert(out[i] == prev[i]);
                if i + 1 < out.len() - 1 {
                    assert(out[i + 1] == prev[i + 1]);
                }
            }
        } else {
            assert(out == prev.push(c));
            assert forall|i: int| 0 <= i < out.len() implies (is_ascii_alnum(#[trigger] out[i])
                || out[i] == '.' || out[i] == '_') by {
                if i < out.len() - 1 {
                    assert(out[i] == prev[i]);
                }
            }
            assert forall|i: int| 0 <= i < out.len() - 1 implies !(#[trigger] out[i] == '.'
                && out[i + 1] == '.') by {
                assert(out[i] == prev[i]);
                if i + 1 < out.len() - 1 {
                    assert(out[i + 1] == prev[i + 1]);
                }
            }
        }
    }
}

/// Makes a user-supplied version string safe to use as a file name.
pub fn sanitize(value: &str) -> (out: String)
    ensures
        out@ == sanitized(value@),
{
    let chars = chars_of(value);
    let mut out: Vec<char> = Vec::new();
    let mut i: usize = 0;
    while i < chars.len()
        invariant
            i <= chars@.len(),
            out@ == sanitized(chars@.take(i as int)),
        decreases chars@.len() - i,
    {
        let c = chars[i];
        let d = if ('0' <= c && c <= '9') || ('a' <= c && c <= 'z') || ('A' <= c && c <= 'Z')
            || c == '.' {
            c
        } else {
            '_'
        };
        if d == '.' && out.len() > 0 && out[out.len() - 1] == '.' {
            out.pop();
            out.push('_');
        } else {
            out.push(d);
        }
        i += 1;
        assert(chars@.take(i as int).drop_last() =~= chars@.take((i - 1) as int));
    }
    assert(chars@.take(chars@.len() as int) =~= chars@);
    string_of(&out)
}

/// What std's `DefaultHasher`, created with `new`, yields for a string. Its
/// keys are fixed, not seeded per process.
pub uninterp spec fn default_hash(s: Seq<char>) -> u64;

/// Hashes a string with std's `BuildHasher::hash_one` over `DefaultHasher`,
/// which makes a `DefaultHasher` as `new` does, hashes the value and finishes;
/// the contract names the result and claims nothing of the algorithm.
#[verifier::external_body]
pub(crate) fn hash(value: &str) -> (h: u64)
    ensures
        h == default_hash(value@),
{
    BuildHasherDefault::<DefaultHasher>::default().hash_one(value)
}

pub open spec fn hex_digit(d: nat) -> char {
    if d < 10 {
        (('0' as nat) + d) as char
    } else {
        (('a' as nat) + d - 10) as char
    }
}

/// The last `width` lowercase hexadecimal digits of `n`, zero-padded.
pub open spec fn hex_chars(n: nat, width: nat) -> Seq<char>
    decreases width,
{
    if width == 0 {
        Seq::empty()
    } else {
        hex_chars(n / 16, (width - 1) as nat).push(hex_digit(n % 16))
    }
}

fn hex_digit_of(d: u64) -> (c: char)
    requires
        d < 16,
    ensures
        c == hex_digit(d as nat),
{
    if d < 10 {
        ((48 + d) as u8) as char
    } else {
        ((87 + d) as u8) as char
    }
}

/// Appends `format!("{:0w$x}", n)` for the last `width` digits.
fn append_hex(out: &mut Vec<char>, n: u64, width: usize)
    ensures
        final(out)@ == old(out)@ + hex_chars(n as nat, width as nat),
    decreases width,
{
    if width > 0 {
        append_hex(out, n / 16, width - 1);
        out.push(hex_digit_of(n % 16));
        assert(hex_chars(n as nat, width as nat) == hex_chars((n / 16) as nat, (width - 1) as nat).push(
            hex_digit((n % 16) as nat),
        ));
    } else {
        assert(old(out)@ + hex_chars(n as nat, 0) =~= old(out)@);
    }
}

/// The cache file name of a source.
pub open spec fn cache_name(s: DocsSource) -> Seq<char> {
    match s {
        DocsSource::Latest => "docs-latest.json"@,
        DocsSource::Version(v) => "docs-"@ + sanitized(v@) + ".json"@,
        DocsSource::Url(u) => "docs-"@ + hex_chars(default_hash(u@) as nat, 16) + ".json"@,
        DocsSource::SkriptHub => "skripthub-addons.json"@,
        DocsSource::Local(p) => "docs-local-"@ + hex_chars(default_hash(p@) as nat, 16) + ".json"@,
        DocsSource::Custom(p) => "docs-custom-"@ + hex_chars(default_hash(p@) as nat, 16) + ".json"@,
    }
}

fn hashed_name(head: &str, value: &str) -> (out: String)
    ensures
        out@ == head@ + hex_chars(default_hash(value@) as nat, 16) + ".json"@,
{
    let mut out = chars_of(head);
    append_hex(&mut out, hash(value), 16);
    append_str(&mut out, ".json");
    string_of(&out)
}

impl DocsSource {
    /// A stable file name for this source's cache entry.
    pub fn cache_key(&self) -> (key: String)
        ensures
            key@ == cache_name(*self),
    {
        match self {
            DocsSource::Latest => string_of(&chars_of("docs-latest.json")),
            DocsSource::Version(version) => {
                let mut out = chars_of("docs-");
                let safe = sanitize(version.as_str());
                append_str(&mut out, safe.as_str());
                append_str(&mut out, ".json");
                string_of(&out)
            },
            DocsSource::Url(url) => hashed_name("docs-", url.as_str()),
            DocsSource::SkriptHub => string_of(&chars_of("skripthub-addons.json")),
            DocsSource::Local(path) => hashed_name("docs-local-", path.as_str()),
            DocsSource::Custom(path) => hashed_name("docs-custom-", path.as_str()),
        }
    }
}

// ------------------------------------------------------------ downloads

/// Whether `serde_json` reads `text` as a JSON value.
pub uninterp spec fn is_json(text: Seq<char>) -> bool;

/// Whether the text parses as JSON, by `serde_json::from_str::<Value>`.
#[verifier::external_body]
fn parses_as_json(text: &str) -> (b: bool)
    ensures
        b == is_json(text@),
{
    serde_json::from_str::<serde_json::Value>(text).is_ok()
}

/// The message for a download that is not JSON.
pub open spec fn not_json_message(url: Seq<char>, bytes: nat) -> Seq<char> {
    url + " returned "@ + decimal_chars(bytes) + " bytes that are not valid JSON \u{2014} not caching it"@
}

/// Only what parses may be cached: a truncated body or an error page served
/// with 200 OK would otherwise be taken as fresh for a day. `bytes` is the
/// length of the text in bytes.
pub fn check_download(url: &str, text: &str, bytes: u64) -> (r: Result<(), LoadError>)
    ensures
        is_json(text@) ==> r is Ok,
        !is_json(text@) ==> (r matches Err(LoadError::Http(m)) && m@ == not_json_message(
            url@,
            bytes as nat,
        )),
{
    if parses_as_json(text) {
        Ok(())
    } else {
        let mut out = chars_of(url);
        append_str(&mut out, " returned ");
        let digits = decimal_of(bytes);
        append_chars(&mut out, &digits);
        append_str(&mut out, " bytes that are not valid JSON \u{2014} not caching it");
        Err(LoadError::Http(string_of(&out)))
    }
}

} // verus!
