//! The editor extension's decisions about the language server binary: where a
//! release is installed, which installed release is newest, which release asset
//! fits the platform, and which binary to launch. The file system, the network
//! and the editor's host calls stay with the caller, which hands the results in
//! as plain values.
use vstd::prelude::*;

use crate::order::is_permutation;
use crate::source::{append_chars, append_str};
use crate::strings::{chars_of, has_prefix_at, is_digit, starts_with, string_of};
use crate::version::{decimal, digit_run};

verus! {

/// The prefix of every release directory and asset name.
pub const RELEASE_PREFIX: &'static str = "skript-lsp-";

/// How long a successful update check stays good for, in seconds (a day).
pub const UPDATE_CHECK_TTL_SECONDS: u64 = 86400;

// ------------------------------------------------------------- version keys

/// `s` with every leading copy of `prefix` removed, as `trim_start_matches`
/// does.
pub open spec fn strip_all(s: Seq<char>, prefix: Seq<char>) -> Seq<char>
    decreases s.len(),
{
    if prefix.len() > 0 && starts_with(s, prefix) {
        strip_all(s.skip(prefix.len() as int), prefix)
    } else {
        s
    }
}

pub proof fn lemma_digit_run_bound(s: Seq<char>)
    ensures
        digit_run(s) <= s.len(),
        s.len() > 0 && is_digit(s[0]) ==> digit_run(s) >= 1,
    decreases s.len(),
{
    if s.len() > 0 && is_digit(s[0]) {
        lemma_digit_run_bound(s.skip(1));
    }
}

/// The values of the maximal runs of ASCII digits in `s`, in order.
pub open spec fn digit_groups(s: Seq<char>) -> Seq<nat>
    decreases s.len(),
{
    if s.len() == 0 {
        Seq::empty()
    } else if !is_digit(s[0]) {
        digit_groups(s.skip(1))
    } else {
        let d = digit_run(s);
        proof {
            lemma_digit_run_bound(s);
        }
        seq![decimal(s.take(d as int))] + digit_groups(s.skip(d as int))
    }
}

/// The values that fit in a `u64`, in order; the others are dropped.
pub open spec fn fitting(values: Seq<nat>) -> Seq<u64>
    decreases values.len(),
{
    if values.len() == 0 {
        Seq::empty()
    } else if values[0] <= u64::MAX {
        seq![values[0] as u64] + fitting(values.skip(1))
    } else {
        fitting(values.skip(1))
    }
}

/// The numeric version components of a release directory name: the digit
/// groups after the `skript-lsp-` prefix, those too large for a `u64` left out.
pub open spec fn key_of(directory: Seq<char>) -> Seq<u64> {
    fitting(digit_groups(strip_all(directory, RELEASE_PREFIX@)))
}

/// Where the digit run starting at `start` ends, and its value when that fits
/// in a `u64`.
fn read_digits(chars: &Vec<char>, start: usize) -> (r: (usize, Option<u64>))
    requires
        start <= chars@.len(),
    ensures
        start <= r.0 <= chars@.len(),
        r.0 - start == digit_run(chars@.skip(start as int)),
        decimal(chars@.subrange(start as int, r.0 as int)) <= u64::MAX ==> r.1 == Some(
            decimal(chars@.subrange(start as int, r.0 as int)) as u64,
        ),
        decimal(chars@.subrange(start as int, r.0 as int)) > u64::MAX ==> r.1 is None,
{
    let mut pos = start;
    let mut value: u64 = 0;
    let mut over = false;
    while pos < chars.len() && '0' <= chars[pos] && chars[pos] <= '9'
        invariant
            start <= pos <= chars@.len(),
            forall|j: int| start <= j < pos ==> is_digit(#[trigger] chars@[j]),
            !over ==> value == decimal(chars@.subrange(start as int, pos as int)),
            over ==> decimal(chars@.subrange(start as int, pos as int)) > u64::MAX,
        decreases chars@.len() - pos,
    {
        let d = (chars[pos] as u64) - ('0' as u64);
        proof {
            let before = chars@.subrange(start as int, pos as int);
            let after = chars@.subrange(start as int, pos + 1);
            assert(after.drop_last() == before);
            assert(after.last() == chars@[pos as int]);
            assert(decimal(after) == decimal(before) * 10 + d);
        }
        if !over {
            if value > 1844674407370955161 || (value == 1844674407370955161 && d > 5) {
                over = true;
            } else {
                value = value * 10 + d;
            }
        }
        pos += 1;
    }
    proof {
        let s = chars@.skip(start as int);
        assert forall|j: int| 0 <= j < pos - start implies is_digit(#[trigger] s[j]) by {
            assert(s[j] == chars@[start + j]);
        }
        if pos - start < s.len() {
            assert(s[pos - start] == chars@[pos as int]);
        }
        crate::version::lemma_digit_run_is(s, pos - start);
    }
    if over {
        (pos, None)
    } else {
        (pos, Some(value))
    }
}

proof fn lemma_fitting_append(a: Seq<nat>, b: Seq<nat>)
    ensures
        fitting(a + b) == fitting(a) + fitting(b),
    decreases a.len(),
{
    if a.len() > 0 {
        assert((a + b).skip(1) == a.skip(1) + b);
        lemma_fitting_append(a.skip(1), b);
    } else {
        assert(a + b == b);
    }
}

/// The numeric version components of a release directory name.
///
/// Anything unparseable yields no components and so sorts lowest.
pub fn version_key(directory: &str) -> (key: Vec<u64>)
    ensures
        key@ == key_of(directory@),
{
    let chars = chars_of(directory);
    let prefix = chars_of(RELEASE_PREFIX);
    proof {
        reveal_strlit("skript-lsp-");
    }
    let mut start: usize = 0;
    assert(chars@.skip(0) == chars@);
    while start < chars.len() && has_prefix_at(&chars, start, &prefix)
        invariant
            start <= chars@.len(),
            prefix@ == RELEASE_PREFIX@,
            prefix@.len() > 0,
            strip_all(chars@, prefix@) == strip_all(chars@.skip(start as int), prefix@),
        decreases chars@.len() - start,
    {
        proof {
            assert(chars@.skip(start as int).skip(prefix@.len() as int) == chars@.skip(
                start + prefix@.len(),
            ));
        }
        start = start + prefix.len();
    }
    proof {
        if start >= chars@.len() {
            assert(chars@.skip(start as int).len() == 0);
        }
    }
    let ghost rest = chars@.skip(start as int);
    let mut key: Vec<u64> = Vec::new();
    let mut pos = start;
    while pos < chars.len()
        invariant
            start <= pos <= chars@.len(),
            rest == chars@.skip(start as int),
            fitting(digit_groups(rest)) == key@ + fitting(digit_groups(chars@.skip(pos as int))),
        decreases chars@.len() - pos,
    {
        let ghost tail = chars@.skip(pos as int);
        if '0' <= chars[pos] && chars[pos] <= '9' {
            let (end, value) = read_digits(&chars, pos);
            proof {
                lemma_digit_run_bound(tail);
                let d = digit_run(tail);
                assert(tail.take(d as int) == chars@.subrange(pos as int, end as int));
                assert(tail.skip(d as int) == chars@.skip(end as int));
                assert(digit_groups(tail) == seq![decimal(tail.take(d as int))] + digit_groups(
                    tail.skip(d as int),
                ));
                lemma_fitting_append(seq![decimal(tail.take(d as int))], digit_groups(tail.skip(d as int)));
                assert(seq![decimal(tail.take(d as int))].skip(1) == Seq::<nat>::empty());
            }
            let ghost before = key@;
            let ghost v0 = decimal(tail.take(digit_run(tail) as int));
            let ghost later = fitting(digit_groups(chars@.skip(end as int)));
            match value {
                Some(v) => {
                    key.push(v);
                    proof {
                        assert(fitting(seq![v0]) == seq![v] + fitting(Seq::<nat>::empty()));
                        assert(before + (seq![v] + later) == key@ + later);
                    }
                },
                None => {
                    proof {
                        assert(fitting(seq![v0]) == fitting(Seq::<nat>::empty()));
                        assert(fitting(seq![v0]) + later == later);
                    }
                },
            }
            pos = end;
        } else {
            proof {
                assert(tail[0] == chars@[pos as int]);
                assert(!is_digit(tail[0]));
                assert(tail.skip(1) == chars@.skip(pos + 1));
            }
            pos += 1;
        }
    }
    proof {
        assert(chars@.skip(pos as int).len() == 0);
        assert(key@ + Seq::<u64>::empty() == key@);
    }
    key
}


// -------------------------------------------------------- newest release first

/// The order on version keys that `Vec<u64>` has: lexicographic, a proper
/// prefix before its extensions.
pub open spec fn key_lt(a: Seq<u64>, b: Seq<u64>) -> bool
    decreases a.len(),
{
    if b.len() == 0 {
        false
    } else if a.len() == 0 {
        true
    } else if a[0] != b[0] {
        a[0] < b[0]
    } else {
        key_lt(a.skip(1), b.skip(1))
    }
}

/// `key_lt` is a strict total order.
pub proof fn lemma_key_order(a: Seq<u64>, b: Seq<u64>, c: Seq<u64>)
    ensures
        !key_lt(a, a),
        key_lt(a, b) ==> !key_lt(b, a),
        key_lt(a, b) && key_lt(b, c) ==> key_lt(a, c),
        a != b ==> (key_lt(a, b) || key_lt(b, a)),
    decreases a.len(),
{
    if a.len() > 0 {
        lemma_key_order(a.skip(1), b.skip(1), c.skip(1));
        if b.len() > 0 && a[0] == b[0] && a.skip(1) == b.skip(1) {
            assert(a =~= b) by {
                assert forall|i: int| 0 <= i < a.len() implies a[i] == b[i] by {
                    if i > 0 {
                        assert(a[i] == a.skip(1)[i - 1]);
                        assert(b[i] == b.skip(1)[i - 1]);
                    }
                }
            }
        }
    } else {
        if b.len() == 0 {
            assert(a =~= b);
        }
    }
}

/// Whether `a` orders before `b` as version keys.
pub fn key_less(a: &Vec<u64>, b: &Vec<u64>) -> (r: bool)
    ensures
        r == key_lt(a@, b@),
{
    let mut i: usize = 0;
    assert(a@.skip(0) == a@ && b@.skip(0) == b@);
    loop
        invariant
            i <= a@.len(),
            i <= b@.len(),
            key_lt(a@, b@) == key_lt(a@.skip(i as int), b@.skip(i as int)),
        decreases a@.len() - i,
    {
        if i == b.len() {
            return false;
        }
        if i == a.len() {
            return true;
        }
        if a[i] != b[i] {
            return a[i] < b[i];
        }
        assert(a@.skip(i as int).skip(1) == a@.skip(i + 1));
        assert(b@.skip(i as int).skip(1) == b@.skip(i + 1));
        i += 1;
    }
}

/// `out` is `names` rearranged by `perm`, newest release first, and names
/// with equal version keys keep the order they came in.
pub open spec fn ranked_by(names: Seq<Seq<char>>, out: Seq<Seq<char>>, perm: Seq<int>) -> bool {
    &&& is_permutation(perm, names.len() as int)
    &&& out.len() == names.len()
    &&& forall|i: int| 0 <= i < out.len() ==> out[i] == names[#[trigger] perm[i]]
    &&& forall|i: int, j: int|
        0 <= i < j < out.len() ==> !key_lt(key_of(#[trigger] out[i]), key_of(#[trigger] out[j]))
    &&& forall|i: int, j: int|
        0 <= i < j < out.len() && key_of(#[trigger] out[i]) == key_of(#[trigger] out[j]) ==> perm[i]
            < perm[j]
}

pub open spec fn views(names: Seq<String>) -> Seq<Seq<char>> {
    names.map_values(|n: String| n@)
}

/// The release directory names, newest version first: a stable sort by
/// version key, descending, so that `skript-lsp-0.10.0` comes before
/// `skript-lsp-0.9.0`.
pub fn newest_first(names: &Vec<String>) -> (out: Vec<String>)
    ensures
        exists|perm: Seq<int>| ranked_by(views(names@), views(out@), perm),
{
    let ghost src = views(names@);
    let mut out: Vec<String> = Vec::new();
    let mut keys: Vec<Vec<u64>> = Vec::new();
    let ghost mut perm: Seq<int> = Seq::empty();
    let mut k: usize = 0;
    while k < names.len()
        invariant
            k <= names@.len(),
            src == views(names@),
            keys@.len() == out@.len(),
            forall|i: int| 0 <= i < keys@.len() ==> (#[trigger] keys@[i])@ == key_of(out@[i]@),
            ranked_by(src.take(k as int), views(out@), perm),
        decreases names@.len() - k,
    {
        let name = names[k].clone();
        let key = version_key(name.as_str());
        let mut p: usize = 0;
        while p < out.len() && !key_less(&keys[p], &key)
            invariant
                p <= out@.len(),
                keys@.len() == out@.len(),
                forall|i: int| 0 <= i < p ==> !key_lt(key_of(#[trigger] out@[i]@), key@),
                forall|i: int| 0 <= i < keys@.len() ==> (#[trigger] keys@[i])@ == key_of(out@[i]@),
            decreases out@.len() - p,
        {
            p += 1;
        }
        let ghost old_out = views(out@);
        let ghost old_perm = perm;
        let ghost old_keys = keys@;
        let ghost raw_out = out@;
        proof {
            lemma_insert_ranked(src, k as int, old_out, old_perm, p as int);
        }
        out.insert(p, name);
        keys.insert(p, key);
        proof {
            perm = old_perm.insert(p as int, k as int);
            assert(views(out@) =~= old_out.insert(p as int, src[k as int]));
            assert forall|i: int| 0 <= i < keys@.len() implies (#[trigger] keys@[i])@ == key_of(out@[i]@) by {
                if i < p {
                    assert(keys@[i] == old_keys[i] && out@[i] == raw_out[i]);
                } else if i > p {
                    assert(keys@[i] == old_keys[i - 1] && out@[i] == raw_out[i - 1]);
                }
            }
        }
        k += 1;
    }
    proof {
        assert(src.take(names@.len() as int) =~= src);
    }
    out
}

proof fn lemma_insert_ranked(src: Seq<Seq<char>>, k: int, out: Seq<Seq<char>>, perm: Seq<int>, p: int)
    requires
        0 <= k < src.len(),
        ranked_by(src.take(k), out, perm),
        0 <= p <= out.len(),
        forall|i: int| 0 <= i < p ==> !key_lt(key_of(#[trigger] out[i]), key_of(src[k])),
        p < out.len() ==> key_lt(key_of(out[p]), key_of(src[k])),
    ensures
        ranked_by(src.take(k + 1), out.insert(p, src[k]), perm.insert(p, k)),
{
    let new_out = out.insert(p, src[k]);
    let new_perm = perm.insert(p, k);
    let kn = key_of(src[k]);
    assert forall|i: int| 0 <= i < new_out.len() implies new_out[i] == src.take(k + 1)[#[trigger] new_perm[i]] by {
        if i < p {
            assert(new_out[i] == out[i] && new_perm[i] == perm[i]);
        } else if i > p {
            assert(new_out[i] == out[i - 1] && new_perm[i] == perm[i - 1]);
        }
    }
    assert forall|i: int| 0 <= i < k + 1 implies 0 <= #[trigger] new_perm[i] < k + 1 by {
        if i < p {
            assert(new_perm[i] == perm[i]);
        } else if i > p {
            assert(new_perm[i] == perm[i - 1]);
        }
    }
    assert forall|i: int, j: int| 0 <= i < j < k + 1 implies new_perm[i] != new_perm[j] by {
        if i < p && j < p {
        } else if i < p && j > p {
            assert(new_perm[j] == perm[j - 1]);
        } else if i > p {
            assert(new_perm[j] == perm[j - 1]);
            assert(new_perm[i] == perm[i - 1]);
        } else if i == p {
            assert(new_perm[j] == perm[j - 1]);
        } else {
            assert(new_perm[i] == perm[i]);
        }
    }
    // Everything after the insertion point is strictly older than the new name.
    assert forall|j: int| p <= j < out.len() implies key_lt(key_of(#[trigger] out[j]), kn) by {
        if j > p {
            lemma_key_order(key_of(out[j]), key_of(out[p]), kn);
            lemma_key_order(key_of(out[p]), key_of(out[j]), kn);
        }
    }
    assert forall|i: int, j: int|
        0 <= i < j < new_out.len() implies !key_lt(key_of(#[trigger] new_out[i]), key_of(#[trigger] new_out[j])) by {
        if j < p {
        } else if j == p {
            assert(new_out[i] == out[i]);
        } else if i < p {
            assert(new_out[i] == out[i]);
            assert(new_out[j] == out[j - 1]);
        } else if i == p {
            assert(new_out[j] == out[j - 1]);
            lemma_key_order(key_of(out[j - 1]), kn, kn);
        } else {
            assert(new_out[i] == out[i - 1]);
            assert(new_out[j] == out[j - 1]);
        }
    }
    assert forall|i: int, j: int|
        0 <= i < j < new_out.len() && key_of(#[trigger] new_out[i]) == key_of(#[trigger] new_out[j]) implies new_perm[i]
        < new_perm[j] by {
        if j < p {
        } else if j == p {
            assert(new_perm[i] == perm[i]);
        } else if i < p {
            assert(new_out[i] == out[i]);
            assert(new_out[j] == out[j - 1]);
            assert(new_perm[i] == perm[i]);
            assert(new_perm[j] == perm[j - 1]);
        } else if i == p {
            assert(new_out[j] == out[j - 1]);
            lemma_key_order(kn, kn, kn);
        } else {
            assert(new_out[i] == out[i - 1]);
            assert(new_out[j] == out[j - 1]);
            assert(new_perm[i] == perm[i - 1]);
            assert(new_perm[j] == perm[j - 1]);
        }
    }
}


// ------------------------------------------------------------ names and paths

/// The platforms release binaries are published for.
#[derive(Debug, Clone, Copy, PartialEq, Eq, Structural)]
pub enum Os {
    Mac,
    Linux,
    Windows,
}

#[derive(Debug, Clone, Copy, PartialEq, Eq, Structural)]
pub enum Architecture {
    Aarch64,
    X8664,
    X86,
}

/// How a release asset is packed.
#[derive(Debug, Clone, Copy, PartialEq, Eq, Structural)]
pub enum ArchiveKind {
    GzipTar,
    Zip,
}

/// The executable's file name for a program stem on `os`.
pub open spec fn exe_text(stem: Seq<char>, os: Os) -> Seq<char> {
    if os == Os::Windows {
        stem + ".exe"@
    } else {
        stem
    }
}

fn text_of(parts: &Vec<char>) -> (out: String)
    ensures
        out@ == parts@,
{
    string_of(parts)
}

/// The executable's file name: `stem.exe` on Windows, `stem` elsewhere.
pub fn exe_name(stem: &str, os: Os) -> (out: String)
    ensures
        out@ == exe_text(stem@, os),
{
    let mut chars = chars_of(stem);
    if os == Os::Windows {
        append_str(&mut chars, ".exe");
    }
    text_of(&chars)
}

/// The directory a release is installed in.
pub fn version_dir(version: &str) -> (out: String)
    ensures
        out@ == RELEASE_PREFIX@ + version@,
{
    let mut chars = chars_of(RELEASE_PREFIX);
    append_str(&mut chars, version);
    text_of(&chars)
}

/// The server binary's path inside a release directory.
pub fn binary_path(dir: &str, os: Os) -> (out: String)
    ensures
        out@ == dir@ + "/"@ + exe_text("skript-lsp"@, os),
{
    let mut chars = chars_of(dir);
    append_str(&mut chars, "/");
    let exe = exe_name("skript-lsp", os);
    append_str(&mut chars, exe.as_str());
    text_of(&chars)
}

pub open spec fn arch_text(arch: Architecture) -> Seq<char> {
    match arch {
        Architecture::Aarch64 => "aarch64"@,
        _ => "x86_64"@,
    }
}

pub open spec fn os_text(os: Os) -> Seq<char> {
    match os {
        Os::Mac => "apple-darwin"@,
        Os::Linux => "unknown-linux-gnu"@,
        Os::Windows => "pc-windows-msvc"@,
    }
}

pub open spec fn archive_text(os: Os) -> Seq<char> {
    if os == Os::Windows {
        "zip"@
    } else {
        "tar.gz"@
    }
}

/// The name of the release asset built for a platform.
pub open spec fn asset_text(os: Os, arch: Architecture) -> Seq<char> {
    RELEASE_PREFIX@ + arch_text(arch) + "-"@ + os_text(os) + "."@ + archive_text(os)
}

/// The release asset to download for a platform, or why there is none:
/// no 32-bit x86 build is published.
pub fn asset_name(os: Os, arch: Architecture) -> (r: Result<String, String>)
    ensures
        arch == Architecture::X86 <==> r is Err,
        r matches Ok(name) ==> name@ == asset_text(os, arch),
        r matches Err(message) ==> message@ == "skript-lsp is not built for 32-bit x86"@,
{
    let arch_part = match arch {
        Architecture::Aarch64 => "aarch64",
        Architecture::X8664 => "x86_64",
        Architecture::X86 => {
            let message = chars_of("skript-lsp is not built for 32-bit x86");
            return Err(text_of(&message));
        },
    };
    let os_part = match os {
        Os::Mac => "apple-darwin",
        Os::Linux => "unknown-linux-gnu",
        Os::Windows => "pc-windows-msvc",
    };
    let extension = match os {
        Os::Windows => "zip",
        _ => "tar.gz",
    };
    let mut chars = chars_of(RELEASE_PREFIX);
    append_str(&mut chars, arch_part);
    append_str(&mut chars, "-");
    append_str(&mut chars, os_part);
    append_str(&mut chars, ".");
    append_str(&mut chars, extension);
    Ok(text_of(&chars))
}

/// How the asset for `os` is packed.
pub fn archive_kind(os: Os) -> (k: ArchiveKind)
    ensures
        k == (if os == Os::Windows {
            ArchiveKind::Zip
        } else {
            ArchiveKind::GzipTar
        }),
{
    match os {
        Os::Windows => ArchiveKind::Zip,
        _ => ArchiveKind::GzipTar,
    }
}

// ---------------------------------------------------------- which binary

/// Whether the last successful update check is too old to rely on, given the
/// seconds since it was recorded, or nothing when that cannot be told (no
/// marker, or a clock that went backwards).
pub fn update_check_due(elapsed_seconds: Option<u64>) -> (due: bool)
    ensures
        due == match elapsed_seconds {
            Some(seconds) => seconds >= UPDATE_CHECK_TTL_SECONDS,
            None => true,
        },
{
    match elapsed_seconds {
        Some(seconds) => seconds >= UPDATE_CHECK_TTL_SECONDS,
        None => true,
    }
}

/// Where the server binary comes from.
#[derive(Debug, Clone, PartialEq, Eq)]
pub enum BinarySource {
    /// A path from the user's settings.
    Configured(String),
    /// A copy found on `$PATH`.
    OnPath(String),
    /// None of those: an extension-managed install.
    Download,
}

/// The binary to launch: an explicit path in the settings wins, then a copy
/// on `$PATH`, and only then a managed download.
pub fn binary_source(configured: Option<String>, on_path: Option<String>) -> (r: BinarySource)
    ensures
        configured matches Some(p) ==> r == BinarySource::Configured(p),
        configured is None ==> (on_path matches Some(p) ==> r == BinarySource::OnPath(p)),
        configured is None && on_path is None ==> r == BinarySource::Download,
{
    match configured {
        Some(path) => BinarySource::Configured(path),
        None => match on_path {
            Some(path) => BinarySource::OnPath(path),
            None => BinarySource::Download,
        },
    }
}

/// What to do before touching the network.
#[derive(Debug, Clone, PartialEq, Eq)]
pub enum InstallPlan {
    /// The path resolved earlier in this process, still a file.
    Cached(String),
    /// An earlier install, used without an update check.
    Existing(String),
    /// Ask for the latest release.
    Fetch,
}

/// The first step of resolving a managed install: a cached path that still
/// exists wins; an earlier install is used while the update check is not due;
/// otherwise the latest release is fetched.
pub fn install_plan(cached: Option<String>, existing: Option<String>, check_due: bool) -> (r: InstallPlan)
    ensures
        cached matches Some(p) ==> r == InstallPlan::Cached(p),
        cached is None && !check_due ==> (existing matches Some(p) ==> r == InstallPlan::Existing(p)),
        cached is None && (check_due || existing is None) ==> r == InstallPlan::Fetch,
{
    match cached {
        Some(path) => InstallPlan::Cached(path),
        None => match existing {
            Some(path) => {
                if check_due {
                    InstallPlan::Fetch
                } else {
                    InstallPlan::Existing(path)
                }
            },
            None => InstallPlan::Fetch,
        },
    }
}

/// The message given when no server binary can be had.
pub const NOT_FOUND_MESSAGE: &'static str = "Could not find or download skript-lsp.\n\nThe Skript extension still provides syntax highlighting, indentation, folding by indent, outline and snippets without it \u{2014} completion, hover, diagnostics, go-to-definition and rename need the language server.\n\nInstall it, or point Zed at an existing build:\n\n  \"lsp\": { \"skript-lsp\": { \"binary\": { \"path\": \"/path/to/skript-lsp\" } } }";

/// A resolved managed install.
#[derive(Debug, Clone, PartialEq, Eq)]
pub struct Resolved {
    pub path: String,
    /// Whether a successful update check is to be recorded.
    pub record_check: bool,
    /// A notice for the user: the update check failed and an older install
    /// is in use.
    pub warning: Option<String>,
}

/// The outcome of fetching the latest release: its binary, else the earlier
/// install with a warning, else the error that nothing could be had.
pub fn after_fetch(fetched: Result<String, String>, existing: Option<String>) -> (r: Result<Resolved, String>)
    ensures
        fetched matches Ok(p) ==> r == Ok::<Resolved, String>(
            Resolved { path: p, record_check: true, warning: None },
        ),
        fetched matches Err(e) ==> match existing {
            Some(p) => r matches Ok(res) && (res.path == p && !res.record_check && (res.warning
                matches Some(w) && w@ == "skript-lsp update check failed, using existing install: "@
                + e@)),
            None => r matches Err(m) && m@ == NOT_FOUND_MESSAGE@ + "\n\nUnderlying error: "@ + e@,
        },
{
    match fetched {
        Ok(path) => Ok(Resolved { path, record_check: true, warning: None }),
        Err(error) => match existing {
            Some(path) => {
                let mut chars = chars_of("skript-lsp update check failed, using existing install: ");
                append_str(&mut chars, error.as_str());
                Ok(Resolved { path, record_check: false, warning: Some(text_of(&chars)) })
            },
            None => {
                let mut chars = chars_of(NOT_FOUND_MESSAGE);
                append_str(&mut chars, "\n\nUnderlying error: ");
                append_str(&mut chars, error.as_str());
                Err(text_of(&chars))
            },
        },
    }
}


// ------------------------------------------------------------ completion labels

/// The kinds of completion item that get their own highlight.
#[derive(Debug, Clone, Copy, PartialEq, Eq, Structural)]
pub enum CompletionKind {
    Function,
    Method,
    Event,
    Variable,
    Field,
    Property,
    Class,
    Struct,
    Constant,
    Keyword,
    Other,
}

/// The highlight name for a completion kind; none for the others.
pub open spec fn highlight_text(kind: CompletionKind) -> Seq<char> {
    match kind {
        CompletionKind::Function | CompletionKind::Method => "function"@,
        CompletionKind::Event => "function.builtin"@,
        CompletionKind::Variable => "variable"@,
        CompletionKind::Field | CompletionKind::Property => "property"@,
        CompletionKind::Class | CompletionKind::Struct => "type"@,
        CompletionKind::Constant => "constant"@,
        CompletionKind::Keyword => "keyword"@,
        CompletionKind::Other => ""@,
    }
}

pub fn highlight_of(kind: CompletionKind) -> (h: &'static str)
    ensures
        h@ == highlight_text(kind),
{
    match kind {
        CompletionKind::Function | CompletionKind::Method => "function",
        CompletionKind::Event => "function.builtin",
        CompletionKind::Variable => "variable",
        CompletionKind::Field | CompletionKind::Property => "property",
        CompletionKind::Class | CompletionKind::Struct => "type",
        CompletionKind::Constant => "constant",
        CompletionKind::Keyword => "keyword",
        CompletionKind::Other => "",
    }
}

/// A piece of a rendered label and its highlight.
#[derive(Debug, Clone, PartialEq, Eq)]
pub struct LabelSpan {
    pub text: String,
    pub highlight: String,
}

/// A completion label: the pattern highlighted by kind, its detail dimmed.
#[derive(Debug, Clone, PartialEq, Eq)]
pub struct CodeLabel {
    pub spans: Vec<LabelSpan>,
    /// The byte range of the label that filtering matches against.
    pub filter_start: usize,
    pub filter_end: usize,
    pub code: String,
}

/// The dimmed tail of a label: two spaces and the detail, or nothing.
pub open spec fn detail_tail(detail: Seq<char>) -> Seq<char> {
    if detail.len() == 0 {
        Seq::empty()
    } else {
        "  "@ + detail
    }
}

/// The label of a completion item: none when the item has no kind; else the
/// label highlighted by its kind followed by its detail as a comment, with
/// the label alone as what filtering matches.
pub fn completion_label(label: &str, detail: Option<String>, kind: Option<CompletionKind>) -> (r: Option<
    CodeLabel,
>)
    requires
        crate::strings::byte_len(label@) <= usize::MAX,
    ensures
        kind is None <==> r is None,
        r matches Some(c) ==> {
            let d = match detail {
                Some(t) => t@,
                None => Seq::<char>::empty(),
            };
            &&& c.code@ == label@ + detail_tail(d)
            &&& c.spans@.len() == 2
            &&& c.spans@[0].text@ == label@
            &&& c.spans@[0].highlight@ == highlight_text(kind->0)
            &&& c.spans@[1].text@ == detail_tail(d)
            &&& c.spans@[1].highlight@ == "comment"@
            &&& c.filter_start == 0
            &&& c.filter_end == crate::strings::byte_len(label@)
        },
{
    let k = match kind {
        Some(k) => k,
        None => return None,
    };
    let name = chars_of(label);
    let detail_chars = match detail {
        Some(t) => chars_of(t.as_str()),
        None => Vec::new(),
    };
    let mut tail: Vec<char> = Vec::new();
    if detail_chars.len() > 0 {
        append_str(&mut tail, "  ");
        append_chars(&mut tail, &detail_chars);
    }
    let mut code = name.clone();
    append_chars(&mut code, &tail);
    let end = crate::strings::byte_offset(&name, name.len());
    proof {
        assert(name@.take(name@.len() as int) == name@);
    }
    let mut spans: Vec<LabelSpan> = Vec::new();
    spans.push(LabelSpan { text: text_of(&name), highlight: text_of(&chars_of(highlight_of(k))) });
    spans.push(LabelSpan { text: text_of(&tail), highlight: text_of(&chars_of("comment")) });
    Some(CodeLabel { spans, filter_start: 0, filter_end: end, code: text_of(&code) })
}

} // verus!
