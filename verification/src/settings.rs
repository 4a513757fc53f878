//! The user's settings, as the editor passes them in, and what they decide.
use vstd::prelude::*;

use crate::source::DocsSource;
use crate::version::{parse_version, Version};
use crate::strings::{chars_of, eq_ignore_case, eq_ignore_case_chars};

verus! {

/// How addons are chosen.
#[derive(Debug, Clone, PartialEq, Eq)]
pub enum AddonSetting {
    /// `"auto"` or `"off"`.
    Mode(String),
    /// An explicit list of addon names.
    Named(Vec<String>),
}

impl Default for AddonSetting {
    fn default() -> (s: Self)
        ensures
            s matches AddonSetting::Mode(mode) && mode@ == "auto"@,
    {
        AddonSetting::Mode(crate::strings::string_of(&chars_of("auto")))
    }
}

impl AddonSetting {
    /// Whether addon syntax is switched off: the mode `off`, in any case.
    pub fn is_off(&self) -> (b: bool)
        ensures
            b == (self matches AddonSetting::Mode(mode) && eq_ignore_case(mode@, "off"@)),
    {
        match self {
            AddonSetting::Mode(mode) => eq_ignore_case_chars(&chars_of(mode.as_str()), &chars_of("off")),
            AddonSetting::Named(_) => false,
        }
    }

    /// The explicitly named addons, if the user listed them.
    pub fn explicit(&self) -> (names: Option<&Vec<String>>)
        ensures
            match self {
                AddonSetting::Named(list) => names == Some(list),
                AddonSetting::Mode(_) => names is None,
            },
    {
        match self {
            AddonSetting::Named(names) => Some(names),
            _ => None,
        }
    }
}

/// User-facing settings.
#[derive(Debug, Clone, PartialEq, Eq)]
pub struct Settings {
    /// Pin the syntax database to a specific Skript version.
    pub skript_version: Option<String>,
    /// A `docs.json` generated on the user's own server.
    pub docs_path: Option<String>,
    /// Fetch the database from somewhere other than docs.skriptlang.org.
    pub docs_url: Option<String>,
    /// Report lines that match no known syntax.
    pub unknown_syntax_diagnostics: bool,
    /// Report syntax upstream has marked deprecated.
    pub deprecated_syntax_diagnostics: bool,
    /// Which addons to load syntax for.
    pub addons: AddonSetting,
    /// Where `plugins/` lives, when it is not at or above the workspace root.
    pub server_path: Option<String>,
    /// Where addon syntax comes from: `"skripthub"` or `"off"`.
    pub addon_syntax_source: String,
    /// Extra syntax files.
    pub custom_syntax_paths: Vec<String>,
}

impl Default for Settings {
    fn default() -> (s: Self)
        ensures
            s.skript_version is None,
            s.docs_path is None,
            s.docs_url is None,
            !s.unknown_syntax_diagnostics,
            !s.deprecated_syntax_diagnostics,
            s.addons matches AddonSetting::Mode(mode) && mode@ == "auto"@,
            s.server_path is None,
            s.addon_syntax_source@ == Seq::<char>::empty(),
            s.custom_syntax_paths@.len() == 0,
    {
        Settings {
            skript_version: None,
            docs_path: None,
            docs_url: None,
            unknown_syntax_diagnostics: false,
            deprecated_syntax_diagnostics: false,
            addons: AddonSetting::default(),
            server_path: None,
            addon_syntax_source: String::new(),
            custom_syntax_paths: Vec::new(),
        }
    }
}

impl Settings {
    /// Where the syntax database comes from: a local file first, then a URL,
    /// then a pinned version, and otherwise the latest release.
    pub fn docs_source(&self) -> (d: DocsSource)
        ensures
            match self.docs_path {
                Some(path) => d matches DocsSource::Local(p) && p@ == path@,
                None => match self.docs_url {
                    Some(url) => d matches DocsSource::Url(u) && u@ == url@,
                    None => match self.skript_version {
                        Some(v) => d matches DocsSource::Version(w) && w@ == v@,
                        None => d is Latest,
                    },
                },
            },
    {
        if let Some(path) = &self.docs_path {
            return DocsSource::Local(path.clone());
        }
        if let Some(url) = &self.docs_url {
            return DocsSource::Url(url.clone());
        }
        match &self.skript_version {
            Some(version) => DocsSource::Version(version.clone()),
            None => DocsSource::Latest,
        }
    }
}


/// Whether addon syntax is switched off: the mode `off`, in any case.
pub open spec fn addons_off(setting: AddonSetting) -> bool {
    setting matches AddonSetting::Mode(mode) && eq_ignore_case(mode@, "off"@)
}

pub open spec fn texts(v: Seq<String>) -> Seq<Seq<char>> {
    v.map_values(|s: String| s@)
}

fn copy_all(list: &Vec<String>) -> (out: Vec<String>)
    ensures
        out@ == list@,
{
    let mut out: Vec<String> = Vec::new();
    let mut i: usize = 0;
    while i < list.len()
        invariant
            i <= list@.len(),
            out@ == list@.take(i as int),
        decreases list@.len() - i,
    {
        out.push(list[i].clone());
        i += 1;
        assert(out@ =~= list@.take(i as int));
    }
    assert(list@.take(list@.len() as int) =~= list@);
    out
}

impl Settings {
    /// The addons whose syntax to load: the ones listed, none when addons are
    /// off, and otherwise those detected in the project.
    pub fn wanted_addons(&self, detected: Vec<String>) -> (out: Vec<String>)
        ensures
            match self.addons {
                AddonSetting::Named(list) => out@ == list@,
                AddonSetting::Mode(_) => if addons_off(self.addons) {
                    out@.len() == 0
                } else {
                    out@ == detected@
                },
            },
    {
        match self.addons.explicit() {
            Some(names) => copy_all(names),
            None => {
                if self.addons.is_off() {
                    Vec::new()
                } else {
                    detected
                }
            },
        }
    }
}

/// The first of the three that is given.
pub open spec fn first_given(a: Option<Seq<char>>, b: Option<Seq<char>>, c: Option<Seq<char>>) -> Option<Seq<char>> {
    if a is Some {
        a
    } else if b is Some {
        b
    } else {
        c
    }
}

pub open spec fn text_opt(o: Option<&str>) -> Option<Seq<char>> {
    match o {
        Some(t) => Some(t@),
        None => None,
    }
}

/// The Skript version to target: the version setting wins, then the installed
/// Skript's, then the loaded database's. The first one given is parsed, and an
/// unreadable one targets nothing rather than falling through.
pub fn target_version(setting: Option<&str>, installed: Option<&str>, loaded: Option<&str>) -> (v: Option<Version>)
    ensures
        v == match first_given(text_opt(setting), text_opt(installed), text_opt(loaded)) {
            Some(t) => parse_version(t),
            None => None,
        },
{
    let chosen = match setting {
        Some(t) => Some(t),
        None => match installed {
            Some(t) => Some(t),
            None => loaded,
        },
    };
    match chosen {
        Some(t) => Version::parse(t),
        None => None,
    }
}

} // verus!
