//! Which Skript addons a project uses, as found by reading the manifest inside
//! each JAR of the server's `plugins/` directory.
//!
//! Scripts cannot declare their dependencies, so the only way to know which
//! addons are in play is to look at the server the scripts belong to. The
//! manifest is authoritative; file names are never parsed.
use vstd::prelude::*;

use crate::manifest::{Manifest, names_contain, strings_view};
use crate::strings::eq_ignore_case;

verus! {

/// A plugin found in a `plugins/` directory.
#[derive(Debug, Clone, PartialEq, Eq)]
pub struct DetectedAddon {
    pub name: String,
    pub version: String,
    /// Where its JAR lies.
    pub path: String,
    /// Whether it declares a dependency on Skript.
    pub is_addon: bool,
    /// Whether this is Skript itself, whose version is the best answer for the
    /// user's target Skript version.
    pub is_skript: bool,
}

/// What a scan of a project found.
#[derive(Debug, Clone, Default)]
pub struct Detection {
    /// The `plugins/` directory, when one was found. `None` means the
    /// environment is unknown, and nothing may be claimed missing.
    pub plugins_dir: Option<String>,
    pub plugins: Vec<DetectedAddon>,
}

/// The plugins that are Skript addons, in their order.
pub open spec fn addons_of(plugins: Seq<DetectedAddon>) -> Seq<DetectedAddon>
    decreases plugins.len(),
{
    if plugins.len() == 0 {
        Seq::empty()
    } else if plugins.last().is_addon {
        addons_of(plugins.drop_last()).push(plugins.last())
    } else {
        addons_of(plugins.drop_last())
    }
}

pub open spec fn names_of(plugins: Seq<DetectedAddon>) -> Seq<Seq<char>> {
    plugins.map_values(|p: DetectedAddon| p.name@)
}

pub open spec fn addon_refs_view(v: Seq<&DetectedAddon>) -> Seq<DetectedAddon> {
    v.map_values(|r: &DetectedAddon| *r)
}

/// The index of the first plugin that is Skript itself.
pub open spec fn first_skript(plugins: Seq<DetectedAddon>) -> Option<int> {
    if exists|i: int| 0 <= i < plugins.len() && plugins[i].is_skript {
        Some(
            choose|i: int|
                0 <= i < plugins.len() && plugins[i].is_skript && forall|j: int|
                    0 <= j < i ==> !(#[trigger] plugins[j]).is_skript,
        )
    } else {
        None
    }
}

/// The version of the first plugin that is Skript itself, unless it is blank.
pub open spec fn skript_version_of(plugins: Seq<DetectedAddon>) -> Option<Seq<char>> {
    match first_skript(plugins) {
        Some(i) => if plugins[i].version@.len() > 0 {
            Some(plugins[i].version@)
        } else {
            None
        },
        None => None,
    }
}

impl Detection {
    /// The Skript addons, ignoring ordinary plugins.
    pub fn addons(&self) -> (out: Vec<&DetectedAddon>)
        ensures
            addon_refs_view(out@) == addons_of(self.plugins@),
    {
        let mut out: Vec<&DetectedAddon> = Vec::new();
        let mut i: usize = 0;
        while i < self.plugins.len()
            invariant
                i <= self.plugins@.len(),
                addon_refs_view(out@) == addons_of(self.plugins@.take(i as int)),
            decreases self.plugins@.len() - i,
        {
            let ghost before = addon_refs_view(out@);
            let plugin = &self.plugins[i];
            if plugin.is_addon {
                out.push(plugin);
                assert(addon_refs_view(out@) =~= before.push(*plugin));
            }
            i += 1;
            assert(self.plugins@.take(i as int).drop_last() =~= self.plugins@.take((i - 1) as int));
        }
        assert(self.plugins@.take(self.plugins@.len() as int) =~= self.plugins@);
        out
    }

    /// The names of the Skript addons.
    pub fn addon_names(&self) -> (names: Vec<String>)
        ensures
            strings_view(names@) == names_of(addons_of(self.plugins@)),
    {
        let addons = self.addons();
        let ghost a = addons_of(self.plugins@);
        let mut names: Vec<String> = Vec::new();
        let mut i: usize = 0;
        while i < addons.len()
            invariant
                i <= addons@.len(),
                addon_refs_view(addons@) == a,
                strings_view(names@) == names_of(a.take(i as int)),
            decreases addons@.len() - i,
        {
            let ghost before = names@;
            let name = addons[i].name.clone();
            assert(a[i as int] == *addons@[i as int]);
            assert(name@ == a[i as int].name@);
            names.push(name);
            i += 1;
            assert(a.take(i as int) =~= a.take((i - 1) as int).push(a[i - 1]));
            assert(names@ =~= before.push(name));
            assert(strings_view(before.push(name)) =~= strings_view(before).push(name@));
            assert(names_of(a.take((i - 1) as int).push(a[i - 1])) =~= names_of(
                a.take((i - 1) as int),
            ).push(a[i - 1].name@));
            assert(strings_view(names@) =~= names_of(a.take(i as int)));
        }
        assert(a.take(a.len() as int) =~= a);
        names
    }

    /// The installed Skript version, if Skript itself was found and its
    /// version is not blank.
    pub fn skript_version(&self) -> (v: Option<&str>)
        ensures
            match v {
                Some(s) => skript_version_of(self.plugins@) == Some(s@),
                None => skript_version_of(self.plugins@) is None,
            },
    {
        let mut i: usize = 0;
        while i < self.plugins.len()
            invariant
                i <= self.plugins@.len(),
                forall|j: int| 0 <= j < i ==> !(#[trigger] self.plugins@[j]).is_skript,
            decreases self.plugins@.len() - i,
        {
            if self.plugins[i].is_skript {
                proof {
                    let p = self.plugins@;
                    assert(0 <= i < p.len() && p[i as int].is_skript && forall|j: int|
                        0 <= j < i ==> !(#[trigger] p[j]).is_skript);
                    let w = first_skript(p)->0;
                    assert(0 <= w < p.len() && p[w].is_skript);
                    if w < i {
                        assert(!p[w].is_skript);
                    }
                    if i < w {
                        assert(!p[i as int].is_skript);
                    }
                }
                let version = self.plugins[i].version.as_str();
                if version.is_empty() {
                    return None;
                }
                return Some(version);
            }
            i += 1;
        }
        None
    }

    /// True when we actually know what is installed.
    pub fn is_known(&self) -> (b: bool)
        ensures
            b == self.plugins_dir is Some,
    {
        self.plugins_dir.is_some()
    }
}

/// What a plugin's manifest says of it, for the JAR at `path`.
pub fn detected_addon(manifest: Manifest, path: String) -> (d: DetectedAddon)
    ensures
        d.name@ == manifest@.name,
        d.version@ == manifest@.version,
        d.path == path,
        d.is_addon == names_contain(manifest@.dependencies, "Skript"@),
        d.is_skript == eq_ignore_case(manifest@.name, "Skript"@),
{
    let is_addon = manifest.is_skript_addon();
    let is_skript = manifest.is_skript_itself();
    DetectedAddon { is_addon, is_skript, name: manifest.name, version: manifest.version, path }
}

} // verus!
