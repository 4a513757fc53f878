//! The SkriptHub addon syntax catalog, whose schema is not Skript's: several
//! patterns are packed into one string, separated by `\n` or `\r\n`, and the
//! syntax type is a free-form label.
use vstd::prelude::*;

use crate::catalog::Category;
use crate::docs::{
    decimal, decimal_of, list_items, listed, reference_view, reference_views, string_option_view, AddonRef, AddonView, Entry,
    EntryView, Reference, ReferenceView,
};
use crate::manifest::strings_view;
use crate::source::{append_chars, append_str};
use crate::strings::{
    chars_eq, chars_of, lower_chars, lower_seq, split_chars, split_on, string_of, strip_trailing,
    trail_by, one_of, trim, trim_chars,
};

verus! {

/// A plugin a SkriptHub record says its syntax needs.
#[derive(Debug, Clone, PartialEq, Eq)]
pub struct RequiredPlugin {
    pub name: String,
}

/// The addon a SkriptHub record belongs to. (SkriptHub's popularity score,
/// used only to order a listing of addons, is not kept here.)
#[derive(Debug, Clone, PartialEq, Eq)]
pub struct AddonInfo {
    pub name: String,
    pub link_to_addon: String,
}

/// One SkriptHub syntax record, as its JSON gives it.
#[derive(Debug, Clone, PartialEq, Eq)]
pub struct Record {
    pub id: i64,
    pub title: String,
    pub description: Option<String>,
    /// One or more patterns, newline-separated.
    pub syntax_pattern: Option<String>,
    pub syntax_type: String,
    /// The addon version this syntax first appeared in.
    pub compatible_addon_version: Option<String>,
    pub compatible_minecraft_version: Option<String>,
    pub required_plugins: Vec<RequiredPlugin>,
    pub addon: Option<AddonInfo>,
    pub return_type: Option<String>,
    /// A comma-separated list.
    pub event_values: Option<String>,
    /// A namespaced id such as `skbee:effect:open_real_inventory`, or a bare
    /// Java class name on older records.
    pub json_id: Option<String>,
    pub event_cancellable: bool,
    /// A comma-separated list.
    pub keywords: Option<String>,
}

/// The category a SkriptHub `syntax_type` names, in any case and spacing.
pub open spec fn category_named(syntax_type: Seq<char>) -> Option<Category> {
    let k = lower_seq(trim(syntax_type));
    if k == "expression"@ {
        Some(Category::Expression)
    } else if k == "effect"@ {
        Some(Category::Effect)
    } else if k == "condition"@ {
        Some(Category::Condition)
    } else if k == "event"@ {
        Some(Category::Event)
    } else if k == "section"@ {
        Some(Category::Section)
    } else if k == "structure"@ {
        Some(Category::Structure)
    } else if k == "type"@ {
        Some(Category::Type)
    } else if k == "function"@ {
        Some(Category::Function)
    } else {
        None
    }
}

fn is_word(k: &Vec<char>, word: &str) -> (b: bool)
    ensures
        b == (k@ == word@),
{
    let w = chars_of(word);
    chars_eq(k, &w)
}

/// Maps SkriptHub's `syntax_type` onto a category.
pub fn category_of(syntax_type: &str) -> (c: Option<Category>)
    ensures
        c == category_named(syntax_type@),
{
    let chars = chars_of(syntax_type);
    let t = trim_chars(&chars);
    let k = lower_chars(&t);
    if is_word(&k, "expression") {
        Some(Category::Expression)
    } else if is_word(&k, "effect") {
        Some(Category::Effect)
    } else if is_word(&k, "condition") {
        Some(Category::Condition)
    } else if is_word(&k, "event") {
        Some(Category::Event)
    } else if is_word(&k, "section") {
        Some(Category::Section)
    } else if is_word(&k, "structure") {
        Some(Category::Structure)
    } else if is_word(&k, "type") {
        Some(Category::Type)
    } else if is_word(&k, "function") {
        Some(Category::Function)
    } else {
        None
    }
}

/// One packed line as a pattern: without its carriage returns, trimmed.
pub open spec fn clean_pattern(line: Seq<char>) -> Seq<char> {
    trim(line.take(line.len() - trail_by(line, one_of('\r', '\r'))))
}

/// The non-blank cleaned lines, in order.
pub open spec fn kept_patterns(lines: Seq<Seq<char>>) -> Seq<Seq<char>>
    decreases lines.len(),
{
    if lines.len() == 0 {
        Seq::empty()
    } else {
        let rest = kept_patterns(lines.drop_last());
        let p = clean_pattern(lines.last());
        if p.len() > 0 {
            rest.push(p)
        } else {
            rest
        }
    }
}

/// The patterns packed into one SkriptHub string.
pub open spec fn packed_patterns(packed: Seq<char>) -> Seq<Seq<char>> {
    kept_patterns(split_on(packed, '\n'))
}

/// Splits SkriptHub's packed pattern string. Both `\n` and `\r\n` occur, and
/// blank lines are common padding.
pub fn split_patterns(packed: &str) -> (out: Vec<String>)
    ensures
        strings_view(out@) == packed_patterns(packed@),
{
    let chars = chars_of(packed);
    let pieces = split_chars(&chars, '\n');
    let ghost all = split_on(chars@, '\n');
    let mut out: Vec<String> = Vec::new();
    let mut i: usize = 0;
    while i < pieces.len()
        invariant
            i <= pieces@.len(),
            pieces@.len() == all.len(),
            forall|j: int| 0 <= j < pieces@.len() ==> #[trigger] pieces@[j]@ == all[j],
            strings_view(out@) == kept_patterns(all.take(i as int)),
        decreases pieces@.len() - i,
    {
        let no_cr = strip_trailing(&pieces[i], '\r', '\r');
        let p = trim_chars(&no_cr);
        let ghost before = out@;
        assert(all.take(i + 1).drop_last() =~= all.take(i as int));
        assert(all.take(i + 1).last() == pieces@[i as int]@);
        if p.len() > 0 {
            out.push(string_of(&p));
            assert(strings_view(out@) =~= strings_view(before).push(p@));
        }
        i += 1;
    }
    assert(all.take(all.len() as int) =~= all);
    out
}

// ------------------------------------------------------------ records

/// The text of an optional field, empty when absent.
pub open spec fn text_or_empty(o: Option<String>) -> Seq<char> {
    match o {
        Some(s) => s@,
        None => Seq::empty(),
    }
}

/// An optional field trimmed, kept only when something is left.
pub open spec fn trimmed_present(o: Option<String>) -> Option<Seq<char>> {
    match o {
        Some(s) => if trim(s@).len() > 0 {
            Some(trim(s@))
        } else {
            None
        },
        None => None,
    }
}

/// A stable identifier: SkriptHub's own, trimmed, or else one namespaced by
/// source so it can never collide with a Skript id.
pub open spec fn record_id(r: Record) -> Seq<char> {
    match trimmed_present(r.json_id) {
        Some(id) => id,
        None => "skripthub:"@ + decimal(r.id as int),
    }
}

/// The non-empty names of the required plugins, in order.
pub open spec fn plugin_names(v: Seq<RequiredPlugin>) -> Seq<Seq<char>>
    decreases v.len(),
{
    if v.len() == 0 {
        Seq::empty()
    } else {
        let rest = plugin_names(v.drop_last());
        if v.last().name@.len() > 0 {
            rest.push(v.last().name@)
        } else {
            rest
        }
    }
}

/// Everything a syntax needs beyond its own addon: the plugins, then the
/// Minecraft version when one is stated.
pub open spec fn record_requirements(r: Record) -> Seq<Seq<char>> {
    match trimmed_present(r.compatible_minecraft_version) {
        Some(mc) => plugin_names(r.required_plugins@).push("Minecraft "@ + mc),
        None => plugin_names(r.required_plugins@),
    }
}

/// A value that stands for itself as a reference.
pub open spec fn self_reference(v: Seq<char>) -> ReferenceView {
    ReferenceView { id: v, name: v }
}

/// What a record converts to: `None` when its syntax type is unknown or it
/// packs no pattern. SkriptHub carries no Skript `since`, so the entry has
/// none and is never taken to need a newer Skript.
pub open spec fn entry_of(r: Record) -> Option<(Category, EntryView)> {
    let patterns = packed_patterns(text_or_empty(r.syntax_pattern));
    match category_named(r.syntax_type@) {
        None => None,
        Some(c) => if patterns.len() == 0 {
            None
        } else {
            Some((
                c,
                EntryView {
                    id: record_id(r),
                    name: r.title@,
                    since: Seq::empty(),
                    description: match r.description {
                        Some(d) => seq![d@],
                        None => Seq::empty(),
                    },
                    patterns,
                    examples: Seq::empty(),
                    requirements: record_requirements(r),
                    returns: match trimmed_present(r.return_type) {
                        Some(v) => Some(self_reference(v)),
                        None => None,
                    },
                    event_values: listed(text_or_empty(r.event_values), ',').map_values(|v: Seq<char>| self_reference(v)),
                    events: Seq::empty(),
                    cancellable: r.event_cancellable,
                    deprecated: false,
                    deprecation_note: None,
                    keywords: listed(text_or_empty(r.keywords), ','),
                    addon: match r.addon {
                        Some(info) => Some(
                            AddonView {
                                name: info.name@,
                                url: info.link_to_addon@,
                                since_version: trimmed_present(r.compatible_addon_version),
                            },
                        ),
                        None => None,
                    },
                    min_version: None,
                },
            ))
        },
    }
}

pub open spec fn entry_option_view(r: Option<(Category, Entry)>) -> Option<(Category, EntryView)> {
    match r {
        Some((c, e)) => Some((c, e@)),
        None => None,
    }
}

fn field_text(o: &Option<String>) -> (out: String)
    ensures
        out@ == text_or_empty(*o),
{
    match o {
        Some(s) => s.clone(),
        None => String::new(),
    }
}

fn field_trimmed(o: &Option<String>) -> (out: Option<String>)
    ensures
        string_option_view(out) == trimmed_present(*o),
{
    match o {
        Some(s) => {
            let t = trim_chars(&chars_of(s.as_str()));
            if t.len() > 0 {
                Some(string_of(&t))
            } else {
                None
            }
        },
        None => None,
    }
}

fn self_referencing(v: &Vec<String>) -> (out: Vec<Reference>)
    ensures
        reference_views(out@) == strings_view(v@).map_values(|x: Seq<char>| self_reference(x)),
{
    let mut out: Vec<Reference> = Vec::new();
    let mut i: usize = 0;
    while i < v.len()
        invariant
            i <= v@.len(),
            reference_views(out@) == strings_view(v@.take(i as int)).map_values(|x: Seq<char>| self_reference(x)),
        decreases v@.len() - i,
    {
        let ghost before = out@;
        let id = v[i].clone();
        let name = v[i].clone();
        assert(id@ == v@[i as int]@ && name@ == v@[i as int]@);
        let r = Reference { id, name };
        out.push(r);
        assert(reference_view(r) == self_reference(v@[i as int]@));
        assert(reference_views(out@) =~= reference_views(before).push(reference_view(r)));
        assert(strings_view(v@.take(i + 1)) =~= strings_view(v@.take(i as int)).push(v@[i as int]@));
        assert(reference_views(out@) =~= strings_view(v@.take(i + 1)).map_values(|x: Seq<char>| self_reference(x)));
        i += 1;
    }
    assert(v@.take(v@.len() as int) =~= v@);
    out
}

impl Record {
    /// A stable identifier, preferring SkriptHub's own.
    pub fn entry_id(&self) -> (out: String)
        ensures
            out@ == record_id(*self),
    {
        match field_trimmed(&self.json_id) {
            Some(id) => id,
            None => {
                let mut out: Vec<char> = Vec::new();
                append_str(&mut out, "skripthub:");
                let n = decimal_of(self.id);
                append_chars(&mut out, &n);
                string_of(&out)
            },
        }
    }

    fn requirements(&self) -> (out: Vec<String>)
        ensures
            strings_view(out@) == record_requirements(*self),
    {
        let plugins = &self.required_plugins;
        let mut out: Vec<String> = Vec::new();
        let mut i: usize = 0;
        while i < plugins.len()
            invariant
                i <= plugins@.len(),
                strings_view(out@) == plugin_names(plugins@.take(i as int)),
            decreases plugins@.len() - i,
        {
            let ghost before = out@;
            assert(plugins@.take(i + 1).drop_last() =~= plugins@.take(i as int));
            assert(plugins@.take(i + 1).last() == plugins@[i as int]);
            if chars_of(plugins[i].name.as_str()).len() > 0 {
                out.push(plugins[i].name.clone());
                assert(strings_view(out@) =~= strings_view(before).push(plugins@[i as int].name@));
            }
            i += 1;
        }
        assert(plugins@.take(plugins@.len() as int) =~= plugins@);
        match field_trimmed(&self.compatible_minecraft_version) {
            Some(mc) => {
                let mut text: Vec<char> = Vec::new();
                append_str(&mut text, "Minecraft ");
                append_chars(&mut text, &chars_of(mc.as_str()));
                let ghost before = out@;
                out.push(string_of(&text));
                assert(strings_view(out@) =~= strings_view(before).push(text@));
            },
            None => {},
        }
        out
    }

    /// The entry this record describes, and its category; `None` when the
    /// syntax type is unknown or the record packs no pattern.
    pub fn into_entry(&self) -> (r: Option<(Category, Entry)>)
        ensures
            entry_option_view(r) == entry_of(*self),
    {
        let category = match category_of(self.syntax_type.as_str()) {
            Some(c) => c,
            None => return None,
        };
        let packed = field_text(&self.syntax_pattern);
        let patterns = split_patterns(packed.as_str());
        if patterns.len() == 0 {
            return None;
        }
        let description: Vec<String> = match &self.description {
            Some(d) => vec![d.clone()],
            None => Vec::new(),
        };
        let return_type = match field_trimmed(&self.return_type) {
            Some(v) => Some(Reference { id: v.clone(), name: v }),
            None => None,
        };
        let values = list_items(field_text(&self.event_values).as_str(), ',');
        let event_values = self_referencing(&values);
        let keywords = list_items(field_text(&self.keywords).as_str(), ',');
        let addon = match &self.addon {
            Some(info) => Some(
                AddonRef {
                    name: info.name.clone(),
                    url: info.link_to_addon.clone(),
                    since_version: field_trimmed(&self.compatible_addon_version),
                },
            ),
            None => None,
        };
        let entry = Entry {
            id: self.entry_id(),
            name: self.title.clone(),
            since: Vec::new(),
            description,
            patterns,
            examples: Vec::new(),
            requirements: self.requirements(),
            returns: return_type,
            event_values,
            events: Vec::new(),
            cancellable: self.event_cancellable,
            deprecated: false,
            deprecation_note: None,
            keywords,
            addon,
            min_version: None,
        };
        proof {
            let e = entry@;
            let want = entry_of(*self).unwrap().1;
            assert(e.since =~= want.since);
            assert(e.examples =~= want.examples);
            assert(e.events =~= want.events);
            assert(e.description =~= want.description);
            assert(e.event_values =~= want.event_values);
        }
        Some((category, entry))
    }
}

// ------------------------------------------------------------ addons

/// The addon name a record carries, empty when it names none.
pub open spec fn addon_name(r: Record) -> Seq<char> {
    match r.addon {
        Some(info) => info.name@,
        None => Seq::empty(),
    }
}

/// The indices of the first record of each named addon, in order: records
/// without an addon name, and later records of an addon already seen, are
/// passed over.
pub open spec fn first_of_each(records: Seq<Record>) -> Seq<int>
    decreases records.len(),
{
    if records.len() == 0 {
        Seq::empty()
    } else {
        let rest = first_of_each(records.drop_last());
        let here = records.len() - 1;
        let name = addon_name(records.last());
        if name.len() == 0 || exists|k: int| 0 <= k < rest.len() && addon_name(records[#[trigger] rest[k]]) == name {
            rest
        } else {
            rest.push(here)
        }
    }
}

proof fn lemma_first_of_each_bounds(records: Seq<Record>)
    ensures
        forall|k: int| 0 <= k < first_of_each(records).len() ==> 0 <= #[trigger] first_of_each(records)[k] < records.len(),
    decreases records.len(),
{
    if records.len() > 0 {
        lemma_first_of_each_bounds(records.drop_last());
        let rest = first_of_each(records.drop_last());
        let all = first_of_each(records);
        assert forall|k: int| 0 <= k < all.len() implies 0 <= #[trigger] all[k] < records.len() by {
            if k < rest.len() {
                assert(all[k] == rest[k]);
            }
        }
    }
}

/// Each addon the records name, once, as the index of its first record; a
/// caller orders them by SkriptHub's popularity score.
pub fn addon_firsts(records: &Vec<Record>) -> (out: Vec<usize>)
    ensures
        out@.map_values(|i: usize| i as int) == first_of_each(records@),
{
    let mut out: Vec<usize> = Vec::new();
    let mut names: Vec<Vec<char>> = Vec::new();
    let mut i: usize = 0;
    while i < records.len()
        invariant
            i <= records@.len(),
            out@.map_values(|x: usize| x as int) == first_of_each(records@.take(i as int)),
            names@.len() == out@.len(),
            forall|k: int| 0 <= k < out@.len() ==> #[trigger] out@[k] < i,
            forall|k: int| 0 <= k < out@.len() ==> #[trigger] names@[k]@ == addon_name(records@[out@[k] as int]),
        decreases records@.len() - i,
    {
        let ghost t = records@.take(i + 1);
        proof {
            assert(t.drop_last() =~= records@.take(i as int));
            assert(t.last() == records@[i as int]);
            lemma_first_of_each_bounds(records@.take(i as int));
        }
        let ghost rest = first_of_each(records@.take(i as int));
        match &records[i].addon {
            Some(info) => {
                let name = chars_of(info.name.as_str());
                if name.len() > 0 {
                    let mut seen = false;
                    let mut k: usize = 0;
                    while k < names.len()
                        invariant
                            k <= names@.len(),
                            names@.len() == out@.len() == rest.len(),
                            out@.map_values(|x: usize| x as int) == rest,
                            forall|m: int| 0 <= m < out@.len() ==> #[trigger] out@[m] < i,
                            forall|m: int| 0 <= m < out@.len() ==> #[trigger] names@[m]@ == addon_name(records@[out@[m] as int]),
                            seen == exists|m: int| 0 <= m < k && addon_name(records@[#[trigger] rest[m]]) == name@,
                        decreases names@.len() - k,
                    {
                        proof {
                            assert(rest[k as int] == out@[k as int] as int);
                        }
                        if chars_eq(&names[k], &name) {
                            seen = true;
                        }
                        k += 1;
                    }
                    proof {
                        assert forall|m: int| 0 <= m < rest.len() implies records@.take(i + 1)[#[trigger] rest[m]] == records@[rest[m]] by {
                            assert(rest[m] == out@[m] as int);
                        }
                    }
                    if !seen {
                        let ghost before = out@;
                        out.push(i);
                        names.push(name);
                        assert(out@.map_values(|x: usize| x as int) =~= before.map_values(|x: usize| x as int).push(i as int));
                    }
                }
            },
            None => {},
        }
        i += 1;
    }
    assert(records@.take(records@.len() as int) =~= records@);
    out
}

// ------------------------------------------------------------ filtering

/// The entries of the records whose addon is among `keep`, in order, and how
/// many of those records could not be converted.
pub open spec fn kept_entries(records: Seq<Record>, keep: Seq<Seq<char>>) -> (Seq<(Category, EntryView)>, nat)
    decreases records.len(),
{
    if records.len() == 0 {
        (Seq::empty(), 0)
    } else {
        let (done, skipped) = kept_entries(records.drop_last(), keep);
        let r = records.last();
        if !keep.contains(addon_name(r)) {
            (done, skipped)
        } else {
            match entry_of(r) {
                Some(x) => (done.push(x), skipped),
                None => (done, skipped + 1),
            }
        }
    }
}

pub open spec fn category_entries_view(v: Seq<(Category, Entry)>) -> Seq<(Category, EntryView)> {
    v.map_values(|x: (Category, Entry)| (x.0, x.1@))
}

/// Converts the records of the addons named in `keep`: loading every addon
/// fills completion with syntax for plugins the server does not run. Also
/// counts the kept records that name no known syntax type or no pattern.
pub fn convert_records(records: &Vec<Record>, keep: &Vec<String>) -> (r: (Vec<(Category, Entry)>, usize))
    ensures
        category_entries_view(r.0@) == kept_entries(records@, strings_view(keep@)).0,
        r.1 == kept_entries(records@, strings_view(keep@)).1,
{
    let ghost names = strings_view(keep@);
    let mut out: Vec<(Category, Entry)> = Vec::new();
    let mut skipped: usize = 0;
    let mut i: usize = 0;
    while i < records.len()
        invariant
            i <= records@.len(),
            names == strings_view(keep@),
            category_entries_view(out@) == kept_entries(records@.take(i as int), names).0,
            skipped == kept_entries(records@.take(i as int), names).1,
            skipped <= i,
        decreases records@.len() - i,
    {
        let record = &records[i];
        proof {
            assert(records@.take(i + 1).drop_last() =~= records@.take(i as int));
            assert(records@.take(i + 1).last() == records@[i as int]);
        }
        let name: Vec<char> = match &record.addon {
            Some(info) => chars_of(info.name.as_str()),
            None => Vec::new(),
        };
        assert(name@ == addon_name(*record));
        let mut wanted = false;
        let mut k: usize = 0;
        while k < keep.len()
            invariant
                k <= keep@.len(),
                names == strings_view(keep@),
                wanted == exists|m: int| 0 <= m < k && names[m] == name@,
            decreases keep@.len() - k,
        {
            let here = chars_of(keep[k].as_str());
            assert(names[k as int] == keep@[k as int]@);
            if chars_eq(&here, &name) {
                wanted = true;
            }
            k += 1;
        }
        assert(wanted == names.contains(name@));
        if wanted {
            match record.into_entry() {
                Some(x) => {
                    let ghost before = out@;
                    out.push(x);
                    assert(category_entries_view(out@) =~= category_entries_view(before).push((x.0, x.1@)));
                },
                None => {
                    skipped = skipped + 1;
                },
            }
        }
        i += 1;
    }
    assert(records@.take(records@.len() as int) =~= records@);
    (out, skipped)
}

// ------------------------------------------------------------ installed or not

/// Whether `name` is one of `wanted`, ignoring ASCII case.
pub open spec fn wanted_by(wanted: Seq<Seq<char>>, name: Seq<char>) -> bool {
    exists|k: int| 0 <= k < wanted.len() && crate::strings::eq_ignore_case(#[trigger] wanted[k], name)
}

/// The names that are wanted, in order.
pub open spec fn installed_names(names: Seq<Seq<char>>, wanted: Seq<Seq<char>>) -> Seq<Seq<char>>
    decreases names.len(),
{
    if names.len() == 0 {
        Seq::empty()
    } else {
        let rest = installed_names(names.drop_last(), wanted);
        if wanted_by(wanted, names.last()) {
            rest.push(names.last())
        } else {
            rest
        }
    }
}

/// The names of addons the server does not have: not wanted, not empty, and
/// not Skript itself, whose syntax is never an addon's.
pub open spec fn missing_names(names: Seq<Seq<char>>, wanted: Seq<Seq<char>>) -> Seq<Seq<char>>
    decreases names.len(),
{
    if names.len() == 0 {
        Seq::empty()
    } else {
        let rest = missing_names(names.drop_last(), wanted);
        let n = names.last();
        if n.len() > 0 && !wanted_by(wanted, n) && !crate::strings::eq_ignore_case(n, "Skript"@) {
            rest.push(n)
        } else {
            rest
        }
    }
}

fn is_wanted(wanted: &Vec<String>, name: &Vec<char>) -> (b: bool)
    ensures
        b == wanted_by(strings_view(wanted@), name@),
{
    let ghost ws = strings_view(wanted@);
    let mut k: usize = 0;
    while k < wanted.len()
        invariant
            k <= wanted@.len(),
            ws == strings_view(wanted@),
            forall|m: int| 0 <= m < k ==> !crate::strings::eq_ignore_case(#[trigger] ws[m], name@),
        decreases wanted@.len() - k,
    {
        let here = chars_of(wanted[k].as_str());
        assert(ws[k as int] == wanted@[k as int]@);
        if crate::strings::eq_ignore_case_chars(&here, name) {
            return true;
        }
        k += 1;
    }
    false
}

/// Splits the addon names of the syntax catalog into those the server runs
/// (`wanted`, ignoring ASCII case) and, only when the server's plugins were
/// actually found, those it lacks: a missing addon is named only when the
/// environment is known, since otherwise it would be a guess.
pub fn addon_split(names: &Vec<String>, wanted: &Vec<String>, environment_known: bool) -> (r: (
    Vec<String>,
    Option<Vec<String>>,
))
    ensures
        strings_view(r.0@) == installed_names(strings_view(names@), strings_view(wanted@)),
        environment_known ==> (r.1 matches Some(v) && strings_view(v@) == missing_names(
            strings_view(names@),
            strings_view(wanted@),
        )),
        !environment_known ==> r.1 is None,
{
    let ghost ns = strings_view(names@);
    let ghost ws = strings_view(wanted@);
    let skript = chars_of("Skript");
    let mut installed: Vec<String> = Vec::new();
    let mut missing: Vec<String> = Vec::new();
    let mut i: usize = 0;
    while i < names.len()
        invariant
            i <= names@.len(),
            ns == strings_view(names@),
            ws == strings_view(wanted@),
            skript@ == "Skript"@,
            strings_view(installed@) == installed_names(ns.take(i as int), ws),
            strings_view(missing@) == missing_names(ns.take(i as int), ws),
        decreases names@.len() - i,
    {
        let name = chars_of(names[i].as_str());
        proof {
            assert(ns.take(i + 1).drop_last() =~= ns.take(i as int));
            assert(ns.take(i + 1).last() == name@);
        }
        let wanted_here = is_wanted(wanted, &name);
        if wanted_here {
            let ghost before = installed@;
            installed.push(names[i].clone());
            assert(strings_view(installed@) =~= strings_view(before).push(name@));
        } else if name.len() > 0 && !crate::strings::eq_ignore_case_chars(&name, &skript) {
            let ghost before = missing@;
            missing.push(names[i].clone());
            assert(strings_view(missing@) =~= strings_view(before).push(name@));
        }
        i += 1;
    }
    assert(ns.take(ns.len() as int) =~= ns);
    if environment_known {
        (installed, Some(missing))
    } else {
        (installed, None)
    }
}

} // verus!
