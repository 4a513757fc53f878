//! The documentation model: one entry of the syntax database, with the plain
//! fields that hover cards, completion and diagnostics read.
use vstd::prelude::*;

use crate::catalog::{category_label, Category};
use crate::manifest::strings_view;
use crate::source::{append_chars, append_str};
use crate::strings::{chars_of, slice, split_chars, split_on, string_of, trail_index, trim, trim_chars, trim_end};
use crate::version::Version;

verus! {

/// A reference from one entry to another, such as a return type or an event
/// value.
#[derive(Debug, Clone, PartialEq, Eq, Default)]
pub struct Reference {
    pub id: String,
    pub name: String,
}

/// The addon that provides an entry.
#[derive(Debug, Clone, PartialEq, Eq, Default)]
pub struct AddonRef {
    pub name: String,
    pub url: String,
    /// The addon version the syntax first appeared in, when known.
    pub since_version: Option<String>,
}

/// One documented piece of syntax.
#[derive(Debug, Clone, PartialEq, Eq)]
pub struct Entry {
    pub id: String,
    pub name: String,
    /// The free-text `since` values; the first is the one shown.
    pub since: Vec<String>,
    pub description: Vec<String>,
    pub patterns: Vec<String>,
    pub examples: Vec<String>,
    /// What the syntax needs beyond its own addon: plugins, Minecraft versions.
    pub requirements: Vec<String>,
    pub returns: Option<Reference>,
    pub event_values: Vec<Reference>,
    /// The events the syntax is restricted to.
    pub events: Vec<Reference>,
    pub cancellable: bool,
    pub deprecated: bool,
    /// What upstream says to use instead, when it says anything.
    pub deprecation_note: Option<String>,
    pub keywords: Vec<String>,
    /// `None` for Skript's own syntax.
    pub addon: Option<AddonRef>,
    /// The oldest Skript version with this syntax, when `since` parses.
    pub min_version: Option<Version>,
}

impl Default for Entry {
    fn default() -> (e: Entry)
        ensures
            e@ == empty_entry(),
    {
        let e = Entry {
            id: String::new(),
            name: String::new(),
            since: Vec::new(),
            description: Vec::new(),
            patterns: Vec::new(),
            examples: Vec::new(),
            requirements: Vec::new(),
            returns: None,
            event_values: Vec::new(),
            events: Vec::new(),
            cancellable: false,
            deprecated: false,
            deprecation_note: None,
            keywords: Vec::new(),
            addon: None,
            min_version: None,
        };
        proof {
            assert(e@.since =~= Seq::<Seq<char>>::empty());
            assert(e@.description =~= Seq::<Seq<char>>::empty());
            assert(e@.patterns =~= Seq::<Seq<char>>::empty());
            assert(e@.examples =~= Seq::<Seq<char>>::empty());
            assert(e@.requirements =~= Seq::<Seq<char>>::empty());
            assert(e@.event_values =~= Seq::<ReferenceView>::empty());
            assert(e@.events =~= Seq::<ReferenceView>::empty());
            assert(e@.keywords =~= Seq::<Seq<char>>::empty());
        }
        e
    }
}

/// A reference as plain values.
pub struct ReferenceView {
    pub id: Seq<char>,
    pub name: Seq<char>,
}

/// An addon as plain values.
pub struct AddonView {
    pub name: Seq<char>,
    pub url: Seq<char>,
    pub since_version: Option<Seq<char>>,
}

/// An entry as plain values.
pub struct EntryView {
    pub id: Seq<char>,
    pub name: Seq<char>,
    pub since: Seq<Seq<char>>,
    pub description: Seq<Seq<char>>,
    pub patterns: Seq<Seq<char>>,
    pub examples: Seq<Seq<char>>,
    pub requirements: Seq<Seq<char>>,
    pub returns: Option<ReferenceView>,
    pub event_values: Seq<ReferenceView>,
    pub events: Seq<ReferenceView>,
    pub cancellable: bool,
    pub deprecated: bool,
    pub deprecation_note: Option<Seq<char>>,
    pub keywords: Seq<Seq<char>>,
    pub addon: Option<AddonView>,
    pub min_version: Option<Version>,
}

pub open spec fn reference_view(r: Reference) -> ReferenceView {
    ReferenceView { id: r.id@, name: r.name@ }
}

pub open spec fn reference_views(v: Seq<Reference>) -> Seq<ReferenceView> {
    v.map_values(|r: Reference| reference_view(r))
}

pub open spec fn string_option_view(o: Option<String>) -> Option<Seq<char>> {
    match o {
        Some(s) => Some(s@),
        None => None,
    }
}

pub open spec fn addon_view(a: AddonRef) -> AddonView {
    AddonView { name: a.name@, url: a.url@, since_version: string_option_view(a.since_version) }
}

impl View for Entry {
    type V = EntryView;

    open spec fn view(&self) -> EntryView {
        EntryView {
            id: self.id@,
            name: self.name@,
            since: strings_view(self.since@),
            description: strings_view(self.description@),
            patterns: strings_view(self.patterns@),
            examples: strings_view(self.examples@),
            requirements: strings_view(self.requirements@),
            returns: match self.returns {
                Some(r) => Some(reference_view(r)),
                None => None,
            },
            event_values: reference_views(self.event_values@),
            events: reference_views(self.events@),
            cancellable: self.cancellable,
            deprecated: self.deprecated,
            deprecation_note: string_option_view(self.deprecation_note),
            keywords: strings_view(self.keywords@),
            addon: match self.addon {
                Some(a) => Some(addon_view(a)),
                None => None,
            },
            min_version: self.min_version,
        }
    }
}

/// An entry with nothing in it.
pub open spec fn empty_entry() -> EntryView {
    EntryView {
        id: Seq::empty(),
        name: Seq::empty(),
        since: Seq::empty(),
        description: Seq::empty(),
        patterns: Seq::empty(),
        examples: Seq::empty(),
        requirements: Seq::empty(),
        returns: None,
        event_values: Seq::empty(),
        events: Seq::empty(),
        cancellable: false,
        deprecated: false,
        deprecation_note: None,
        keywords: Seq::empty(),
        addon: None,
        min_version: None,
    }
}

// ------------------------------------------------------------ list fields

/// The trimmed, non-blank pieces, in order.
pub open spec fn nonblank_trimmed(pieces: Seq<Seq<char>>) -> Seq<Seq<char>>
    decreases pieces.len(),
{
    if pieces.len() == 0 {
        Seq::empty()
    } else {
        let rest = nonblank_trimmed(pieces.drop_last());
        let p = trim(pieces.last());
        if p.len() > 0 {
            rest.push(p)
        } else {
            rest
        }
    }
}

/// The trimmed, non-blank items of a `sep`-separated list.
pub open spec fn listed(s: Seq<char>, sep: char) -> Seq<Seq<char>> {
    nonblank_trimmed(split_on(s, sep))
}

/// Splits a `sep`-separated list into its trimmed, non-blank items.
pub fn list_items(s: &str, sep: char) -> (out: Vec<String>)
    ensures
        strings_view(out@) == listed(s@, sep),
{
    let chars = chars_of(s);
    let pieces = split_chars(&chars, sep);
    let ghost all = split_on(chars@, sep);
    let mut out: Vec<String> = Vec::new();
    let mut i: usize = 0;
    while i < pieces.len()
        invariant
            i <= pieces@.len(),
            pieces@.len() == all.len(),
            forall|j: int| 0 <= j < pieces@.len() ==> #[trigger] pieces@[j]@ == all[j],
            strings_view(out@) == nonblank_trimmed(all.take(i as int)),
        decreases pieces@.len() - i,
    {
        let p = trim_chars(&pieces[i]);
        let ghost before = out@;
        assert(all.take(i + 1).drop_last() =~= all.take(i as int));
        assert(all.take(i + 1).last() == pieces@[i as int]@);
        if p.len() > 0 {
            out.push(string_of(&p));
            assert(strings_view(out@) =~= strings_view(before).push(p@));
        }
        i += 1;
    }
    assert(all.take(all.len() as int) =~= all);
    out
}

/// The pieces joined with `sep` between them.
pub open spec fn joined(pieces: Seq<Seq<char>>, sep: Seq<char>) -> Seq<char>
    decreases pieces.len(),
{
    if pieces.len() == 0 {
        Seq::empty()
    } else if pieces.len() == 1 {
        pieces[0]
    } else {
        joined(pieces.drop_last(), sep) + sep + pieces.last()
    }
}

/// Appends the pieces joined with `sep`.
pub fn append_joined(out: &mut Vec<char>, pieces: &Vec<Vec<char>>, sep: &str)
    ensures
        final(out)@ == old(out)@ + joined(char_vecs(pieces@), sep@),
{
    let ghost start = out@;
    let ghost all = char_vecs(pieces@);
    let mut i: usize = 0;
    while i < pieces.len()
        invariant
            i <= pieces@.len(),
            all == char_vecs(pieces@),
            out@ == start + joined(all.take(i as int), sep@),
        decreases pieces@.len() - i,
    {
        let ghost prev = out@;
        if i > 0 {
            append_str(out, sep);
        }
        append_chars(out, &pieces[i]);
        proof {
            let t = all.take(i + 1);
            assert(t.drop_last() =~= all.take(i as int));
            assert(t.last() == pieces@[i as int]@);
            if i == 0 {
                assert(all.take(0) =~= Seq::<Seq<char>>::empty());
                assert(t.len() == 1);
                assert(joined(t, sep@) == t[0]);
                assert(out@ =~= start + joined(t, sep@));
            } else {
                assert(out@ =~= start + joined(t, sep@));
            }
        }
        i += 1;
    }
    assert(all.take(all.len() as int) =~= all);
}

pub open spec fn char_vecs(v: Seq<Vec<char>>) -> Seq<Seq<char>> {
    v.map_values(|c: Vec<char>| c@)
}

// ------------------------------------------------------------ numbers

pub open spec fn digit(d: nat) -> char {
    if d == 0 { '0' } else if d == 1 { '1' } else if d == 2 { '2' } else if d == 3 { '3' } else if d == 4 {
        '4'
    } else if d == 5 { '5' } else if d == 6 { '6' } else if d == 7 { '7' } else if d == 8 { '8' } else { '9' }
}

/// The decimal digits of `n`, most significant first.
pub open spec fn digits(n: nat) -> Seq<char>
    decreases n,
{
    if n < 10 {
        seq![digit(n)]
    } else {
        digits(n / 10).push(digit(n % 10))
    }
}

/// `n` written in decimal, with a leading `-` when negative.
pub open spec fn decimal(n: int) -> Seq<char> {
    if n < 0 {
        seq!['-'] + digits((-n) as nat)
    } else {
        digits(n as nat)
    }
}

fn digit_char(d: u64) -> (c: char)
    requires
        d < 10,
    ensures
        c == digit(d as nat),
{
    if d == 0 { '0' } else if d == 1 { '1' } else if d == 2 { '2' } else if d == 3 { '3' } else if d == 4 {
        '4'
    } else if d == 5 { '5' } else if d == 6 { '6' } else if d == 7 { '7' } else if d == 8 { '8' } else { '9' }
}

fn digits_of(n: u64) -> (out: Vec<char>)
    ensures
        out@ == digits(n as nat),
    decreases n,
{
    if n < 10 {
        let mut out: Vec<char> = Vec::new();
        out.push(digit_char(n));
        assert(out@ =~= seq![digit(n as nat)]);
        out
    } else {
        let mut out = digits_of(n / 10);
        out.push(digit_char(n % 10));
        out
    }
}

/// Writes `n` in decimal.
pub fn decimal_of(n: i64) -> (out: Vec<char>)
    ensures
        out@ == decimal(n as int),
{
    if n < 0 {
        let magnitude: u64 = if n == i64::MIN {
            9223372036854775808u64
        } else {
            (-n) as u64
        };
        let mut out: Vec<char> = Vec::new();
        out.push('-');
        let rest = digits_of(magnitude);
        append_chars(&mut out, &rest);
        assert(out@ =~= seq!['-'] + digits((-(n as int)) as nat));
        out
    } else {
        digits_of(n as u64)
    }
}

// ------------------------------------------------------------ the hover card

/// How a reference is shown: its name, or its id when it has no name.
pub open spec fn display(r: ReferenceView) -> Seq<char> {
    if r.name.len() > 0 {
        r.name
    } else {
        r.id
    }
}

/// Each piece on a line of its own.
pub open spec fn each_line(pieces: Seq<Seq<char>>) -> Seq<char>
    decreases pieces.len(),
{
    if pieces.len() == 0 {
        Seq::empty()
    } else {
        each_line(pieces.drop_last()) + pieces.last() + "\n"@
    }
}

/// The title: the name (or the id when unnamed) in bold, the category in
/// italics, and what the syntax returns, when it names something.
pub open spec fn title_block(c: Category, e: EntryView) -> Seq<char> {
    "**"@ + (if e.name.len() == 0 {
        e.id
    } else {
        e.name
    }) + "**  \n"@ + "*"@ + category_label(c) + "*"@ + match e.returns {
        Some(r) => if display(r).len() > 0 {
            " → `"@ + display(r) + "`"@
        } else {
            Seq::empty()
        },
        None => Seq::empty(),
    } + "\n\n"@
}

pub open spec fn deprecation_block(e: EntryView) -> Seq<char> {
    if e.deprecated {
        "> ⚠️ **Deprecated.**"@ + match e.deprecation_note {
            Some(note) => " "@ + note,
            None => Seq::empty(),
        } + "\n\n"@
    } else {
        Seq::empty()
    }
}

pub open spec fn description_block(e: EntryView) -> Seq<char> {
    if e.description.len() > 0 {
        joined(e.description, "\n"@) + "\n\n"@
    } else {
        Seq::empty()
    }
}

pub open spec fn syntax_block(e: EntryView) -> Seq<char> {
    if e.patterns.len() > 0 {
        "**Syntax**\n\n```skript\n"@ + each_line(e.patterns) + "```\n\n"@
    } else {
        Seq::empty()
    }
}

pub open spec fn event_value_label(r: ReferenceView) -> Seq<char> {
    "`event-"@ + display(r) + "`"@
}

pub open spec fn event_values_block(e: EntryView) -> Seq<char> {
    if e.event_values.len() > 0 {
        "**Event values**\n\n"@ + joined(e.event_values.map_values(|r: ReferenceView| event_value_label(r)), ", "@) + "\n\n"@
    } else {
        Seq::empty()
    }
}

pub open spec fn cancel_block(e: EntryView) -> Seq<char> {
    if e.cancellable {
        "Cancellable with `cancel event`.\n\n"@
    } else {
        Seq::empty()
    }
}

pub open spec fn events_block(e: EntryView) -> Seq<char> {
    if e.events.len() > 0 {
        "**Only in**: "@ + joined(e.events.map_values(|r: ReferenceView| display(r)), ", "@) + "\n\n"@
    } else {
        Seq::empty()
    }
}

/// At most the first two examples, each without trailing whitespace: a hover
/// popup is not a manual.
pub open spec fn shown_examples(examples: Seq<Seq<char>>) -> Seq<Seq<char>> {
    examples.take(if examples.len() < 2 {
        examples.len() as int
    } else {
        2
    }).map_values(|x: Seq<char>| trim_end(x))
}

pub open spec fn examples_block(e: EntryView) -> Seq<char> {
    if e.examples.len() > 0 {
        "**Example**\n\n```skript\n"@ + each_line(shown_examples(e.examples)) + "```\n\n"@
    } else {
        Seq::empty()
    }
}

/// The provenance footer's parts: the first `since`, the requirements, and
/// the id.
pub open spec fn footer_parts(e: EntryView) -> Seq<Seq<char>> {
    let since: Seq<Seq<char>> = if e.since.len() > 0 {
        seq!["since "@ + e.since[0]]
    } else {
        Seq::empty()
    };
    let needs: Seq<Seq<char>> = if e.requirements.len() > 0 {
        seq!["requires "@ + joined(e.requirements, ", "@)]
    } else {
        Seq::empty()
    };
    let id: Seq<Seq<char>> = if e.id.len() > 0 {
        seq!["`"@ + e.id + "`"@]
    } else {
        Seq::empty()
    };
    since + needs + id
}

pub open spec fn footer_block(e: EntryView) -> Seq<char> {
    if footer_parts(e).len() > 0 {
        "---\n\n"@ + joined(footer_parts(e), " · "@)
    } else {
        Seq::empty()
    }
}

/// The hover card of an entry of category `c`, as Markdown, without
/// trailing whitespace.
pub open spec fn rendered(c: Category, e: EntryView) -> Seq<char> {
    trim_end(
        title_block(c, e) + deprecation_block(e) + description_block(e) + syntax_block(e) + event_values_block(e)
            + cancel_block(e) + events_block(e) + examples_block(e) + footer_block(e),
    )
}

fn display_of(r: &Reference) -> (out: Vec<char>)
    ensures
        out@ == display(reference_view(*r)),
{
    let name = chars_of(r.name.as_str());
    if name.len() > 0 {
        name
    } else {
        chars_of(r.id.as_str())
    }
}

fn strings_as_chars(v: &Vec<String>) -> (out: Vec<Vec<char>>)
    ensures
        char_vecs(out@) == strings_view(v@),
{
    let mut out: Vec<Vec<char>> = Vec::new();
    let mut i: usize = 0;
    while i < v.len()
        invariant
            i <= v@.len(),
            char_vecs(out@) == strings_view(v@.take(i as int)),
        decreases v@.len() - i,
    {
        let ghost before = out@;
        let c = chars_of(v[i].as_str());
        out.push(c);
        assert(char_vecs(out@) =~= char_vecs(before).push(c@));
        assert(strings_view(v@.take(i + 1)) =~= strings_view(v@.take(i as int)).push(v@[i as int]@));
        i += 1;
    }
    assert(v@.take(v@.len() as int) =~= v@);
    out
}

fn append_lines(out: &mut Vec<char>, pieces: &Vec<Vec<char>>)
    ensures
        final(out)@ == old(out)@ + each_line(char_vecs(pieces@)),
{
    let ghost start = out@;
    let ghost all = char_vecs(pieces@);
    let mut i: usize = 0;
    while i < pieces.len()
        invariant
            i <= pieces@.len(),
            all == char_vecs(pieces@),
            out@ == start + each_line(all.take(i as int)),
        decreases pieces@.len() - i,
    {
        append_chars(out, &pieces[i]);
        append_str(out, "\n");
        proof {
            let t = all.take(i + 1);
            assert(t.drop_last() =~= all.take(i as int));
            assert(t.last() == pieces@[i as int]@);
            assert(out@ =~= start + each_line(t));
        }
        i += 1;
    }
    assert(all.take(all.len() as int) =~= all);
}

fn trimmed_end(chars: &Vec<char>) -> (out: Vec<char>)
    ensures
        out@ == trim_end(chars@),
{
    let k = trail_index(chars, 0, chars.len());
    assert(chars@.subrange(0, chars@.len() as int) =~= chars@);
    slice(chars, 0, k)
}

fn push_title(out: &mut Vec<char>, c: Category, e: &Entry)
    ensures
        final(out)@ == old(out)@ + title_block(c, e@),
{
    let ghost start = out@;
    append_str(out, "**");
    if e.name.as_str().unicode_len() == 0 {
        append_str(out, e.id.as_str());
    } else {
        append_str(out, e.name.as_str());
    }
    append_str(out, "**  \n");
    append_str(out, "*");
    append_str(out, c.label());
    append_str(out, "*");
    let ghost mid = out@;
    match &e.returns {
        Some(r) => {
            let shown = display_of(r);
            if shown.len() > 0 {
                append_str(out, " → `");
                append_chars(out, &shown);
                append_str(out, "`");
            }
        },
        None => {},
    }
    append_str(out, "\n\n");
    proof {
        assert(out@ =~= start + title_block(c, e@));
    }
}

fn push_deprecation(out: &mut Vec<char>, e: &Entry)
    ensures
        final(out)@ == old(out)@ + deprecation_block(e@),
{
    let ghost start = out@;
    if e.deprecated {
        append_str(out, "> ⚠️ **Deprecated.**");
        match &e.deprecation_note {
            Some(note) => {
                append_str(out, " ");
                append_str(out, note.as_str());
            },
            None => {},
        }
        append_str(out, "\n\n");
    }
    proof {
        assert(out@ =~= start + deprecation_block(e@));
    }
}

fn push_description(out: &mut Vec<char>, e: &Entry)
    ensures
        final(out)@ == old(out)@ + description_block(e@),
{
    let ghost start = out@;
    if e.description.len() > 0 {
        let pieces = strings_as_chars(&e.description);
        append_joined(out, &pieces, "\n");
        append_str(out, "\n\n");
    }
    proof {
        assert(out@ =~= start + description_block(e@));
    }
}

fn push_syntax(out: &mut Vec<char>, e: &Entry)
    ensures
        final(out)@ == old(out)@ + syntax_block(e@),
{
    let ghost start = out@;
    if e.patterns.len() > 0 {
        append_str(out, "**Syntax**\n\n```skript\n");
        let pieces = strings_as_chars(&e.patterns);
        append_lines(out, &pieces);
        append_str(out, "```\n\n");
    }
    proof {
        assert(out@ =~= start + syntax_block(e@));
    }
}

fn push_event_values(out: &mut Vec<char>, e: &Entry)
    ensures
        final(out)@ == old(out)@ + event_values_block(e@),
{
    let ghost start = out@;
    if e.event_values.len() > 0 {
        append_str(out, "**Event values**\n\n");
        let ghost want = reference_views(e.event_values@).map_values(|r: ReferenceView| event_value_label(r));
        let mut pieces: Vec<Vec<char>> = Vec::new();
        let mut i: usize = 0;
        while i < e.event_values.len()
            invariant
                i <= e.event_values@.len(),
                want == reference_views(e.event_values@).map_values(|r: ReferenceView| event_value_label(r)),
                char_vecs(pieces@) == want.take(i as int),
            decreases e.event_values@.len() - i,
        {
            let mut label: Vec<char> = Vec::new();
            append_str(&mut label, "`event-");
            let shown = display_of(&e.event_values[i]);
            append_chars(&mut label, &shown);
            append_str(&mut label, "`");
            let ghost before = pieces@;
            assert(label@ == want[i as int]);
            pieces.push(label);
            assert(char_vecs(pieces@) =~= char_vecs(before).push(label@));
            assert(want.take(i + 1) =~= want.take(i as int).push(want[i as int]));
            i += 1;
        }
        assert(want.take(want.len() as int) =~= want);
        append_joined(out, &pieces, ", ");
        append_str(out, "\n\n");
    }
    proof {
        assert(out@ =~= start + event_values_block(e@));
    }
}

fn push_cancel(out: &mut Vec<char>, e: &Entry)
    ensures
        final(out)@ == old(out)@ + cancel_block(e@),
{
    let ghost start = out@;
    if e.cancellable {
        append_str(out, "Cancellable with `cancel event`.\n\n");
    }
    proof {
        assert(out@ =~= start + cancel_block(e@));
    }
}

fn push_events(out: &mut Vec<char>, e: &Entry)
    ensures
        final(out)@ == old(out)@ + events_block(e@),
{
    let ghost start = out@;
    if e.events.len() > 0 {
        append_str(out, "**Only in**: ");
        let ghost want = reference_views(e.events@).map_values(|r: ReferenceView| display(r));
        let mut pieces: Vec<Vec<char>> = Vec::new();
        let mut i: usize = 0;
        while i < e.events.len()
            invariant
                i <= e.events@.len(),
                want == reference_views(e.events@).map_values(|r: ReferenceView| display(r)),
                char_vecs(pieces@) == want.take(i as int),
            decreases e.events@.len() - i,
        {
            let shown = display_of(&e.events[i]);
            let ghost before = pieces@;
            assert(shown@ == want[i as int]);
            pieces.push(shown);
            assert(char_vecs(pieces@) =~= char_vecs(before).push(shown@));
            assert(want.take(i + 1) =~= want.take(i as int).push(want[i as int]));
            i += 1;
        }
        assert(want.take(want.len() as int) =~= want);
        append_joined(out, &pieces, ", ");
        append_str(out, "\n\n");
    }
    proof {
        assert(out@ =~= start + events_block(e@));
    }
}

fn push_examples(out: &mut Vec<char>, e: &Entry)
    ensures
        final(out)@ == old(out)@ + examples_block(e@),
{
    let ghost start = out@;
    if e.examples.len() > 0 {
        append_str(out, "**Example**\n\n```skript\n");
        let n = if e.examples.len() < 2 {
            e.examples.len()
        } else {
            2
        };
        let ghost want = shown_examples(e@.examples);
        let mut pieces: Vec<Vec<char>> = Vec::new();
        let mut i: usize = 0;
        while i < n
            invariant
                i <= n <= e.examples@.len(),
                n == want.len(),
                want == shown_examples(e@.examples),
                char_vecs(pieces@) == want.take(i as int),
            decreases n - i,
        {
            let line = trimmed_end(&chars_of(e.examples[i].as_str()));
            let ghost before = pieces@;
            assert(line@ == want[i as int]);
            pieces.push(line);
            assert(char_vecs(pieces@) =~= char_vecs(before).push(line@));
            assert(want.take(i + 1) =~= want.take(i as int).push(want[i as int]));
            i += 1;
        }
        assert(want.take(want.len() as int) =~= want);
        append_lines(out, &pieces);
        append_str(out, "```\n\n");
    }
    proof {
        assert(out@ =~= start + examples_block(e@));
    }
}

fn push_footer(out: &mut Vec<char>, e: &Entry)
    ensures
        final(out)@ == old(out)@ + footer_block(e@),
{
    let ghost start = out@;
    let mut parts: Vec<Vec<char>> = Vec::new();
    if e.since.len() > 0 {
        let mut part: Vec<char> = Vec::new();
        append_str(&mut part, "since ");
        append_str(&mut part, e.since[0].as_str());
        parts.push(part);
    }
    if e.requirements.len() > 0 {
        let mut part: Vec<char> = Vec::new();
        append_str(&mut part, "requires ");
        let pieces = strings_as_chars(&e.requirements);
        append_joined(&mut part, &pieces, ", ");
        parts.push(part);
    }
    if e.id.as_str().unicode_len() > 0 {
        let mut part: Vec<char> = Vec::new();
        append_str(&mut part, "`");
        append_str(&mut part, e.id.as_str());
        append_str(&mut part, "`");
        parts.push(part);
    }
    assert(char_vecs(parts@) =~= footer_parts(e@));
    if parts.len() > 0 {
        append_str(out, "---\n\n");
        append_joined(out, &parts, " · ");
    }
    proof {
        assert(out@ =~= start + footer_block(e@));
    }
}

/// Builds the hover card for an entry of category `category`: title,
/// deprecation warning, description, syntax, event values, cancellability,
/// the events it is restricted to, at most two examples, and a footer with
/// `since`, requirements and id.
pub fn render(category: Category, entry: &Entry) -> (r: String)
    ensures
        r@ == rendered(category, entry@),
{
    let mut out: Vec<char> = Vec::new();
    push_title(&mut out, category, entry);
    push_deprecation(&mut out, entry);
    push_description(&mut out, entry);
    push_syntax(&mut out, entry);
    push_event_values(&mut out, entry);
    push_cancel(&mut out, entry);
    push_events(&mut out, entry);
    push_examples(&mut out, entry);
    push_footer(&mut out, entry);
    proof {
        assert(out@ =~= title_block(category, entry@) + deprecation_block(entry@) + description_block(entry@)
            + syntax_block(entry@) + event_values_block(entry@) + cancel_block(entry@) + events_block(entry@)
            + examples_block(entry@) + footer_block(entry@));
    }
    string_of(&trimmed_end(&out))
}

/// A one-line summary, for completion details and signature help: the first
/// line of the description, trimmed; empty when there is none.
pub open spec fn summary_of(e: EntryView) -> Seq<char> {
    if e.description.len() > 0 {
        trim(e.description[0])
    } else {
        Seq::empty()
    }
}

pub fn summary(entry: &Entry) -> (r: String)
    ensures
        r@ == summary_of(entry@),
{
    if entry.description.len() > 0 {
        string_of(&trim_chars(&chars_of(entry.description[0].as_str())))
    } else {
        String::new()
    }
}

} // verus!
