//! The categories of Skript syntax, and where in a script each can explain a
//! whole line.
//!
//! Skript's categories are not interchangeable: three core expressions match
//! literally any text, so letting expressions compete with effects for a whole
//! line would label every unrecognised statement as an expression. Ruling
//! categories out by position is what keeps classification honest.
use vstd::prelude::*;

use crate::strings::{
    byte_len, byte_offset, chars_of, has_prefix_at, lead, lead_index, lower_chars, lower_seq,
    slice, starts_with, trail_index, trim_end,
};

verus! {

/// A category of the syntax database.
#[derive(Debug, Clone, Copy, PartialEq, Eq, Structural, Hash)]
pub enum Category {
    Event,
    Condition,
    Effect,
    Expression,
    Type,
    Function,
    Section,
    Structure,
}

pub open spec fn all_categories() -> Seq<Category> {
    seq![
        Category::Event,
        Category::Condition,
        Category::Effect,
        Category::Expression,
        Category::Type,
        Category::Function,
        Category::Section,
        Category::Structure,
    ]
}

/// The name of the semantic token type that colours a category.
pub open spec fn token_type_name(c: Category) -> Seq<char> {
    match c {
        Category::Effect => "skriptEffect"@,
        Category::Condition => "skriptCondition"@,
        Category::Expression => "skriptExpression"@,
        Category::Event => "skriptEvent"@,
        Category::Section => "skriptSection"@,
        Category::Structure => "skriptStructure"@,
        Category::Type => "skriptType"@,
        Category::Function => "function"@,
    }
}

/// The word a category is called by in a hover card.
pub open spec fn category_label(c: Category) -> Seq<char> {
    match c {
        Category::Event => "event"@,
        Category::Condition => "condition"@,
        Category::Effect => "effect"@,
        Category::Expression => "expression"@,
        Category::Type => "type"@,
        Category::Function => "function"@,
        Category::Section => "section"@,
        Category::Structure => "structure"@,
    }
}

impl Category {
    /// The word this category is called by.
    pub fn label(self) -> (name: &'static str)
        ensures
            name@ == category_label(self),
    {
        match self {
            Category::Event => "event",
            Category::Condition => "condition",
            Category::Effect => "effect",
            Category::Expression => "expression",
            Category::Type => "type",
            Category::Function => "function",
            Category::Section => "section",
            Category::Structure => "structure",
        }
    }

    /// Every category, once each.
    pub fn all() -> (out: Vec<Category>)
        ensures
            out@ == all_categories(),
    {
        let out = vec![
            Category::Event,
            Category::Condition,
            Category::Effect,
            Category::Expression,
            Category::Type,
            Category::Function,
            Category::Section,
            Category::Structure,
        ];
        assert(out@ =~= all_categories());
        out
    }

    /// The semantic token type this category's syntax is coloured with.
    pub fn semantic_token_type(self) -> (name: &'static str)
        ensures
            name@ == token_type_name(self),
    {
        match self {
            Category::Effect => "skriptEffect",
            Category::Condition => "skriptCondition",
            Category::Expression => "skriptExpression",
            Category::Event => "skriptEvent",
            Category::Section => "skriptSection",
            Category::Structure => "skriptStructure",
            Category::Type => "skriptType",
            Category::Function => "function",
        }
    }
}

/// Identifies one entry in the catalog.
#[derive(Debug, Clone, Copy, PartialEq, Eq, Structural, Hash)]
pub struct EntryId {
    pub category: Category,
    /// The entry's position among all the entries of the catalog it comes
    /// from, whatever their categories.
    pub index: usize,
}

/// Where a line sits in a script, which decides what can explain it.
#[derive(Debug, Clone, Copy, PartialEq, Eq, Structural)]
pub enum LineRole {
    /// Column 0. Opens a structure: an event, a command, a function.
    TopLevel,
    /// Indented. A statement inside a trigger or section body.
    Statement,
    /// Position unknown: a fragment, or a caller with no tree to consult.
    Any,
}

/// The categories that can explain a whole line in each role, in tiers: a
/// later tier is consulted only when an earlier one has nothing.
pub open spec fn tiers_of(role: LineRole) -> Seq<Seq<Category>> {
    match role {
        LineRole::TopLevel => seq![seq![Category::Structure], seq![Category::Event]],
        LineRole::Statement => seq![seq![Category::Effect, Category::Section, Category::Condition]],
        LineRole::Any => seq![all_categories()],
    }
}

/// Whether some tier of `role` holds `c`.
pub open spec fn role_allows(role: LineRole, c: Category) -> bool {
    exists|i: int| 0 <= i < tiers_of(role).len() && (#[trigger] tiers_of(role)[i]).contains(c)
}

pub open spec fn category_vecs_view(v: Seq<Vec<Category>>) -> Seq<Seq<Category>> {
    v.map_values(|t: Vec<Category>| t@)
}

impl LineRole {
    /// Whether the line's indentation puts it at the top level.
    pub fn from_indent(indent: usize) -> (role: LineRole)
        ensures
            role == (if indent == 0 {
                LineRole::TopLevel
            } else {
                LineRole::Statement
            }),
    {
        if indent == 0 {
            LineRole::TopLevel
        } else {
            LineRole::Statement
        }
    }

    /// The categories that can explain a whole line here, in tiers.
    pub fn tiers(self) -> (out: Vec<Vec<Category>>)
        ensures
            category_vecs_view(out@) == tiers_of(self),
    {
        match self {
            LineRole::TopLevel => {
                let a = vec![Category::Structure];
                let b = vec![Category::Event];
                assert(a@ =~= seq![Category::Structure]);
                assert(b@ =~= seq![Category::Event]);
                let out = vec![a, b];
                assert(category_vecs_view(out@) =~= tiers_of(self));
                out
            },
            LineRole::Statement => {
                let a = vec![Category::Effect, Category::Section, Category::Condition];
                assert(a@ =~= seq![Category::Effect, Category::Section, Category::Condition]);
                let out = vec![a];
                assert(category_vecs_view(out@) =~= tiers_of(self));
                out
            },
            LineRole::Any => {
                let a = Category::all();
                let out = vec![a];
                assert(category_vecs_view(out@) =~= tiers_of(self));
                out
            },
        }
    }

    /// Whether a category can explain a whole line in this role.
    pub fn allows(self, category: Category) -> (b: bool)
        ensures
            b == role_allows(self, category),
    {
        let tiers = self.tiers();
        let ghost t = tiers_of(self);
        let mut i: usize = 0;
        while i < tiers.len()
            invariant
                i <= tiers@.len(),
                category_vecs_view(tiers@) == t,
                t == tiers_of(self),
                forall|k: int| 0 <= k < i ==> !(#[trigger] t[k]).contains(category),
            decreases tiers@.len() - i,
        {
            let tier = &tiers[i];
            assert(t[i as int] == tier@);
            let mut j: usize = 0;
            while j < tier.len()
                invariant
                    j <= tier@.len(),
                    i < t.len(),
                    t[i as int] == tier@,
                    t == tiers_of(self),
                    forall|k: int| 0 <= k < j ==> tier@[k] != category,
                decreases tier@.len() - j,
            {
                if tier[j] == category {
                    assert(t[i as int][j as int] == category);
                    assert(t[i as int].contains(category));
                    return true;
                }
                j += 1;
            }
            assert(!t[i as int].contains(category));
            i += 1;
        }
        false
    }
}

// ------------------------------------------------------------ event wrapper

/// The length of the event modifier that `rest` begins with, if any.
pub open spec fn modifier_len(rest: Seq<char>) -> nat {
    if starts_with(rest, "uncancelled "@) {
        "uncancelled "@.len()
    } else if starts_with(rest, "cancelled "@) {
        "cancelled "@.len()
    } else if starts_with(rest, "any "@) {
        "any "@.len()
    } else if starts_with(rest, "all "@) {
        "all "@.len()
    } else {
        0
    }
}

/// The last index below `i` at which `pat` occurs in `s`.
pub open spec fn rfind_from(s: Seq<char>, pat: Seq<char>, i: int) -> Option<int>
    decreases i,
{
    if i <= 0 {
        None
    } else if i - 1 <= s.len() && starts_with(s.skip(i - 1), pat) {
        Some(i - 1)
    } else {
        rfind_from(s, pat, i - 1)
    }
}

/// `str::rfind`: the last index at which `pat` occurs in `s`.
pub open spec fn rfind(s: Seq<char>, pat: Seq<char>) -> Option<int> {
    rfind_from(s, pat, s.len() + 1int)
}

/// The bare event text inside Skript's `[on] [cancelled|...] ... [with
/// priority ...]` wrapper, with the character index at which it starts.
pub open spec fn event_wrapper(line: Seq<char>) -> Option<(Seq<char>, int)> {
    let lower = lower_seq(line);
    if !starts_with(lower, "on "@) {
        None
    } else {
        let off = "on "@.len() + modifier_len(lower.skip("on "@.len() as int));
        let rest = line.skip(off as int);
        let bare = match rfind(lower.skip(off as int), " with priority "@) {
            Some(at) => rest.take(at),
            None => rest,
        };
        let trimmed = trim_end(bare.skip(lead(bare) as int));
        if trimmed.len() > 0 {
            Some((trimmed, (off + lead(bare)) as int))
        } else {
            None
        }
    }
}

fn rfind_chars(s: &Vec<char>, pat: &Vec<char>) -> (r: Option<usize>)
    ensures
        match rfind(s@, pat@) {
            Some(at) => r == Some(at as usize) && 0 <= at <= s@.len(),
            None => r is None,
        },
{
    let n = s.len();
    if has_prefix_at(s, n, pat) {
        return Some(n);
    }
    let mut i: usize = n;
    while i > 0
        invariant
            i <= s@.len(),
            rfind(s@, pat@) == rfind_from(s@, pat@, i as int),
        decreases i,
    {
        if has_prefix_at(s, i - 1, pat) {
            return Some(i - 1);
        }
        i -= 1;
    }
    None
}

fn modifier_of(rest: &Vec<char>, at: usize) -> (n: usize)
    requires
        at <= rest@.len(),
    ensures
        n == modifier_len(rest@.skip(at as int)),
        at + n <= rest@.len(),
{
    let uncancelled = chars_of("uncancelled ");
    let cancelled = chars_of("cancelled ");
    let any = chars_of("any ");
    let all = chars_of("all ");
    if has_prefix_at(rest, at, &uncancelled) {
        uncancelled.len()
    } else if has_prefix_at(rest, at, &cancelled) {
        cancelled.len()
    } else if has_prefix_at(rest, at, &any) {
        any.len()
    } else if has_prefix_at(rest, at, &all) {
        all.len()
    } else {
        0
    }
}

/// Undoes the wrapper that Skript's event structure puts around every event
/// pattern. Returns the bare event text and its byte offset within `line`, so
/// captures taken against it can be shifted back onto `line`.
pub fn strip_event_wrapper(line: &Vec<char>) -> (r: Option<(Vec<char>, usize)>)
    requires
        byte_len(line@) <= usize::MAX,
    ensures
        match event_wrapper(line@) {
            Some((bare, at)) => r matches Some((text, offset)) && text@ == bare && offset
                == byte_len(line@.take(at)),
            None => r is None,
        },
{
    let lower = lower_chars(line);
    let on = chars_of("on ");
    if !has_prefix_at(&lower, 0, &on) {
        assert(lower@.skip(0) == lower@);
        return None;
    }
    assert(lower@.skip(0) == lower@);
    let total = lower.len();
    let k = on.len();
    let m = modifier_of(&lower, k);
    assert(k + m <= total);
    let off = k + m;
    let tail = slice(&lower, off, lower.len());
    let priority = chars_of(" with priority ");
    let end = match rfind_chars(&tail, &priority) {
        Some(at) => off + at,
        None => line.len(),
    };
    assert(tail@ == lower@.skip(off as int));
    let a = lead_index(line, off, end);
    let b = trail_index(line, a, end);
    proof {
        let rest = line@.skip(off as int);
        let bare = line@.subrange(off as int, end as int);
        assert(bare =~= match rfind(lower@.skip(off as int), " with priority "@) {
            Some(at) => rest.take(at),
            None => rest,
        });
        assert(bare.skip(lead(bare) as int) =~= line@.subrange(a as int, end as int));
        assert(trim_end(bare.skip(lead(bare) as int)) =~= line@.subrange(a as int, b as int));
    }
    if a == b {
        return None;
    }
    let text = slice(line, a, b);
    let offset = byte_offset(line, a);
    Some((text, offset))
}

} // verus!
