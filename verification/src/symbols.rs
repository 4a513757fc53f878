//! Declarations and references of a Skript document: functions, commands,
//! options and variables are declared by the script itself, so
//! go-to-definition, find-references, rename and the outline work offline.
use vstd::prelude::*;

use crate::strings::{chars_of, lead_by, lines, lines_of, one_of, string_of, strip_leading, strip_trailing, trail_by, trim, trim_chars};
use crate::text::{range_touches, Position, Range};

verus! {

/// What kind of thing a symbol is.
#[derive(Debug, Clone, Copy, PartialEq, Eq, Structural, Hash)]
pub enum SymbolKind {
    Event,
    Command,
    /// A command entry such as `permission:` or `trigger:`.
    Entry,
    Function,
    /// `local function`: visible only inside the declaring script.
    LocalFunction,
    Option,
    /// A `{global}` or `{-ephemeral}` variable.
    GlobalVariable,
    /// A `{_local}` variable, scoped to one trigger.
    LocalVariable,
    Alias,
    Section,
    Structure,
}

impl SymbolKind {
    pub fn is_function(self) -> (b: bool)
        ensures
            b == (self is Function || self is LocalFunction),
    {
        matches!(self, SymbolKind::Function | SymbolKind::LocalFunction)
    }

    pub fn is_variable(self) -> (b: bool)
        ensures
            b == (self is GlobalVariable || self is LocalVariable),
    {
        matches!(self, SymbolKind::GlobalVariable | SymbolKind::LocalVariable)
    }
}

/// A declaration, with the nesting the outline panel shows.
#[derive(Debug, PartialEq, Eq)]
pub struct Symbol {
    pub kind: SymbolKind,
    pub name: String,
    /// Extra text shown after the name, e.g. a function's signature.
    pub detail: String,
    /// The whole construct, used for folding.
    pub range: Range,
    /// Just the name, used as the go-to-definition target.
    pub selection_range: Range,
    pub children: Vec<Symbol>,
}

/// A use of a symbol somewhere in the document.
#[derive(Debug, Clone, PartialEq, Eq)]
pub struct Reference {
    pub kind: SymbolKind,
    pub name: String,
    /// The whole reference, including a variable's braces; used for
    /// hit-testing.
    pub range: Range,
    /// Just the name, excluding `{`, the `_`/`-` scope sigil and `}`. Renames
    /// edit this and nothing else.
    pub name_range: Range,
    /// For a `{_local}` variable, the range of the trigger it lives in, since
    /// Skript scopes such a variable to the running trigger; `None` for
    /// anything else.
    pub scope: Option<Range>,
}

/// Everything extracted from one document.
#[derive(Debug, Default)]
pub struct FileSymbols {
    pub symbols: Vec<Symbol>,
    pub references: Vec<Reference>,
}

/// The symbol tree in pre-order: each symbol, then its children, then its
/// later siblings.
pub open spec fn flatten(symbols: Seq<Symbol>) -> Seq<Symbol>
    decreases symbols,
{
    if symbols.len() == 0 {
        Seq::empty()
    } else {
        let first = symbols[0];
        proof {
            assert(decreases_to!(symbols => symbols[0]));
            assert(decreases_to!(symbols[0] => symbols[0].children));
            assert(decreases_to!(symbols[0].children => symbols[0].children@));
        }
        seq![first] + flatten(first.children@) + flatten(symbols.subrange(1, symbols.len() as int))
    }
}

pub proof fn lemma_flatten_append(a: Seq<Symbol>, b: Seq<Symbol>)
    ensures
        flatten(a + b) == flatten(a) + flatten(b),
    decreases a.len(),
{
    if a.len() == 0 {
        assert(a + b =~= b);
        assert(flatten(a) =~= Seq::<Symbol>::empty());
        assert(flatten(a) + flatten(b) =~= flatten(b));
    } else {
        let ab = a + b;
        assert(ab[0] == a[0]);
        assert(ab.subrange(1, ab.len() as int) =~= a.subrange(1, a.len() as int) + b);
        lemma_flatten_append(a.subrange(1, a.len() as int), b);
        let first = a[0];
        assert(flatten(ab) =~= seq![first] + flatten(first.children@) + (flatten(
            a.subrange(1, a.len() as int),
        ) + flatten(b)));
        assert(flatten(a) =~= seq![first] + flatten(first.children@) + flatten(
            a.subrange(1, a.len() as int),
        ));
    }
}

pub proof fn lemma_flatten_one(x: Symbol)
    ensures
        flatten(seq![x]) == seq![x] + flatten(x.children@),
{
    assert(seq![x].subrange(1, 1) =~= Seq::<Symbol>::empty());
    assert(flatten(Seq::<Symbol>::empty()) =~= Seq::<Symbol>::empty());
    assert(seq![x] + flatten(x.children@) + Seq::<Symbol>::empty() =~= seq![x] + flatten(
        x.children@,
    ));
}

pub open spec fn derefs(refs: Seq<&Symbol>) -> Seq<Symbol> {
    refs.map_values(|r: &Symbol| *r)
}

fn walk<'a>(symbols: &'a Vec<Symbol>, out: &mut Vec<&'a Symbol>)
    ensures
        derefs(final(out)@) == derefs(old(out)@) + flatten(symbols@),
    decreases symbols@,
{
    let ghost start = derefs(out@);
    let mut i: usize = 0;
    while i < symbols.len()
        invariant
            i <= symbols@.len(),
            derefs(out@) == start + flatten(symbols@.take(i as int)),
        decreases symbols@.len() - i,
    {
        let ghost before = derefs(out@);
        let sym = &symbols[i];
        out.push(sym);
        assert(derefs(out@) =~= before.push(symbols@[i as int]));
        proof {
            assert(decreases_to!(symbols@ => symbols@[i as int]));
            assert(decreases_to!(symbols@[i as int] => symbols@[i as int].children));
            assert(decreases_to!(symbols@[i as int].children => symbols@[i as int].children@));
        }
        walk(&sym.children, out);
        proof {
            let x = symbols@[i as int];
            lemma_flatten_append(symbols@.take(i as int), seq![x]);
            lemma_flatten_one(x);
            assert(symbols@.take(i + 1) =~= symbols@.take(i as int) + seq![x]);
            assert(before.push(x) =~= before + seq![x]);
        }
        i += 1;
    }
    assert(symbols@.take(symbols@.len() as int) =~= symbols@);
}

/// The first symbol of `f` whose selection range touches `p`.
pub open spec fn first_declaration(f: Seq<Symbol>, p: Position, found: Option<Symbol>) -> bool {
    match found {
        Some(s) => exists|i: int|
            0 <= i < f.len() && f[i] == s && range_touches(#[trigger] f[i].selection_range, p)
                && forall|j: int| 0 <= j < i ==> !range_touches(#[trigger] f[j].selection_range, p),
        None => forall|i: int| 0 <= i < f.len() ==> !range_touches(#[trigger] f[i].selection_range, p),
    }
}

/// The first reference of `refs` whose range touches `p`.
pub open spec fn first_reference(refs: Seq<Reference>, p: Position, found: Option<Reference>) -> bool {
    match found {
        Some(r) => exists|i: int|
            0 <= i < refs.len() && refs[i] == r && range_touches(#[trigger] refs[i].range, p)
                && forall|j: int| 0 <= j < i ==> !range_touches(#[trigger] refs[j].range, p),
        None => forall|i: int| 0 <= i < refs.len() ==> !range_touches(#[trigger] refs[i].range, p),
    }
}

pub open spec fn deref_option<T>(o: Option<&T>) -> Option<T> {
    match o {
        Some(r) => Some(*r),
        None => None,
    }
}

impl FileSymbols {
    /// Flattens the symbol tree, in pre-order.
    pub fn flat(&self) -> (out: Vec<&Symbol>)
        ensures
            derefs(out@) == flatten(self.symbols@),
    {
        let mut out: Vec<&Symbol> = Vec::new();
        assert(derefs(out@) =~= Seq::<Symbol>::empty());
        walk(&self.symbols, &mut out);
        assert(Seq::<Symbol>::empty() + flatten(self.symbols@) =~= flatten(self.symbols@));
        out
    }

    /// The declaration whose name the cursor is on, if any: the first, in
    /// pre-order, whose selection range touches the position.
    pub fn declaration_at(&self, position: Position) -> (r: Option<&Symbol>)
        ensures
            first_declaration(flatten(self.symbols@), position, deref_option(r)),
    {
        let all = self.flat();
        let ghost f = flatten(self.symbols@);
        let mut i: usize = 0;
        while i < all.len()
            invariant
                i <= all@.len(),
                derefs(all@) == f,
                f == flatten(self.symbols@),
                forall|j: int| 0 <= j < i ==> !range_touches(#[trigger] f[j].selection_range, position),
            decreases all@.len() - i,
        {
            let found: &Symbol = all[i];
            assert(f[i as int] == *found);
            if found.selection_range.touches(position) {
                assert(range_touches(f[i as int].selection_range, position));
                let r = Some(found);
                assert(deref_option(r) == Some(f[i as int]));
                return r;
            }
            i += 1;
        }
        None
    }

    /// The reference the cursor is on, if any: the first whose range touches
    /// the position.
    pub fn reference_at(&self, position: Position) -> (r: Option<&Reference>)
        ensures
            first_reference(self.references@, position, deref_option(r)),
    {
        let mut i: usize = 0;
        while i < self.references.len()
            invariant
                i <= self.references@.len(),
                forall|j: int|
                    0 <= j < i ==> !range_touches(#[trigger] self.references@[j].range, position),
            decreases self.references@.len() - i,
        {
            if self.references[i].range.touches(position) {
                return Some(&self.references[i]);
            }
            i += 1;
        }
        None
    }
}

// ------------------------------------------------------------ variable names

/// `{_x}` is trigger-local; `{x}` and `{-x}` are global.
pub open spec fn kind_of_variable(raw: Seq<char>) -> SymbolKind {
    if raw.len() >= 2 && raw[0] == '{' && raw[1] == '_' {
        SymbolKind::LocalVariable
    } else {
        SymbolKind::GlobalVariable
    }
}

pub fn variable_kind(raw: &str) -> (k: SymbolKind)
    ensures
        k == kind_of_variable(raw@),
{
    let chars = chars_of(raw);
    if chars.len() >= 2 && chars[0] == '{' && chars[1] == '_' {
        SymbolKind::LocalVariable
    } else {
        SymbolKind::GlobalVariable
    }
}

pub open spec fn drop_leading(s: Seq<char>, a: char, b: char) -> Seq<char> {
    s.skip(lead_by(s, one_of(a, b)) as int)
}

pub open spec fn drop_trailing(s: Seq<char>, a: char, b: char) -> Seq<char> {
    s.take(s.len() - trail_by(s, one_of(a, b)))
}

/// A variable's name without braces and scope sigil: trimmed, every leading
/// `{` and trailing `}` removed, then every leading `_` or `-`, then trimmed
/// again.
pub open spec fn variable_name(raw: Seq<char>) -> Seq<char> {
    trim(drop_leading(drop_trailing(drop_leading(trim(raw), '{', '{'), '}', '}'), '_', '-'))
}

/// Strips the braces and the scope sigil, so `{_count}` and `{count}` both
/// index under `count` while keeping their kinds distinct.
pub fn normalise_variable(raw: &str) -> (name: String)
    ensures
        name@ == variable_name(raw@),
{
    let chars = chars_of(raw);
    let t = trim_chars(&chars);
    let a = strip_leading(&t, '{', '{');
    let b = strip_trailing(&a, '}', '}');
    let c = strip_leading(&b, '_', '-');
    let d = trim_chars(&c);
    string_of(&d)
}

/// The first line of `text`, trimmed; empty when there is none.
pub open spec fn first_line_of(text: Seq<char>) -> Seq<char> {
    if lines_of(text).len() > 0 {
        trim(lines_of(text)[0])
    } else {
        Seq::empty()
    }
}

pub fn first_line(text: &str) -> (out: String)
    ensures
        out@ == first_line_of(text@),
{
    let chars = chars_of(text);
    let ls = lines(&chars);
    if ls.len() > 0 {
        let t = trim_chars(&ls[0]);
        string_of(&t)
    } else {
        String::new()
    }
}

} // verus!
