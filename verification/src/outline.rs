//! The declarations and references of a parsed Skript file: what the outline
//! shows, what go-to-definition jumps to and what rename rewrites.
use vstd::prelude::*;

use crate::source::{append_chars, append_str};
use crate::strings::{chars_of, string_of, trim, trim_chars};
use crate::symbols::{
    drop_leading, first_line, first_line_of, kind_of_variable, normalise_variable, variable_kind,
    variable_name, FileSymbols, Reference, Symbol, SymbolKind,
};
use crate::syntax::{field, field_node, field_range, field_range_of, field_text, field_text_of, is_word, SyntaxTree, TreeNode};
use crate::text::Range;

verus! {

/// A declaration as plain values.
pub struct SymbolView {
    pub kind: SymbolKind,
    pub name: Seq<char>,
    pub detail: Seq<char>,
    pub range: Range,
    pub selection_range: Range,
    pub children: Seq<SymbolView>,
}

pub open spec fn symbol_view(s: Symbol) -> SymbolView
    decreases s,
{
    SymbolView {
        kind: s.kind,
        name: s.name@,
        detail: s.detail@,
        range: s.range,
        selection_range: s.selection_range,
        children: symbol_views(s.children@),
    }
}

pub open spec fn symbol_views(ss: Seq<Symbol>) -> Seq<SymbolView>
    decreases ss,
{
    if ss.len() == 0 {
        Seq::empty()
    } else {
        proof {
            assert(decreases_to!(ss => ss[ss.len() - 1]));
        }
        symbol_views(ss.drop_last()).push(symbol_view(ss.last()))
    }
}

proof fn lemma_views_push(ss: Seq<Symbol>, s: Symbol)
    ensures
        symbol_views(ss.push(s)) == symbol_views(ss).push(symbol_view(s)),
{
    assert(ss.push(s).drop_last() =~= ss);
}

/// A declaration without nested declarations.
pub open spec fn leaf(kind: SymbolKind, name: Seq<char>, detail: Seq<char>, range: Range, selection_range: Range) -> SymbolView {
    SymbolView { kind, name, detail, range, selection_range, children: Seq::empty() }
}

pub open spec fn or_empty(o: Option<Seq<char>>) -> Seq<char> {
    match o {
        Some(s) => s,
        None => Seq::empty(),
    }
}

pub open spec fn or_range(o: Option<Range>, r: Range) -> Range {
    match o {
        Some(x) => x,
        None => r,
    }
}

// ------------------------------------------------------------ nested sections

/// The entries and sections of node `i`'s body, so the outline mirrors the
/// file.
pub open spec fn body_sections(t: Seq<TreeNode>, i: int) -> Seq<SymbolView>
    decreases t.len() - i, 0int, 0int,
{
    if 0 <= i < t.len() {
        match field(t, i, "body"@) {
            Some(b) => if i < b < t.len() {
                sections_upto(t, b, t[b].children@.len() as int)
            } else {
                Seq::empty()
            },
            None => Seq::empty(),
        }
    } else {
        Seq::empty()
    }
}

/// The entries and sections among the first `k` children of node `b`.
pub open spec fn sections_upto(t: Seq<TreeNode>, b: int, k: int) -> Seq<SymbolView>
    decreases t.len() - b, 1int, k,
{
    if 0 <= b < t.len() && 0 < k <= t[b].children@.len() {
        let prev = sections_upto(t, b, k - 1);
        let c = t[b].children@[k - 1] as int;
        if b < c < t.len() {
            let kind = t[c].kind@;
            if kind == "entry_section"@ || kind == "entry"@ {
                match field(t, c, "key"@) {
                    Some(key) => prev.push(
                        SymbolView {
                            kind: SymbolKind::Entry,
                            name: t[key].text@,
                            detail: Seq::empty(),
                            range: t[c].range,
                            selection_range: t[key].range,
                            children: body_sections(t, c),
                        },
                    ),
                    None => prev,
                }
            } else if kind == "section"@ {
                prev.push(
                    SymbolView {
                        kind: SymbolKind::Section,
                        name: first_line_of(or_empty(field_text(t, c, "header"@))),
                        detail: Seq::empty(),
                        range: t[c].range,
                        // Only the header: a range spanning the body would make
                        // every nested line resolve to the section.
                        selection_range: or_range(field_range(t, c, "header"@), t[c].range),
                        children: body_sections(t, c),
                    },
                )
            } else {
                prev
            }
        } else {
            prev
        }
    } else {
        Seq::empty()
    }
}

fn text_copy(s: &String) -> (out: String)
    ensures
        out@ == s@,
{
    s.clone()
}

/// The entries and sections of node `i`'s body.
pub fn sections_of(tree: &SyntaxTree, i: usize) -> (out: Vec<Symbol>)
    requires
        tree.wf(),
        i < tree.nodes@.len(),
    ensures
        symbol_views(out@) == body_sections(tree.nodes@, i as int),
    decreases tree.nodes@.len() - i,
{
    let ghost t = tree.nodes@;
    let b = match field_node(tree, i, "body") {
        Some(b) => b,
        None => return Vec::new(),
    };
    let n = tree.nodes[b].children.len();
    let mut out: Vec<Symbol> = Vec::new();
    let mut k: usize = 0;
    while k < n
        invariant
            tree.wf(),
            t == tree.nodes@,
            i < b < t.len(),
            n == t[b as int].children@.len(),
            k <= n,
            symbol_views(out@) == sections_upto(t, b as int, k as int),
        decreases n - k,
    {
        let c = tree.nodes[b].children[k];
        proof {
            assert(b < t[b as int].children@[k as int] < t.len());
        }
        let ghost prev = out@;
        let kind = tree.nodes[c].kind.as_str();
        if is_word(kind, "entry_section") || is_word(kind, "entry") {
            match field_node(tree, c, "key") {
                Some(key) => {
                    let children = sections_of(tree, c);
                    let symbol = Symbol {
                        kind: SymbolKind::Entry,
                        name: text_copy(&tree.nodes[key].text),
                        detail: String::new(),
                        range: tree.nodes[c].range,
                        selection_range: tree.nodes[key].range,
                        children,
                    };
                    out.push(symbol);
                    proof {
                        lemma_views_push(prev, symbol);
                    }
                },
                None => {},
            }
        } else if is_word(kind, "section") {
            let header = match field_text_of(tree, c, "header") {
                Some(h) => h,
                None => String::new(),
            };
            let selection = match field_range_of(tree, c, "header") {
                Some(r) => r,
                None => tree.nodes[c].range,
            };
            let children = sections_of(tree, c);
            let symbol = Symbol {
                kind: SymbolKind::Section,
                name: first_line(header.as_str()),
                detail: String::new(),
                range: tree.nodes[c].range,
                selection_range: selection,
                children,
            };
            out.push(symbol);
            proof {
                lemma_views_push(prev, symbol);
            }
        }
        k += 1;
    }
    out
}


// ------------------------------------------------------------ structure contents

/// The parameters among the first `k` children of the parameter list `list`,
/// as trigger-local variables scoped to the function's body.
pub open spec fn parameters_upto(t: Seq<TreeNode>, list: int, k: int) -> Seq<SymbolView>
    decreases k,
{
    if 0 <= list < t.len() && 0 < k <= t[list].children@.len() {
        let prev = parameters_upto(t, list, k - 1);
        let c = t[list].children@[k - 1] as int;
        if t[c].kind@ == "parameter"@ {
            match field(t, c, "name"@) {
                Some(name) => prev.push(
                    leaf(
                        SymbolKind::LocalVariable,
                        t[name].text@,
                        or_empty(field_text(t, c, "type"@)),
                        t[c].range,
                        t[name].range,
                    ),
                ),
                None => prev,
            }
        } else {
            prev
        }
    } else {
        Seq::empty()
    }
}

/// A function's parameters.
pub open spec fn parameters(t: Seq<TreeNode>, i: int) -> Seq<SymbolView> {
    match field(t, i, "parameters"@) {
        Some(list) => parameters_upto(t, list, t[list].children@.len() as int),
        None => Seq::empty(),
    }
}

/// The options among the first `k` children of the body `b`.
pub open spec fn options_upto(t: Seq<TreeNode>, b: int, k: int) -> Seq<SymbolView>
    decreases k,
{
    if 0 <= b < t.len() && 0 < k <= t[b].children@.len() {
        let prev = options_upto(t, b, k - 1);
        let c = t[b].children@[k - 1] as int;
        if t[c].kind@ == "entry"@ || t[c].kind@ == "entry_section"@ {
            match field(t, c, "key"@) {
                Some(key) => prev.push(
                    leaf(
                        SymbolKind::Option,
                        t[key].text@,
                        match field(t, c, "value"@) {
                            Some(v) => t[v].text@,
                            None => Seq::empty(),
                        },
                        t[c].range,
                        t[key].range,
                    ),
                ),
                None => prev,
            }
        } else {
            prev
        }
    } else {
        Seq::empty()
    }
}

pub open spec fn option_entries(t: Seq<TreeNode>, i: int) -> Seq<SymbolView> {
    match field(t, i, "body"@) {
        Some(b) => options_upto(t, b, t[b].children@.len() as int),
        None => Seq::empty(),
    }
}

/// The default variable or alias an assignment declares.
pub open spec fn assignment_symbol(t: Seq<TreeNode>, c: int, target: int) -> SymbolView {
    let raw = t[target].text@;
    let is_variable = t[target].kind@ == "variable"@;
    leaf(
        if is_variable {
            kind_of_variable(raw)
        } else {
            SymbolKind::Alias
        },
        if is_variable {
            variable_name(raw)
        } else {
            trim(raw)
        },
        match field(t, c, "value"@) {
            Some(v) => trim(t[v].text@),
            None => Seq::empty(),
        },
        t[c].range,
        // Just the name inside the braces, so a rename leaves `{`, the sigil
        // and `}` alone.
        match field(t, target, "name"@) {
            Some(n) => t[n].range,
            None => t[target].range,
        },
    )
}

/// The assignments among the first `k` children of the body `b`.
pub open spec fn assignments_upto(t: Seq<TreeNode>, b: int, k: int) -> Seq<SymbolView>
    decreases k,
{
    if 0 <= b < t.len() && 0 < k <= t[b].children@.len() {
        let prev = assignments_upto(t, b, k - 1);
        let c = t[b].children@[k - 1] as int;
        if t[c].kind@ == "assignment"@ {
            match field(t, c, "target"@) {
                Some(target) => prev.push(assignment_symbol(t, c, target)),
                None => prev,
            }
        } else {
            prev
        }
    } else {
        Seq::empty()
    }
}

pub open spec fn assignment_entries(t: Seq<TreeNode>, i: int) -> Seq<SymbolView> {
    match field(t, i, "body"@) {
        Some(b) => assignments_upto(t, b, t[b].children@.len() as int),
        None => Seq::empty(),
    }
}

fn leaf_symbol(kind: SymbolKind, name: String, detail: String, range: Range, selection_range: Range) -> (s: Symbol)
    ensures
        symbol_view(s) == leaf(kind, name@, detail@, range, selection_range),
{
    let s = Symbol { kind, name, detail, range, selection_range, children: Vec::new() };
    proof {
        assert(symbol_views(s.children@) =~= Seq::<SymbolView>::empty());
    }
    s
}

/// A function's parameters.
pub fn parameters_of(tree: &SyntaxTree, i: usize) -> (out: Vec<Symbol>)
    requires
        tree.wf(),
        i < tree.nodes@.len(),
    ensures
        symbol_views(out@) == parameters(tree.nodes@, i as int),
{
    let ghost t = tree.nodes@;
    let list = match field_node(tree, i, "parameters") {
        Some(l) => l,
        None => return Vec::new(),
    };
    let n = tree.nodes[list].children.len();
    let mut out: Vec<Symbol> = Vec::new();
    let mut k: usize = 0;
    while k < n
        invariant
            tree.wf(),
            t == tree.nodes@,
            list < t.len(),
            n == t[list as int].children@.len(),
            k <= n,
            symbol_views(out@) == parameters_upto(t, list as int, k as int),
        decreases n - k,
    {
        let c = tree.nodes[list].children[k];
        proof {
            assert(list < t[list as int].children@[k as int] < t.len());
        }
        if is_word(tree.nodes[c].kind.as_str(), "parameter") {
            match field_node(tree, c, "name") {
                Some(name) => {
                    let detail = match field_text_of(tree, c, "type") {
                        Some(d) => d,
                        None => String::new(),
                    };
                    let symbol = leaf_symbol(
                        SymbolKind::LocalVariable,
                        text_copy(&tree.nodes[name].text),
                        detail,
                        tree.nodes[c].range,
                        tree.nodes[name].range,
                    );
                    let ghost prev = out@;
                    out.push(symbol);
                    proof {
                        lemma_views_push(prev, symbol);
                    }
                },
                None => {},
            }
        }
        k += 1;
    }
    out
}

/// The options an `options:` block declares, each with its value.
pub fn option_entries_of(tree: &SyntaxTree, i: usize) -> (out: Vec<Symbol>)
    requires
        tree.wf(),
        i < tree.nodes@.len(),
    ensures
        symbol_views(out@) == option_entries(tree.nodes@, i as int),
{
    let ghost t = tree.nodes@;
    let b = match field_node(tree, i, "body") {
        Some(b) => b,
        None => return Vec::new(),
    };
    let n = tree.nodes[b].children.len();
    let mut out: Vec<Symbol> = Vec::new();
    let mut k: usize = 0;
    while k < n
        invariant
            tree.wf(),
            t == tree.nodes@,
            b < t.len(),
            n == t[b as int].children@.len(),
            k <= n,
            symbol_views(out@) == options_upto(t, b as int, k as int),
        decreases n - k,
    {
        let c = tree.nodes[b].children[k];
        proof {
            assert(b < t[b as int].children@[k as int] < t.len());
        }
        let kind = tree.nodes[c].kind.as_str();
        if is_word(kind, "entry") || is_word(kind, "entry_section") {
            match field_node(tree, c, "key") {
                Some(key) => {
                    let detail = match field_node(tree, c, "value") {
                        Some(v) => text_copy(&tree.nodes[v].text),
                        None => String::new(),
                    };
                    let symbol = leaf_symbol(
                        SymbolKind::Option,
                        text_copy(&tree.nodes[key].text),
                        detail,
                        tree.nodes[c].range,
                        tree.nodes[key].range,
                    );
                    let ghost prev = out@;
                    out.push(symbol);
                    proof {
                        lemma_views_push(prev, symbol);
                    }
                },
                None => {},
            }
        }
        k += 1;
    }
    out
}

fn trimmed(s: &str) -> (out: String)
    ensures
        out@ == trim(s@),
{
    string_of(&trim_chars(&chars_of(s)))
}

/// The default variables or aliases a `variables:` or `aliases:` block
/// declares.
pub fn assignment_entries_of(tree: &SyntaxTree, i: usize) -> (out: Vec<Symbol>)
    requires
        tree.wf(),
        i < tree.nodes@.len(),
    ensures
        symbol_views(out@) == assignment_entries(tree.nodes@, i as int),
{
    let ghost t = tree.nodes@;
    let b = match field_node(tree, i, "body") {
        Some(b) => b,
        None => return Vec::new(),
    };
    let n = tree.nodes[b].children.len();
    let mut out: Vec<Symbol> = Vec::new();
    let mut k: usize = 0;
    while k < n
        invariant
            tree.wf(),
            t == tree.nodes@,
            b < t.len(),
            n == t[b as int].children@.len(),
            k <= n,
            symbol_views(out@) == assignments_upto(t, b as int, k as int),
        decreases n - k,
    {
        let c = tree.nodes[b].children[k];
        proof {
            assert(b < t[b as int].children@[k as int] < t.len());
        }
        if is_word(tree.nodes[c].kind.as_str(), "assignment") {
            match field_node(tree, c, "target") {
                Some(target) => {
                    let raw = tree.nodes[target].text.as_str();
                    let is_variable = is_word(tree.nodes[target].kind.as_str(), "variable");
                    let (kind, name) = if is_variable {
                        (variable_kind(raw), normalise_variable(raw))
                    } else {
                        (SymbolKind::Alias, trimmed(raw))
                    };
                    let detail = match field_node(tree, c, "value") {
                        Some(v) => trimmed(tree.nodes[v].text.as_str()),
                        None => String::new(),
                    };
                    let selection = match field_node(tree, target, "name") {
                        Some(nm) => tree.nodes[nm].range,
                        None => tree.nodes[target].range,
                    };
                    let symbol = leaf_symbol(kind, name, detail, tree.nodes[c].range, selection);
                    let ghost prev = out@;
                    out.push(symbol);
                    proof {
                        lemma_views_push(prev, symbol);
                    }
                },
                None => {},
            }
        }
        k += 1;
    }
    out
}


// ------------------------------------------------------------ top-level structures

/// `(parameters) :: return type`, as the declaration writes them.
pub open spec fn signature(t: Seq<TreeNode>, i: int) -> Seq<char> {
    let params = match field(t, i, "parameters"@) {
        Some(p) => t[p].text@,
        None => Seq::empty(),
    };
    let return_part = match field(t, i, "return_type"@) {
        Some(r) => " :: "@ + trim(t[r].text@),
        None => Seq::empty(),
    };
    "("@ + params + ")"@ + return_part
}

/// Whether node `c` is the keyword `local`.
pub open spec fn is_local_keyword(t: Seq<TreeNode>, c: int) -> bool {
    t[c].kind@ == "keyword"@ && t[c].text@ == "local"@
}

/// Whether a child of node `i` is the keyword `local`.
pub open spec fn has_local_keyword(t: Seq<TreeNode>, i: int) -> bool {
    exists|k: int| 0 <= k < t[i].children@.len() && is_local_keyword(t, #[trigger] t[i].children@[k] as int)
}

/// The declaration a top-level node makes, if any.
pub open spec fn structure_symbol(t: Seq<TreeNode>, i: int) -> Option<SymbolView> {
    let kind = t[i].kind@;
    let range = t[i].range;
    if kind == "event"@ {
        let name = match field_text(t, i, "name"@) {
            Some(n) => n,
            None => "event"@,
        };
        Some(
            SymbolView {
                kind: SymbolKind::Event,
                name: first_line_of(name),
                detail: Seq::empty(),
                range,
                selection_range: match field(t, i, "name"@) {
                    Some(n) => t[n].range,
                    None => range,
                },
                children: body_sections(t, i),
            },
        )
    } else if kind == "command"@ {
        match field(t, i, "name"@) {
            // `/home` and `home` name the same command.
            Some(n) => Some(
                SymbolView {
                    kind: SymbolKind::Command,
                    name: drop_leading(t[n].text@, '/', '/'),
                    detail: or_empty(field_text(t, i, "argument"@)),
                    range,
                    selection_range: t[n].range,
                    children: body_sections(t, i),
                },
            ),
            None => None,
        }
    } else if kind == "function"@ {
        match field(t, i, "name"@) {
            Some(n) => Some(
                SymbolView {
                    kind: if has_local_keyword(t, i) {
                        SymbolKind::LocalFunction
                    } else {
                        SymbolKind::Function
                    },
                    name: t[n].text@,
                    detail: signature(t, i),
                    range,
                    selection_range: t[n].range,
                    children: parameters(t, i),
                },
            ),
            None => None,
        }
    } else if kind == "options"@ || kind == "variables"@ || kind == "aliases"@ {
        Some(
            SymbolView {
                kind: SymbolKind::Structure,
                name: kind,
                detail: Seq::empty(),
                range,
                selection_range: if t[i].children@.len() > 0 {
                    t[t[i].children@[0] as int].range
                } else {
                    range
                },
                children: if kind == "options"@ {
                    option_entries(t, i)
                } else {
                    assignment_entries(t, i)
                },
            },
        )
    } else if kind == "using"@ || kind == "auto_reload"@ || kind == "import"@ {
        Some(leaf(SymbolKind::Structure, trim(t[i].text@), Seq::empty(), range, range))
    } else {
        None
    }
}

/// The declarations of the first `k` top-level nodes.
pub open spec fn structures_upto(t: Seq<TreeNode>, k: int) -> Seq<SymbolView>
    decreases k,
{
    if 0 < k <= t[0].children@.len() {
        let prev = structures_upto(t, k - 1);
        match structure_symbol(t, t[0].children@[k - 1] as int) {
            Some(s) => prev.push(s),
            None => prev,
        }
    } else {
        Seq::empty()
    }
}

fn signature_of(tree: &SyntaxTree, i: usize) -> (out: String)
    requires
        tree.wf(),
        i < tree.nodes@.len(),
    ensures
        out@ == signature(tree.nodes@, i as int),
{
    let mut chars = chars_of("(");
    match field_node(tree, i, "parameters") {
        Some(p) => append_str(&mut chars, tree.nodes[p].text.as_str()),
        None => {},
    }
    append_str(&mut chars, ")");
    match field_node(tree, i, "return_type") {
        Some(r) => {
            append_str(&mut chars, " :: ");
            let ty = trim_chars(&chars_of(tree.nodes[r].text.as_str()));
            append_chars(&mut chars, &ty);
        },
        None => {},
    }
    proof {
        let t = tree.nodes@;
        let params = match field(t, i as int, "parameters"@) {
            Some(p) => t[p].text@,
            None => Seq::empty(),
        };
        let return_part = match field(t, i as int, "return_type"@) {
            Some(r) => " :: "@ + trim(t[r].text@),
            None => Seq::empty(),
        };
        assert(chars@ =~= "("@ + params + ")"@ + return_part);
    }
    string_of(&chars)
}

fn has_local(tree: &SyntaxTree, i: usize) -> (b: bool)
    requires
        tree.wf(),
        i < tree.nodes@.len(),
    ensures
        b == has_local_keyword(tree.nodes@, i as int),
{
    let ghost t = tree.nodes@;
    let n = tree.nodes[i].children.len();
    let mut k: usize = 0;
    while k < n
        invariant
            tree.wf(),
            t == tree.nodes@,
            i < t.len(),
            n == t[i as int].children@.len(),
            k <= n,
            forall|m: int|
                0 <= m < k ==> !is_local_keyword(t, #[trigger] t[i as int].children@[m] as int),
        decreases n - k,
    {
        let c = tree.nodes[i].children[k];
        proof {
            assert(i < t[i as int].children@[k as int] < t.len());
        }
        if is_word(tree.nodes[c].kind.as_str(), "keyword") && is_word(tree.nodes[c].text.as_str(), "local") {
            return true;
        }
        k += 1;
    }
    false
}

fn str_of(s: &str) -> (out: String)
    ensures
        out@ == s@,
{
    string_of(&chars_of(s))
}

/// The declaration a top-level node makes, if any.
pub fn structure_of(tree: &SyntaxTree, i: usize) -> (r: Option<Symbol>)
    requires
        tree.wf(),
        i < tree.nodes@.len(),
    ensures
        match r {
            Some(s) => structure_symbol(tree.nodes@, i as int) == Some(symbol_view(s)),
            None => structure_symbol(tree.nodes@, i as int) is None,
        },
{
    let node = &tree.nodes[i];
    let kind = node.kind.as_str();
    let range = node.range;
    if is_word(kind, "event") {
        let name = match field_text_of(tree, i, "name") {
            Some(n) => n,
            None => str_of("event"),
        };
        let selection = match field_node(tree, i, "name") {
            Some(n) => tree.nodes[n].range,
            None => range,
        };
        let children = sections_of(tree, i);
        return Some(
            Symbol {
                kind: SymbolKind::Event,
                name: first_line(name.as_str()),
                detail: String::new(),
                range,
                selection_range: selection,
                children,
            },
        );
    }
    if is_word(kind, "command") {
        let n = match field_node(tree, i, "name") {
            Some(n) => n,
            None => return None,
        };
        let name = string_of(&crate::strings::strip_leading(&chars_of(tree.nodes[n].text.as_str()), '/', '/'));
        let detail = match field_text_of(tree, i, "argument") {
            Some(d) => d,
            None => String::new(),
        };
        let children = sections_of(tree, i);
        return Some(
            Symbol {
                kind: SymbolKind::Command,
                name,
                detail,
                range,
                selection_range: tree.nodes[n].range,
                children,
            },
        );
    }
    if is_word(kind, "function") {
        let n = match field_node(tree, i, "name") {
            Some(n) => n,
            None => return None,
        };
        let local = has_local(tree, i);
        let children = parameters_of(tree, i);
        return Some(
            Symbol {
                kind: if local {
                    SymbolKind::LocalFunction
                } else {
                    SymbolKind::Function
                },
                name: text_copy(&tree.nodes[n].text),
                detail: signature_of(tree, i),
                range,
                selection_range: tree.nodes[n].range,
                children,
            },
        );
    }
    let is_options = is_word(kind, "options");
    if is_options || is_word(kind, "variables") || is_word(kind, "aliases") {
        let selection = if node.children.len() > 0 {
            let c = node.children[0];
            proof {
                assert(i < tree.nodes@[i as int].children@[0] < tree.nodes@.len());
            }
            tree.nodes[c].range
        } else {
            range
        };
        let children = if is_options {
            option_entries_of(tree, i)
        } else {
            assignment_entries_of(tree, i)
        };
        return Some(
            Symbol {
                kind: SymbolKind::Structure,
                name: text_copy(&node.kind),
                detail: String::new(),
                range,
                selection_range: selection,
                children,
            },
        );
    }
    if is_word(kind, "using") || is_word(kind, "auto_reload") || is_word(kind, "import") {
        return Some(leaf_symbol(SymbolKind::Structure, trimmed(node.text.as_str()), String::new(), range, range));
    }
    None
}


// ------------------------------------------------------------ references

/// A reference as plain values.
pub struct ReferenceView {
    pub kind: SymbolKind,
    pub name: Seq<char>,
    pub range: Range,
    pub name_range: Range,
    pub scope: Option<Range>,
}

pub open spec fn reference_view(r: Reference) -> ReferenceView {
    ReferenceView { kind: r.kind, name: r.name@, range: r.range, name_range: r.name_range, scope: r.scope }
}

pub open spec fn reference_views(rs: Seq<Reference>) -> Seq<ReferenceView> {
    rs.map_values(|r: Reference| reference_view(r))
}

/// Whether a child of node `n` is a `%...%` interpolation, which makes a
/// variable's name dynamic.
pub open spec fn has_interpolation(t: Seq<TreeNode>, n: int) -> bool {
    exists|k: int| 0 <= k < t[n].children@.len() && t[#[trigger] t[n].children@[k] as int].kind@ == "interpolation"@
}

/// The trigger scope a variable of `kind` carries inside the trigger `scope`:
/// only a `{_local}` is confined to its trigger.
pub open spec fn variable_scope(kind: SymbolKind, scope: Option<Range>) -> Option<Range> {
    if kind is LocalVariable {
        scope
    } else {
        None
    }
}

/// The trigger scope of the subtree at child `c` of node `i`: a top-level
/// structure is its own trigger, and everything below inherits its scope.
pub open spec fn child_scope(t: Seq<TreeNode>, i: int, c: int, scope: Option<Range>) -> Option<Range> {
    if i == 0 {
        Some(t[c].range)
    } else {
        scope
    }
}

/// The reference node `i` itself makes, if any: a function call, an option
/// reference, or a variable whose name is static.
pub open spec fn own_references(t: Seq<TreeNode>, i: int, scope: Option<Range>) -> Seq<ReferenceView> {
    let kind = t[i].kind@;
    if kind == "function_call"@ {
        match field(t, i, "name"@) {
            Some(n) => seq![ReferenceView { kind: SymbolKind::Function, name: t[n].text@, range: t[n].range, name_range: t[n].range, scope: None }],
            None => Seq::empty(),
        }
    } else if kind == "option_ref"@ {
        match field(t, i, "name"@) {
            Some(n) => seq![ReferenceView { kind: SymbolKind::Option, name: trim(t[n].text@), range: t[n].range, name_range: t[n].range, scope: None }],
            None => Seq::empty(),
        }
    } else if kind == "variable"@ {
        match field(t, i, "name"@) {
            Some(n) => if has_interpolation(t, n) {
                Seq::empty()
            } else {
                seq![
                    ReferenceView {
                        kind: kind_of_variable(t[i].text@),
                        name: variable_name(t[i].text@),
                        range: t[i].range,
                        name_range: t[n].range,
                        scope: variable_scope(kind_of_variable(t[i].text@), scope),
                    },
                ]
            },
            None => Seq::empty(),
        }
    } else {
        Seq::empty()
    }
}

/// The references of the subtree at `i`, in the order a stack walk finds
/// them: the node's own, then its children's subtrees, last child first.
pub open spec fn subtree_references(t: Seq<TreeNode>, i: int, scope: Option<Range>) -> Seq<ReferenceView>
    decreases t.len() - i, 1int, 0int,
{
    if 0 <= i < t.len() {
        own_references(t, i, scope) + children_references(t, i, t[i].children@.len() as int, scope)
    } else {
        Seq::empty()
    }
}

/// The references of the subtrees of the first `k` children of `i`, the
/// `k`-th first.
pub open spec fn children_references(t: Seq<TreeNode>, i: int, k: int, scope: Option<Range>) -> Seq<ReferenceView>
    decreases t.len() - i, 0int, k,
{
    if 0 <= i < t.len() && 0 < k <= t[i].children@.len() {
        let c = t[i].children@[k - 1] as int;
        let here = if i < c < t.len() {
            subtree_references(t, c, child_scope(t, i, c, scope))
        } else {
            Seq::empty()
        };
        here + children_references(t, i, k - 1, scope)
    } else {
        Seq::empty()
    }
}

fn interpolated(tree: &SyntaxTree, n: usize) -> (b: bool)
    requires
        tree.wf(),
        n < tree.nodes@.len(),
    ensures
        b == has_interpolation(tree.nodes@, n as int),
{
    let ghost t = tree.nodes@;
    let count = tree.nodes[n].children.len();
    let mut k: usize = 0;
    while k < count
        invariant
            tree.wf(),
            t == tree.nodes@,
            n < t.len(),
            count == t[n as int].children@.len(),
            k <= count,
            forall|m: int| 0 <= m < k ==> t[#[trigger] t[n as int].children@[m] as int].kind@ != "interpolation"@,
        decreases count - k,
    {
        let c = tree.nodes[n].children[k];
        proof {
            assert(n < t[n as int].children@[k as int] < t.len());
        }
        if is_word(tree.nodes[c].kind.as_str(), "interpolation") {
            return true;
        }
        k += 1;
    }
    false
}

fn push_reference(out: &mut Vec<Reference>, r: Reference)
    ensures
        reference_views(final(out)@) == reference_views(old(out)@).push(reference_view(r)),
{
    out.push(r);
    assert(reference_views(final(out)@) =~= reference_views(old(out)@).push(reference_view(r)));
}

/// Adds the reference node `i` itself makes, if any.
fn own_references_of(tree: &SyntaxTree, i: usize, scope: Option<Range>, out: &mut Vec<Reference>)
    requires
        tree.wf(),
        i < tree.nodes@.len(),
    ensures
        reference_views(final(out)@) == reference_views(old(out)@) + own_references(tree.nodes@, i as int, scope),
{
    let kind = tree.nodes[i].kind.as_str();
    let ghost before = reference_views(out@);
    if is_word(kind, "function_call") {
        match field_node(tree, i, "name") {
            Some(n) => {
                let range = tree.nodes[n].range;
                push_reference(
                    out,
                    Reference { kind: SymbolKind::Function, name: text_copy(&tree.nodes[n].text), range, name_range: range, scope: None },
                );
            },
            None => {},
        }
    } else if is_word(kind, "option_ref") {
        match field_node(tree, i, "name") {
            Some(n) => {
                let range = tree.nodes[n].range;
                push_reference(
                    out,
                    Reference { kind: SymbolKind::Option, name: trimmed(tree.nodes[n].text.as_str()), range, name_range: range, scope: None },
                );
            },
            None => {},
        }
    } else if is_word(kind, "variable") {
        match field_node(tree, i, "name") {
            Some(n) => {
                if !interpolated(tree, n) {
                    let raw = tree.nodes[i].text.as_str();
                    let kind = variable_kind(raw);
                    let own_scope = if kind == SymbolKind::LocalVariable {
                        scope
                    } else {
                        None
                    };
                    push_reference(
                        out,
                        Reference {
                            kind,
                            name: normalise_variable(raw),
                            range: tree.nodes[i].range,
                            name_range: tree.nodes[n].range,
                            scope: own_scope,
                        },
                    );
                }
            },
            None => {},
        }
    }
    proof {
        assert(reference_views(out@) =~= before + own_references(tree.nodes@, i as int, scope));
    }
}

/// Adds the references of the subtree at `i`, in stack-walk order; `scope`
/// is the trigger the subtree lies in.
fn collect_references(tree: &SyntaxTree, i: usize, scope: Option<Range>, out: &mut Vec<Reference>)
    requires
        tree.wf(),
        i < tree.nodes@.len(),
    ensures
        reference_views(final(out)@) == reference_views(old(out)@) + subtree_references(tree.nodes@, i as int, scope),
    decreases tree.nodes@.len() - i,
{
    let ghost t = tree.nodes@;
    let ghost start = reference_views(out@);
    own_references_of(tree, i, scope, out);
    let n = tree.nodes[i].children.len();
    let mut k: usize = n;
    while k > 0
        invariant
            tree.wf(),
            t == tree.nodes@,
            i < t.len(),
            n == t[i as int].children@.len(),
            k <= n,
            start + own_references(t, i as int, scope) + children_references(t, i as int, n as int, scope)
                == reference_views(out@) + children_references(t, i as int, k as int, scope),
        decreases k,
    {
        let c = tree.nodes[i].children[k - 1];
        proof {
            assert(i < t[i as int].children@[k - 1] < t.len());
        }
        let inner = if i == 0 {
            Some(tree.nodes[c].range)
        } else {
            scope
        };
        let ghost mid = reference_views(out@);
        collect_references(tree, c, inner, out);
        proof {
            assert(inner == child_scope(t, i as int, c as int, scope));
            let here = subtree_references(t, c as int, inner);
            assert(children_references(t, i as int, k as int, scope) == here + children_references(t, i as int, k - 1, scope));
            assert(mid + (here + children_references(t, i as int, k - 1, scope)) =~= (mid + here) + children_references(
                t,
                i as int,
                k - 1,
                scope,
            ));
        }
        k -= 1;
    }
    proof {
        assert(reference_views(out@) + children_references(t, i as int, 0, scope) =~= reference_views(out@));
        assert(start + own_references(t, i as int, scope) + children_references(t, i as int, n as int, scope) =~= start + (
        own_references(t, i as int, scope) + children_references(t, i as int, n as int, scope)));
    }
}

// ------------------------------------------------------------ the whole file

/// Walks the tree and collects declarations and references: the declaration
/// of each top-level structure, and every function call, option reference and
/// statically named variable anywhere.
pub fn extract(tree: &SyntaxTree) -> (out: FileSymbols)
    requires
        tree.wf(),
    ensures
        symbol_views(out.symbols@) == structures_upto(tree.nodes@, tree.nodes@[0].children@.len() as int),
        reference_views(out.references@) == subtree_references(tree.nodes@, 0, None),
{
    let ghost t = tree.nodes@;
    let n = tree.nodes[0].children.len();
    let mut symbols: Vec<Symbol> = Vec::new();
    let mut k: usize = 0;
    while k < n
        invariant
            tree.wf(),
            t == tree.nodes@,
            n == t[0].children@.len(),
            k <= n,
            symbol_views(symbols@) == structures_upto(t, k as int),
        decreases n - k,
    {
        let c = tree.nodes[0].children[k];
        proof {
            assert(0 < t[0].children@[k as int] < t.len());
        }
        match structure_of(tree, c) {
            Some(symbol) => {
                let ghost prev = symbols@;
                symbols.push(symbol);
                proof {
                    lemma_views_push(prev, symbol);
                }
            },
            None => {},
        }
        k += 1;
    }
    let mut references: Vec<Reference> = Vec::new();
    collect_references(tree, 0, None, &mut references);
    proof {
        assert(reference_views(Seq::<Reference>::empty()) + subtree_references(t, 0, None) =~= subtree_references(t, 0, None));
    }
    FileSymbols { symbols, references }
}

} // verus!
