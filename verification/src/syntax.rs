//! A parse tree of a Skript file as plain values: what the outline, the
//! references, the formatter and folding read of it.
//!
//! Nodes live in one vector, root first; a node's children and named fields
//! are indices of later nodes, so every walk of the tree moves forward.
use vstd::prelude::*;

use crate::source::{append_chars, append_str};
use crate::strings::{chars_eq, chars_of, string_of};
use crate::text::Range;

verus! {

/// A named child of a node, such as a function's `name` or a section's `body`.
#[derive(Debug)]
pub struct Field {
    pub name: String,
    pub node: usize,
}

/// One node of the tree.
#[derive(Debug)]
pub struct TreeNode {
    /// The grammar's name for the node (`function`, `variable`, ...).
    pub kind: String,
    /// Whether the grammar names the node, rather than it being punctuation.
    pub named: bool,
    /// Rows and byte columns of the node's start and end.
    pub range: Range,
    /// The source text the node covers.
    pub text: String,
    /// The node's children, in source order.
    pub children: Vec<usize>,
    /// The children that carry a field name, in source order.
    pub fields: Vec<Field>,
}

/// A parse tree: `nodes[0]` is the root.
#[derive(Debug)]
pub struct SyntaxTree {
    pub nodes: Vec<TreeNode>,
    /// Whether the parse failed anywhere.
    pub has_error: bool,
}

/// There is a root, and every child and field points at a later node.
pub open spec fn tree_wf(t: Seq<TreeNode>) -> bool {
    &&& t.len() > 0
    &&& forall|i: int, k: int|
        0 <= i < t.len() && 0 <= k < t[i].children@.len() ==> i < #[trigger] t[i].children@[k] < t.len()
    &&& forall|i: int, k: int|
        0 <= i < t.len() && 0 <= k < t[i].fields@.len() ==> i < #[trigger] t[i].fields@[k].node < t.len()
}

impl SyntaxTree {
    pub open spec fn wf(&self) -> bool {
        tree_wf(self.nodes@)
    }
}

// ------------------------------------------------------------ fields

/// The nodes of the fields called `name`, in order.
pub open spec fn fields_named(fs: Seq<Field>, name: Seq<char>) -> Seq<int>
    decreases fs.len(),
{
    if fs.len() == 0 {
        Seq::empty()
    } else if fs.last().name@ == name {
        fields_named(fs.drop_last(), name).push(fs.last().node as int)
    } else {
        fields_named(fs.drop_last(), name)
    }
}

/// The first child of node `i` in the field `name`.
pub open spec fn field(t: Seq<TreeNode>, i: int, name: Seq<char>) -> Option<int> {
    let ns = fields_named(t[i].fields@, name);
    if ns.len() > 0 {
        Some(ns[0])
    } else {
        None
    }
}

/// `parts` joined with single spaces.
pub open spec fn spaced(parts: Seq<Seq<char>>) -> Seq<char>
    decreases parts.len(),
{
    if parts.len() == 0 {
        Seq::empty()
    } else if parts.len() == 1 {
        parts[0]
    } else {
        spaced(parts.drop_last()) + " "@ + parts.last()
    }
}

pub open spec fn texts_of(t: Seq<TreeNode>, ns: Seq<int>) -> Seq<Seq<char>> {
    ns.map_values(|j: int| t[j].text@)
}

/// The text of every child in the field `name`, joined with spaces: a
/// header the grammar splits into several siblings reads as one.
pub open spec fn field_text(t: Seq<TreeNode>, i: int, name: Seq<char>) -> Option<Seq<char>> {
    let ns = fields_named(t[i].fields@, name);
    if ns.len() > 0 {
        Some(spaced(texts_of(t, ns)))
    } else {
        None
    }
}

/// The span from the first child in the field `name` to the last.
pub open spec fn field_range(t: Seq<TreeNode>, i: int, name: Seq<char>) -> Option<Range> {
    let ns = fields_named(t[i].fields@, name);
    if ns.len() > 0 {
        Some(Range { start: t[ns[0]].range.start, end: t[ns.last()].range.end })
    } else {
        None
    }
}

/// Whether `text` is exactly the word `word`.
pub fn is_word(text: &str, word: &str) -> (b: bool)
    ensures
        b == (text@ == word@),
{
    chars_eq(&chars_of(text), &chars_of(word))
}

/// The nodes of node `i`'s fields called `name`, in order.
pub fn field_nodes(tree: &SyntaxTree, i: usize, name: &str) -> (out: Vec<usize>)
    requires
        tree.wf(),
        i < tree.nodes@.len(),
    ensures
        out@.map_values(|j: usize| j as int) == fields_named(tree.nodes@[i as int].fields@, name@),
        forall|k: int| 0 <= k < out@.len() ==> i < #[trigger] out@[k] < tree.nodes@.len(),
{
    let fs = &tree.nodes[i].fields;
    let mut out: Vec<usize> = Vec::new();
    let mut k: usize = 0;
    proof {
        assert(fs@.take(0) =~= Seq::<Field>::empty());
    }
    while k < fs.len()
        invariant
            k <= fs@.len(),
            *fs == tree.nodes@[i as int].fields,
            tree.wf(),
            i < tree.nodes@.len(),
            out@.map_values(|j: usize| j as int) == fields_named(fs@.take(k as int), name@),
            forall|m: int| 0 <= m < out@.len() ==> i < #[trigger] out@[m] < tree.nodes@.len(),
        decreases fs@.len() - k,
    {
        proof {
            assert(fs@.take(k + 1).drop_last() =~= fs@.take(k as int));
            assert(fs@.take(k + 1).last() == fs@[k as int]);
            assert(i < fs@[k as int].node < tree.nodes@.len());
        }
        if is_word(fs[k].name.as_str(), name) {
            out.push(fs[k].node);
            proof {
                assert(out@.map_values(|j: usize| j as int) =~= fields_named(fs@.take(k as int), name@).push(
                    fs@[k as int].node as int,
                ));
            }
        }
        k += 1;
    }
    proof {
        assert(fs@.take(fs@.len() as int) =~= fs@);
    }
    out
}

/// The first child of node `i` in the field `name`.
pub fn field_node(tree: &SyntaxTree, i: usize, name: &str) -> (r: Option<usize>)
    requires
        tree.wf(),
        i < tree.nodes@.len(),
    ensures
        match r {
            Some(j) => field(tree.nodes@, i as int, name@) == Some(j as int) && i < j < tree.nodes@.len(),
            None => field(tree.nodes@, i as int, name@) is None,
        },
{
    let ns = field_nodes(tree, i, name);
    if ns.len() > 0 {
        proof {
            assert(ns@.map_values(|j: usize| j as int)[0] == ns@[0] as int);
        }
        Some(ns[0])
    } else {
        None
    }
}

/// The text of the children in the field `name`, joined with spaces.
pub fn field_text_of(tree: &SyntaxTree, i: usize, name: &str) -> (r: Option<String>)
    requires
        tree.wf(),
        i < tree.nodes@.len(),
    ensures
        match r {
            Some(s) => field_text(tree.nodes@, i as int, name@) == Some(s@),
            None => field_text(tree.nodes@, i as int, name@) is None,
        },
{
    let ns = field_nodes(tree, i, name);
    let ghost idx = ns@.map_values(|j: usize| j as int);
    if ns.len() == 0 {
        return None;
    }
    let mut out: Vec<char> = Vec::new();
    let mut k: usize = 0;
    while k < ns.len()
        invariant
            k <= ns@.len(),
            idx == ns@.map_values(|j: usize| j as int),
            forall|m: int| 0 <= m < ns@.len() ==> #[trigger] ns@[m] < tree.nodes@.len(),
            out@ == spaced(texts_of(tree.nodes@, idx.take(k as int))),
        decreases ns@.len() - k,
    {
        let j = ns[k];
        proof {
            let before = texts_of(tree.nodes@, idx.take(k as int));
            let after = texts_of(tree.nodes@, idx.take(k + 1));
            assert(after.drop_last() =~= before);
            assert(after.last() == tree.nodes@[j as int].text@);
            if k == 0 {
                assert(after.len() == 1);
            }
        }
        if k > 0 {
            append_str(&mut out, " ");
        }
        let piece = chars_of(tree.nodes[j].text.as_str());
        append_chars(&mut out, &piece);
        proof {
            if k == 0 {
                assert(out@ =~= tree.nodes@[j as int].text@);
            }
        }
        k += 1;
    }
    proof {
        assert(idx.take(ns@.len() as int) =~= idx);
    }
    Some(string_of(&out))
}

/// The span from the first child in the field `name` to the last.
pub fn field_range_of(tree: &SyntaxTree, i: usize, name: &str) -> (r: Option<Range>)
    requires
        tree.wf(),
        i < tree.nodes@.len(),
    ensures
        r == field_range(tree.nodes@, i as int, name@),
{
    let ns = field_nodes(tree, i, name);
    let ghost idx = ns@.map_values(|j: usize| j as int);
    if ns.len() == 0 {
        return None;
    }
    let first = ns[0];
    let last = ns[ns.len() - 1];
    proof {
        assert(idx[0] == first as int);
        assert(idx.last() == last as int);
    }
    Some(Range { start: tree.nodes[first].range.start, end: tree.nodes[last].range.end })
}

} // verus!
