//! Folding ranges: events, commands, functions, options, sections, entry
//! sections and block comments fold, each with a placeholder saying what was
//! folded away.
//!
//! The parse tree is walked by the caller, which hands over each node it
//! visits, in visiting order, as a [`SyntaxNode`].
use vstd::prelude::*;

use crate::source::{append_chars, append_str};
use crate::strings::{chars_eq, chars_of, string_of};
use crate::version::{append_decimal, decimal_chars};
use crate::syntax::{field, field_node, SyntaxTree, TreeNode};

verus! {

/// What a fold hides.
#[derive(Debug, Clone, Copy, PartialEq, Eq, Structural)]
pub enum FoldKind {
    Region,
    Comment,
}

/// A foldable region. Lines are zero-based; the end line is inclusive.
#[derive(Debug, Clone, PartialEq, Eq)]
pub struct Fold {
    pub start_line: u32,
    pub end_line: u32,
    pub kind: FoldKind,
    /// Shown in place of the folded text.
    pub collapsed_text: String,
}

/// A node of the parse tree, as far as folding reads it.
#[derive(Debug, Clone, PartialEq, Eq)]
pub struct SyntaxNode {
    /// The grammar's name for the node (`event`, `block_comment`, ...).
    pub kind: String,
    pub start_row: u32,
    pub end_row: u32,
    /// The rows of the node's `body` field, when it has one.
    pub body: Option<(u32, u32)>,
    /// The text of the node's `key` field, when it has one.
    pub key: Option<String>,
}

/// A fold as plain values.
pub struct FoldView {
    pub start_line: u32,
    pub end_line: u32,
    pub kind: FoldKind,
    pub collapsed_text: Seq<char>,
}

pub open spec fn fold_view(f: Fold) -> FoldView {
    FoldView {
        start_line: f.start_line,
        end_line: f.end_line,
        kind: f.kind,
        collapsed_text: f.collapsed_text@,
    }
}

/// The structure kinds that fold on their body and name themselves.
pub open spec fn named_structure(kind: Seq<char>) -> bool {
    ||| kind == "event"@
    ||| kind == "command"@
    ||| kind == "function"@
    ||| kind == "options"@
    ||| kind == "variables"@
    ||| kind == "aliases"@
    ||| kind == "import"@
}

/// The node kinds that fold on their body.
pub open spec fn folds_on_body(kind: Seq<char>) -> bool {
    named_structure(kind) || kind == "section"@ || kind == "entry_section"@
}

/// The word a placeholder uses for what it hides.
pub open spec fn noun_of(n: SyntaxNode) -> Seq<char> {
    if n.kind@ == "entry_section"@ {
        match n.key {
            Some(k) => k@,
            None => "section"@,
        }
    } else if named_structure(n.kind@) {
        n.kind@
    } else {
        "section"@
    }
}

/// ` … N lines of NOUN `, N counting the body's rows.
pub open spec fn placeholder(lines: nat, noun: Seq<char>) -> Seq<char> {
    " \u{2026} "@ + decimal_chars(lines) + " lines of "@ + noun + " "@
}

pub open spec fn body_lines(start: u32, end: u32) -> nat {
    (if end >= start {
        end - start
    } else {
        0
    }) as nat + 1
}

/// The fold a visited node contributes, if any.
#[verifier::opaque]
pub open spec fn candidate(n: SyntaxNode) -> Option<FoldView> {
    if n.kind@ == "block_comment"@ {
        if n.end_row > n.start_row {
            Some(
                FoldView {
                    start_line: n.start_row,
                    end_line: n.end_row,
                    kind: FoldKind::Comment,
                    collapsed_text: "###  \u{2026}  ###"@,
                },
            )
        } else {
            None
        }
    } else if folds_on_body(n.kind@) {
        match n.body {
            Some((bs, be)) => if be > n.start_row {
                Some(
                    FoldView {
                        start_line: n.start_row,
                        end_line: be,
                        kind: FoldKind::Region,
                        collapsed_text: placeholder(body_lines(bs, be), noun_of(n)),
                    },
                )
            } else {
                None
            },
            None => None,
        }
    } else {
        None
    }
}

/// Orders folds by start line, then end line.
pub open spec fn span_lt(a: FoldView, b: FoldView) -> bool {
    a.start_line < b.start_line || (a.start_line == b.start_line && a.end_line < b.end_line)
}

pub open spec fn same_span(a: FoldView, b: FoldView) -> bool {
    a.start_line == b.start_line && a.end_line == b.end_line
}

/// Whether an optional fold has the span of `f`.
pub open spec fn has_span(o: Option<FoldView>, f: FoldView) -> bool {
    o matches Some(c) && same_span(c, f)
}

/// Node `k` gives the fold `f`, and no node before it gives a fold with that
/// span.
pub open spec fn first_with(nodes: Seq<SyntaxNode>, k: int, f: FoldView) -> bool {
    &&& 0 <= k < nodes.len()
    &&& candidate(nodes[k]) == Some(f)
    &&& forall|m: int| 0 <= m < k ==> !has_span(candidate(#[trigger] nodes[m]), f)
}

/// Some fold of `out` has the span of `c`.
pub open spec fn covered(out: Seq<FoldView>, c: FoldView) -> bool {
    exists|i: int| 0 <= i < out.len() && same_span(#[trigger] out[i], c)
}

/// Sorted by span, so no two folds share one.
pub open spec fn spans_sorted(out: Seq<FoldView>) -> bool {
    forall|i: int, j: int| 0 <= i < j < out.len() ==> span_lt(#[trigger] out[i], #[trigger] out[j])
}

/// Some node gives `f` first among the folds with its span.
pub open spec fn first_somewhere(nodes: Seq<SyntaxNode>, f: FoldView) -> bool {
    exists|k: int| #[trigger] first_with(nodes, k, f)
}

/// Each fold is the first one some node gave with its span.
pub open spec fn all_first(nodes: Seq<SyntaxNode>, out: Seq<FoldView>) -> bool {
    forall|i: int| 0 <= i < out.len() ==> first_somewhere(nodes, #[trigger] out[i])
}

/// Each node's fold has its span in `out`.
pub open spec fn all_covered(nodes: Seq<SyntaxNode>, out: Seq<FoldView>) -> bool {
    forall|k: int|
        0 <= k < nodes.len() && (#[trigger] candidate(nodes[k])) is Some ==> covered(out, candidate(nodes[k])->0)
}

/// `out` is the visited nodes' folds sorted by span, one per span: the one
/// whose node was visited first.
#[verifier::opaque]
pub open spec fn folds_of(nodes: Seq<SyntaxNode>, out: Seq<FoldView>) -> bool {
    spans_sorted(out) && all_first(nodes, out) && all_covered(nodes, out)
}

fn is_text(text: &Vec<char>, word: &str) -> (b: bool)
    ensures
        b == (text@ == word@),
{
    let w = chars_of(word);
    chars_eq(text, &w)
}

fn is_named_structure(kind: &Vec<char>) -> (b: bool)
    ensures
        b == named_structure(kind@),
{
    is_text(kind, "event") || is_text(kind, "command") || is_text(kind, "function") || is_text(
        kind,
        "options",
    ) || is_text(kind, "variables") || is_text(kind, "aliases") || is_text(kind, "import")
}

/// The fold a visited node contributes, if any.
pub fn node_fold(node: &SyntaxNode) -> (r: Option<Fold>)
    ensures
        match r {
            Some(f) => candidate(*node) == Some(fold_view(f)),
            None => candidate(*node) is None,
        },
{
    reveal(candidate);
    let kind = chars_of(node.kind.as_str());
    if is_text(&kind, "block_comment") {
        if node.end_row > node.start_row {
            let text = chars_of("###  \u{2026}  ###");
            return Some(
                Fold {
                    start_line: node.start_row,
                    end_line: node.end_row,
                    kind: FoldKind::Comment,
                    collapsed_text: string_of(&text),
                },
            );
        }
        return None;
    }
    let named = is_named_structure(&kind);
    let entry = is_text(&kind, "entry_section");
    if !(named || entry || is_text(&kind, "section")) {
        return None;
    }
    let (bs, be) = match node.body {
        Some(rows) => rows,
        None => return None,
    };
    if be <= node.start_row {
        return None;
    }
    let lines: u64 = if be >= bs {
        (be - bs) as u64 + 1
    } else {
        1
    };
    let noun: Vec<char> = if entry {
        match &node.key {
            Some(k) => chars_of(k.as_str()),
            None => chars_of("section"),
        }
    } else if named {
        kind
    } else {
        chars_of("section")
    };
    let mut text = chars_of(" \u{2026} ");
    append_decimal(&mut text, lines);
    append_str(&mut text, " lines of ");
    append_chars(&mut text, &noun);
    append_str(&mut text, " ");
    Some(
        Fold {
            start_line: node.start_row,
            end_line: be,
            kind: FoldKind::Region,
            collapsed_text: string_of(&text),
        },
    )
}

/// Every foldable region, sorted by start line then end line, one per span.
pub fn ranges(nodes: &Vec<SyntaxNode>) -> (out: Vec<Fold>)
    ensures
        folds_of(nodes@, out@.map_values(|f: Fold| fold_view(f))),
{
    let mut out: Vec<Fold> = Vec::new();
    let mut k: usize = 0;
    proof {
        reveal(folds_of);
    }
    while k < nodes.len()
        invariant
            k <= nodes@.len(),
            folds_of(nodes@.take(k as int), out@.map_values(|f: Fold| fold_view(f))),
        decreases nodes@.len() - k,
    {
        let ghost before = out@.map_values(|f: Fold| fold_view(f));
        proof {
            lemma_folds_of_take(nodes@, k as int, before);
        }
        match node_fold(&nodes[k]) {
            Some(fold) => {
                let mut p: usize = 0;
                while p < out.len() && (out[p].start_line < fold.start_line || (out[p].start_line
                    == fold.start_line && out[p].end_line < fold.end_line))
                    invariant
                        p <= out@.len(),
                        forall|i: int|
                            0 <= i < p ==> span_lt(fold_view(#[trigger] out@[i]), fold_view(fold)),
                    decreases out@.len() - p,
                {
                    p += 1;
                }
                let duplicate = p < out.len() && out[p].start_line == fold.start_line
                    && out[p].end_line == fold.end_line;
                if !duplicate {
                    let ghost fv = fold_view(fold);
                    proof {
                        lemma_insert_fold(nodes@, k as int, before, p as int, fv);
                    }
                    out.insert(p, fold);
                    proof {
                        assert(out@.map_values(|f: Fold| fold_view(f)) =~= before.insert(
                            p as int,
                            fv,
                        ));
                    }
                } else {
                    proof {
                        lemma_skip_duplicate(nodes@, k as int, before, p as int);
                    }
                }
            },
            None => {
                proof {
                    lemma_skip_none(nodes@, k as int, before);
                }
            },
        }
        k += 1;
    }
    proof {
        assert(nodes@.take(nodes@.len() as int) =~= nodes@);
    }
    out
}

proof fn lemma_folds_of_take(nodes: Seq<SyntaxNode>, k: int, out: Seq<FoldView>)
    requires
        0 <= k < nodes.len(),
    ensures
        forall|m: int| 0 <= m < k ==> #[trigger] nodes.take(k + 1)[m] == nodes.take(k)[m],
        nodes.take(k + 1)[k] == nodes[k],
{
}

proof fn lemma_first_with_extends(nodes: Seq<SyntaxNode>, k: int, q: int, f: FoldView)
    requires
        0 <= k < nodes.len(),
        first_with(nodes.take(k), q, f),
    ensures
        first_with(nodes.take(k + 1), q, f),
{
    let a = nodes.take(k);
    let b = nodes.take(k + 1);
    assert(b[q] == a[q]);
    assert forall|m: int| 0 <= m < q implies !has_span(candidate(#[trigger] b[m]), f) by {
        assert(b[m] == a[m]);
        assert(!has_span(candidate(a[m]), f));
    }
}

proof fn lemma_skip_none(nodes: Seq<SyntaxNode>, k: int, out: Seq<FoldView>)
    requires
        0 <= k < nodes.len(),
        folds_of(nodes.take(k), out),
        candidate(nodes[k]) is None,
    ensures
        folds_of(nodes.take(k + 1), out),
{
    reveal(folds_of);
    let a = nodes.take(k);
    let b = nodes.take(k + 1);
    assert forall|i: int| 0 <= i < out.len() implies first_somewhere(b, #[trigger] out[i]) by {
        assert(first_somewhere(a, out[i]));
        let q = choose|q: int| #[trigger] first_with(a, q, out[i]);
        lemma_first_with_extends(nodes, k, q, out[i]);
    }
    assert forall|q: int| 0 <= q < b.len() && (#[trigger] candidate(b[q])) is Some implies covered(out, candidate(b[q])->0) by {
        assert(b[q] == a[q]);
        assert(candidate(a[q]) is Some);
    }
    assert(all_covered(b, out));
    assert(all_first(b, out));
}

proof fn lemma_skip_duplicate(nodes: Seq<SyntaxNode>, k: int, out: Seq<FoldView>, p: int)
    requires
        0 <= k < nodes.len(),
        folds_of(nodes.take(k), out),
        candidate(nodes[k]) is Some,
        0 <= p < out.len(),
        same_span(out[p], candidate(nodes[k])->0),
    ensures
        folds_of(nodes.take(k + 1), out),
{
    reveal(folds_of);
    let a = nodes.take(k);
    let b = nodes.take(k + 1);
    assert forall|i: int| 0 <= i < out.len() implies first_somewhere(b, #[trigger] out[i]) by {
        assert(first_somewhere(a, out[i]));
        let q = choose|q: int| #[trigger] first_with(a, q, out[i]);
        lemma_first_with_extends(nodes, k, q, out[i]);
    }
    assert forall|q: int| 0 <= q < b.len() && (#[trigger] candidate(b[q])) is Some implies covered(out, candidate(b[q])->0) by {
        if q < k {
            assert(b[q] == a[q]);
            assert(candidate(a[q]) is Some);
        } else {
            assert(b[q] == nodes[k]);
            assert(same_span(out[p], candidate(b[q])->0));
        }
    }
    assert(all_covered(b, out));
    assert(all_first(b, out));
}

proof fn lemma_insert_sorted(out: Seq<FoldView>, p: int, f: FoldView)
    requires
        spans_sorted(out),
        0 <= p <= out.len(),
        forall|i: int| 0 <= i < p ==> span_lt(#[trigger] out[i], f),
        p < out.len() ==> !span_lt(out[p], f) && !same_span(out[p], f),
    ensures
        spans_sorted(out.insert(p, f)),
        forall|j: int| p <= j < out.len() ==> span_lt(f, #[trigger] out[j]),
{
    let r = out.insert(p, f);
    assert forall|j: int| p <= j < out.len() implies span_lt(f, #[trigger] out[j]) by {
        if j > p {
            assert(span_lt(out[p], out[j]));
        }
    }
    assert forall|i: int, j: int| 0 <= i < j < r.len() implies span_lt(#[trigger] r[i], #[trigger] r[j]) by {
        if j < p {
            assert(r[i] == out[i] && r[j] == out[j]);
        } else if j == p {
            assert(r[i] == out[i]);
        } else if i < p {
            assert(r[i] == out[i] && r[j] == out[j - 1]);
            assert(span_lt(out[i], f));
            assert(span_lt(f, out[j - 1]));
        } else if i == p {
            assert(r[j] == out[j - 1]);
        } else {
            assert(r[i] == out[i - 1] && r[j] == out[j - 1]);
        }
    }
}

proof fn lemma_insert_first(nodes: Seq<SyntaxNode>, k: int, out: Seq<FoldView>, p: int, f: FoldView)
    requires
        0 <= k < nodes.len(),
        all_first(nodes.take(k), out),
        all_covered(nodes.take(k), out),
        candidate(nodes[k]) == Some(f),
        0 <= p <= out.len(),
        forall|i: int| 0 <= i < p ==> span_lt(#[trigger] out[i], f),
        forall|j: int| p <= j < out.len() ==> span_lt(f, #[trigger] out[j]),
    ensures
        all_first(nodes.take(k + 1), out.insert(p, f)),
{
    let a = nodes.take(k);
    let b = nodes.take(k + 1);
    let r = out.insert(p, f);
    assert(b[k] == nodes[k]);
    // No earlier node gave a fold with this span.
    assert forall|m: int| 0 <= m < k implies !has_span(candidate(#[trigger] b[m]), f) by {
        assert(b[m] == a[m]);
        if let Some(c) = candidate(a[m]) {
            if same_span(c, f) {
                assert(covered(out, c));
                let i = choose|i: int| 0 <= i < out.len() && same_span(#[trigger] out[i], c);
                if i < p {
                    assert(span_lt(out[i], f));
                } else {
                    assert(span_lt(f, out[i]));
                }
            }
        }
    }
    assert(first_with(b, k, f));
    assert forall|i: int| 0 <= i < r.len() implies first_somewhere(b, #[trigger] r[i]) by {
        if i == p {
            assert(r[i] == f);
            assert(first_with(b, k, r[i]));
        } else {
            let o = if i < p {
                i
            } else {
                i - 1
            };
            assert(r[i] == out[o]);
            assert(first_somewhere(a, out[o]));
            let q = choose|q: int| #[trigger] first_with(a, q, out[o]);
            lemma_first_with_extends(nodes, k, q, out[o]);
            assert(first_with(b, q, r[i]));
        }
    }
}

proof fn lemma_insert_covered(nodes: Seq<SyntaxNode>, k: int, out: Seq<FoldView>, p: int, f: FoldView)
    requires
        0 <= k < nodes.len(),
        all_covered(nodes.take(k), out),
        candidate(nodes[k]) == Some(f),
        0 <= p <= out.len(),
    ensures
        all_covered(nodes.take(k + 1), out.insert(p, f)),
{
    let a = nodes.take(k);
    let b = nodes.take(k + 1);
    let r = out.insert(p, f);
    assert forall|q: int| 0 <= q < b.len() && (#[trigger] candidate(b[q])) is Some implies covered(r, candidate(b[q])->0) by {
        let c = candidate(b[q])->0;
        if q < k {
            assert(b[q] == a[q]);
            assert(covered(out, candidate(a[q])->0));
            let i = choose|i: int| 0 <= i < out.len() && same_span(#[trigger] out[i], c);
            if i < p {
                assert(r[i] == out[i]);
            } else {
                assert(r[i + 1] == out[i]);
            }
        } else {
            assert(b[q] == nodes[k]);
            assert(r[p] == f);
        }
    }
}

proof fn lemma_insert_fold(nodes: Seq<SyntaxNode>, k: int, out: Seq<FoldView>, p: int, f: FoldView)
    requires
        0 <= k < nodes.len(),
        folds_of(nodes.take(k), out),
        candidate(nodes[k]) == Some(f),
        0 <= p <= out.len(),
        forall|i: int| 0 <= i < p ==> span_lt(#[trigger] out[i], f),
        p < out.len() ==> !span_lt(out[p], f) && !same_span(out[p], f),
    ensures
        folds_of(nodes.take(k + 1), out.insert(p, f)),
{
    reveal(folds_of);
    lemma_insert_sorted(out, p, f);
    lemma_insert_first(nodes, k, out, p, f);
    lemma_insert_covered(nodes, k, out, p, f);
}


// ------------------------------------------------------------ from the tree

/// The nodes of the subtree at `i` in the order a stack walk visits them:
/// the node, then its children's subtrees, last child first.
pub open spec fn walk_order(t: Seq<TreeNode>, i: int) -> Seq<int>
    decreases t.len() - i, 1int, 0int,
{
    if 0 <= i < t.len() {
        seq![i] + children_walk(t, i, t[i].children@.len() as int)
    } else {
        Seq::empty()
    }
}

/// The walks of the first `k` children of `i`, the `k`-th first.
pub open spec fn children_walk(t: Seq<TreeNode>, i: int, k: int) -> Seq<int>
    decreases t.len() - i, 0int, k,
{
    if 0 <= i < t.len() && 0 < k <= t[i].children@.len() {
        let c = t[i].children@[k - 1] as int;
        let here = if i < c < t.len() {
            walk_order(t, c)
        } else {
            Seq::empty()
        };
        here + children_walk(t, i, k - 1)
    } else {
        Seq::empty()
    }
}

/// `n` holds what folding reads of node `i`.
pub open spec fn describes(n: SyntaxNode, t: Seq<TreeNode>, i: int) -> bool {
    &&& n.kind@ == t[i].kind@
    &&& n.start_row == t[i].range.start.line
    &&& n.end_row == t[i].range.end.line
    &&& n.body == match field(t, i, "body"@) {
        Some(b) => Some((t[b].range.start.line, t[b].range.end.line)),
        None => None,
    }
    &&& match field(t, i, "key"@) {
        Some(k) => n.key matches Some(text) && text@ == t[k].text@,
        None => n.key is None,
    }
}

fn syntax_node(tree: &SyntaxTree, i: usize) -> (n: SyntaxNode)
    requires
        tree.wf(),
        i < tree.nodes@.len(),
    ensures
        describes(n, tree.nodes@, i as int),
{
    let node = &tree.nodes[i];
    let body = match field_node(tree, i, "body") {
        Some(b) => Some((tree.nodes[b].range.start.line, tree.nodes[b].range.end.line)),
        None => None,
    };
    let key = match field_node(tree, i, "key") {
        Some(k) => Some(string_of(&chars_of(tree.nodes[k].text.as_str()))),
        None => None,
    };
    SyntaxNode {
        kind: string_of(&chars_of(node.kind.as_str())),
        start_row: node.range.start.line,
        end_row: node.range.end.line,
        body,
        key,
    }
}

/// Appends the subtree at `i` in walking order.
fn walk(tree: &SyntaxTree, i: usize, out: &mut Vec<SyntaxNode>)
    requires
        tree.wf(),
        i < tree.nodes@.len(),
    ensures
        final(out)@.len() == old(out)@.len() + walk_order(tree.nodes@, i as int).len(),
        forall|k: int| 0 <= k < old(out)@.len() ==> #[trigger] final(out)@[k] == old(out)@[k],
        forall|k: int|
            0 <= k < walk_order(tree.nodes@, i as int).len() ==> describes(
                #[trigger] final(out)@[old(out)@.len() + k],
                tree.nodes@,
                walk_order(tree.nodes@, i as int)[k],
            ),
    decreases tree.nodes@.len() - i,
{
    let ghost t = tree.nodes@;
    let ghost base = out@;
    let n = tree.nodes[i].children.len();
    let node = syntax_node(tree, i);
    out.push(node);
    let mut k: usize = n;
    while k > 0
        invariant
            tree.wf(),
            t == tree.nodes@,
            i < t.len(),
            n == t[i as int].children@.len(),
            k <= n,
            walk_order(t, i as int) == seq![i as int] + children_walk(t, i as int, n as int),
            out@.len() + children_walk(t, i as int, k as int).len() == base.len() + walk_order(t, i as int).len(),
            base.len() < out@.len(),
            forall|m: int| 0 <= m < base.len() ==> #[trigger] out@[m] == base[m],
            forall|m: int|
                0 <= m < out@.len() - base.len() ==> describes(
                    #[trigger] out@[base.len() + m],
                    t,
                    walk_order(t, i as int)[m],
                ),
            // What is still to come is the rest of the walk.
            forall|m: int|
                0 <= m < children_walk(t, i as int, k as int).len() ==> walk_order(t, i as int)[out@.len()
                    - base.len() + m] == #[trigger] children_walk(t, i as int, k as int)[m],
        decreases k,
    {
        let c = tree.nodes[i].children[k - 1];
        proof {
            assert(i < t[i as int].children@[k - 1] < t.len());
        }
        let ghost before = out@;
        let ghost rest = children_walk(t, i as int, k - 1);
        let ghost here = walk_order(t, c as int);
        proof {
            assert(children_walk(t, i as int, k as int) == here + rest);
        }
        walk(tree, c, out);
        proof {
            assert forall|m: int| 0 <= m < base.len() implies #[trigger] out@[m] == base[m] by {
                assert(out@[m] == before[m]);
            }
            assert forall|m: int| 0 <= m < out@.len() - base.len() implies describes(
                #[trigger] out@[base.len() + m],
                t,
                walk_order(t, i as int)[m],
            ) by {
                if m >= before.len() - base.len() {
                    let j = m - (before.len() - base.len());
                    assert(out@[before.len() + j] == out@[base.len() + m]);
                    assert(describes(out@[before.len() + j], t, here[j]));
                    assert((here + rest)[j] == here[j]);
                    assert(walk_order(t, i as int)[before.len() - base.len() + j] == children_walk(
                        t,
                        i as int,
                        k as int,
                    )[j]);
                } else {
                    assert(out@[base.len() + m] == before[base.len() + m]);
                }
            }
            assert forall|m: int| 0 <= m < rest.len() implies walk_order(t, i as int)[out@.len() - base.len() + m]
                == #[trigger] rest[m] by {
                assert((here + rest)[here.len() + m] == rest[m]);
                assert(children_walk(t, i as int, k as int)[here.len() + m] == rest[m]);
            }
        }
        k -= 1;
    }
}

/// `nodes` describe the tree's nodes in walking order.
pub open spec fn walked(t: Seq<TreeNode>, nodes: Seq<SyntaxNode>) -> bool {
    &&& nodes.len() == walk_order(t, 0).len()
    &&& forall|k: int| 0 <= k < nodes.len() ==> describes(#[trigger] nodes[k], t, walk_order(t, 0)[k])
}

/// Every foldable region of a parsed file.
pub fn folding_ranges(tree: &SyntaxTree) -> (out: Vec<Fold>)
    requires
        tree.wf(),
    ensures
        exists|nodes: Seq<SyntaxNode>|
            #[trigger] walked(tree.nodes@, nodes) && folds_of(nodes, out@.map_values(|f: Fold| fold_view(f))),
{
    let mut nodes: Vec<SyntaxNode> = Vec::new();
    walk(tree, 0, &mut nodes);
    let out = ranges(&nodes);
    proof {
        assert forall|k: int| 0 <= k < nodes@.len() implies describes(#[trigger] nodes@[k], tree.nodes@, walk_order(tree.nodes@, 0)[k]) by {
            assert(nodes@[0 + k] == nodes@[k]);
        }
        assert(walked(tree.nodes@, nodes@));
    }
    out
}

/// Every structure the outline knows (`event`, `command`, `function`,
/// `options`, `variables`, `aliases`, `import`) and every section whose body
/// ends below its header line folds: the folds hold one from its header line
/// to the end of its body. When no node before it folds over the same lines,
/// that fold is a region, and its placeholder counts the body's lines and
/// names the structure (or says `section`).
pub proof fn lemma_every_structure_with_a_body_folds(nodes: Seq<SyntaxNode>, out: Seq<FoldView>, k: int)
    requires
        folds_of(nodes, out),
        0 <= k < nodes.len(),
        ({
            let kind = nodes[k].kind@;
            ||| kind == "event"@
            ||| kind == "command"@
            ||| kind == "function"@
            ||| kind == "options"@
            ||| kind == "variables"@
            ||| kind == "aliases"@
            ||| kind == "import"@
            ||| kind == "section"@
        }),
        nodes[k].body matches Some((bs, be)) && be > nodes[k].start_row,
    ensures
        ({
            let (bs, be) = nodes[k].body->0;
            let structure = nodes[k].kind@ != "section"@;
            &&& exists|i: int| 0 <= i < out.len() && (#[trigger] out[i]).start_line == nodes[k].start_row && out[i].end_line == be
            &&& (forall|m: int| 0 <= m < k ==> !has_span(candidate(#[trigger] nodes[m]), FoldView {
                start_line: nodes[k].start_row,
                end_line: be,
                kind: FoldKind::Region,
                collapsed_text: Seq::empty(),
            })) ==> exists|i: int|
                0 <= i < out.len() && #[trigger] out[i] == (FoldView {
                    start_line: nodes[k].start_row,
                    end_line: be,
                    kind: FoldKind::Region,
                    collapsed_text: placeholder(
                        body_lines(bs, be),
                        if structure {
                            nodes[k].kind@
                        } else {
                            "section"@
                        },
                    ),
                })
        }),
{
    reveal(folds_of);
    reveal(candidate);
    let n = nodes[k];
    let (bs, be) = n.body->0;
    reveal_strlit("block_comment");
    reveal_strlit("event");
    reveal_strlit("command");
    reveal_strlit("function");
    reveal_strlit("options");
    reveal_strlit("variables");
    reveal_strlit("aliases");
    reveal_strlit("import");
    reveal_strlit("section");
    reveal_strlit("entry_section");
    // Every kind named above is shorter than these two.
    assert(n.kind@.len() < "block_comment"@.len() && n.kind@.len() < "entry_section"@.len());
    let f = candidate(n)->0;
    assert(candidate(nodes[k]) is Some);
    assert(f.start_line == n.start_row && f.end_line == be && f.kind == FoldKind::Region);
    assert(covered(out, f));
    let i = choose|i: int| 0 <= i < out.len() && same_span(#[trigger] out[i], f);
    assert(out[i].start_line == n.start_row && out[i].end_line == be);
    if forall|m: int| 0 <= m < k ==> !has_span(candidate(#[trigger] nodes[m]), FoldView {
        start_line: n.start_row,
        end_line: be,
        kind: FoldKind::Region,
        collapsed_text: Seq::empty(),
    }) {
        assert(first_somewhere(nodes, out[i]));
        let k2 = choose|k2: int| #[trigger] first_with(nodes, k2, out[i]);
        if k2 < k {
            assert(has_span(candidate(nodes[k2]), FoldView {
                start_line: n.start_row,
                end_line: be,
                kind: FoldKind::Region,
                collapsed_text: Seq::empty(),
            }));
        } else if k2 > k {
            assert(has_span(candidate(nodes[k]), out[i]));
        }
        assert(k2 == k);
        assert(out[i] == f);
    }
}


} // verus!
