//! Call hierarchy: who calls a function, and what it calls.
//!
//! Skript has no call graph of its own: a function is reachable from anything,
//! and most callers are events. So the caller of a call site is the top-level
//! structure that encloses it, whatever that structure is.
use vstd::prelude::*;

use crate::editor::{covers, encloses, enclosing, first_enclosing};
use crate::index::{
    all_definitions, all_references, file_local, found_references, found_symbols, keep, lookup,
    refers, tagged, Document, DocumentView, Workspace,
};
use crate::symbols::{
    deref_option, first_declaration, first_reference, flatten, Reference, Symbol, SymbolKind,
};
use crate::text::{range_touches, Position, Range};

verus! {

/// One node of the tree: a declaration, and the document it lives in.
pub struct Node<'a> {
    pub document: &'a Document,
    pub symbol: &'a Symbol,
}

/// A node plus the call sites that link it to its parent, as ranges in the
/// document of the node.
pub struct Call<'a> {
    pub node: Node<'a>,
    pub ranges: Vec<Range>,
}

pub open spec fn node_views(v: Seq<Node>) -> Seq<(Seq<char>, Symbol)> {
    v.map_values(|n: Node| (n.document@.uri, *n.symbol))
}

/// A call as plain values: the URI and declaration of its node, and the call
/// sites.
pub open spec fn call_views(v: Seq<Call>) -> Seq<(Seq<char>, Symbol, Seq<Range>)> {
    v.map_values(|c: Call| (c.node.document@.uri, *c.node.symbol, c.ranges@))
}

// ------------------------------------------------------------ the starting point

/// The first declaration, from `i` on, whose name the position touches.
pub open spec fn touching_declaration(f: Seq<Symbol>, p: Position, i: int) -> Option<int>
    decreases f.len() - i,
{
    if i < 0 || i >= f.len() {
        None
    } else if range_touches(f[i].selection_range, p) {
        Some(i)
    } else {
        touching_declaration(f, p, i + 1)
    }
}

/// The first reference, from `i` on, that the position touches.
pub open spec fn touching_reference(refs: Seq<Reference>, p: Position, i: int) -> Option<int>
    decreases refs.len() - i,
{
    if i < 0 || i >= refs.len() {
        None
    } else if range_touches(refs[i].range, p) {
        Some(i)
    } else {
        touching_reference(refs, p, i + 1)
    }
}

/// The function a call hierarchy starts from: the declaration under the
/// cursor when it is a function (and nothing when it is anything else), or
/// else the function called under the cursor.
pub open spec fn hierarchy_target(f: Seq<Symbol>, refs: Seq<Reference>, p: Position) -> Option<
    (SymbolKind, Seq<char>),
> {
    match touching_declaration(f, p, 0) {
        Some(i) => if f[i].kind is Function || f[i].kind is LocalFunction {
            Some((f[i].kind, f[i].name@))
        } else {
            None
        },
        None => match touching_reference(refs, p, 0) {
            Some(j) => if refs[j].kind is Function || refs[j].kind is LocalFunction {
                Some((refs[j].kind, refs[j].name@))
            } else {
                None
            },
            None => None,
        },
    }
}

pub(crate) proof fn lemma_declaration_found(f: Seq<Symbol>, p: Position, found: Option<Symbol>)
    requires
        first_declaration(f, p, found),
    ensures
        match touching_declaration(f, p, 0) {
            Some(i) => found == Some(f[i]),
            None => found is None,
        },
{
    match found {
        Some(s) => {
            let i = choose|i: int|
                0 <= i < f.len() && f[i] == s && range_touches(#[trigger] f[i].selection_range, p)
                    && forall|j: int| 0 <= j < i ==> !range_touches(#[trigger] f[j].selection_range, p);
            lemma_touching_declaration_at(f, p, 0, i);
        },
        None => {
            lemma_no_touching_declaration(f, p, 0);
        },
    }
}

proof fn lemma_touching_declaration_at(f: Seq<Symbol>, p: Position, k: int, i: int)
    requires
        0 <= k <= i < f.len(),
        range_touches(f[i].selection_range, p),
        forall|j: int| 0 <= j < i ==> !range_touches(#[trigger] f[j].selection_range, p),
    ensures
        touching_declaration(f, p, k) == Some(i),
    decreases i - k,
{
    if k < i {
        lemma_touching_declaration_at(f, p, k + 1, i);
    }
}

proof fn lemma_no_touching_declaration(f: Seq<Symbol>, p: Position, k: int)
    requires
        0 <= k,
        forall|j: int| 0 <= j < f.len() ==> !range_touches(#[trigger] f[j].selection_range, p),
    ensures
        touching_declaration(f, p, k) is None,
    decreases f.len() - k,
{
    if k < f.len() {
        lemma_no_touching_declaration(f, p, k + 1);
    }
}

pub(crate) proof fn lemma_reference_found(refs: Seq<Reference>, p: Position, found: Option<Reference>)
    requires
        first_reference(refs, p, found),
    ensures
        match touching_reference(refs, p, 0) {
            Some(i) => found == Some(refs[i]),
            None => found is None,
        },
{
    match found {
        Some(r) => {
            let i = choose|i: int|
                0 <= i < refs.len() && refs[i] == r && range_touches(#[trigger] refs[i].range, p)
                    && forall|j: int| 0 <= j < i ==> !range_touches(#[trigger] refs[j].range, p);
            lemma_touching_reference_at(refs, p, 0, i);
        },
        None => {
            lemma_no_touching_reference(refs, p, 0);
        },
    }
}

proof fn lemma_touching_reference_at(refs: Seq<Reference>, p: Position, k: int, i: int)
    requires
        0 <= k <= i < refs.len(),
        range_touches(refs[i].range, p),
        forall|j: int| 0 <= j < i ==> !range_touches(#[trigger] refs[j].range, p),
    ensures
        touching_reference(refs, p, k) == Some(i),
    decreases i - k,
{
    if k < i {
        lemma_touching_reference_at(refs, p, k + 1, i);
    }
}

proof fn lemma_no_touching_reference(refs: Seq<Reference>, p: Position, k: int)
    requires
        0 <= k,
        forall|j: int| 0 <= j < refs.len() ==> !range_touches(#[trigger] refs[j].range, p),
    ensures
        touching_reference(refs, p, k) is None,
    decreases refs.len() - k,
{
    if k < refs.len() {
        lemma_no_touching_reference(refs, p, k + 1);
    }
}

/// The declarations a call hierarchy starts from, when the cursor is on a
/// function's declaration or on a call of one.
pub fn prepare<'a>(workspace: &'a Workspace, document: &'a Document, position: Position) -> (nodes: Vec<Node<'a>>)
    ensures
        match hierarchy_target(
            flatten(document@.symbols.symbols@),
            document@.symbols.references@,
            position,
        ) {
            Some((kind, name)) => node_views(nodes@) == all_definitions(workspace@, kind, name, document@.uri),
            None => nodes@.len() == 0,
        },
{
    let symbols = document.symbols();
    let declared = symbols.declaration_at(position);
    proof {
        lemma_declaration_found(flatten(symbols.symbols@), position, deref_option(declared));
    }
    let (kind, name) = match declared {
        Some(symbol) => {
            if symbol.kind.is_function() {
                (symbol.kind, symbol.name.as_str())
            } else {
                return Vec::new();
            }
        },
        None => {
            let referenced = symbols.reference_at(position);
            proof {
                lemma_reference_found(symbols.references@, position, deref_option(referenced));
            }
            match referenced {
                Some(reference) => {
                    if reference.kind.is_function() {
                        (reference.kind, reference.name.as_str())
                    } else {
                        return Vec::new();
                    }
                },
                None => {
                    return Vec::new();
                },
            }
        },
    };
    let found = workspace.definitions(kind, name, document.uri());
    let mut nodes: Vec<Node<'a>> = Vec::new();
    let mut i: usize = 0;
    while i < found.len()
        invariant
            i <= found@.len(),
            node_views(nodes@) == found_symbols(found@).take(i as int),
        decreases found@.len() - i,
    {
        let (d, s) = found[i];
        let ghost prev = nodes@;
        nodes.push(Node { document: d, symbol: s });
        assert(node_views(nodes@) =~= node_views(prev).push((d@.uri, *s)));
        assert(found_symbols(found@).take(i + 1) =~= found_symbols(found@).take(i as int).push(
            (d@.uri, *s),
        ));
        i += 1;
    }
    assert(found_symbols(found@).take(found@.len() as int) =~= found_symbols(found@));
    nodes
}

// ------------------------------------------------------------ grouping calls

/// The first call, from `i` on, whose node is `symbol` in the document `uri`
/// (a declaration is known by its range).
pub open spec fn same_node(calls: Seq<(Seq<char>, Symbol, Seq<Range>)>, uri: Seq<char>, symbol: Symbol, i: int) -> Option<
    int,
>
    decreases calls.len() - i,
{
    if i < 0 || i >= calls.len() {
        None
    } else if calls[i].0 == uri && calls[i].1.range == symbol.range {
        Some(i)
    } else {
        same_node(calls, uri, symbol, i + 1)
    }
}

/// A call site added to the calls: merged into the node's entry when there is
/// one, else a new entry.
pub open spec fn with_call(calls: Seq<(Seq<char>, Symbol, Seq<Range>)>, uri: Seq<char>, symbol: Symbol, range: Range) -> Seq<
    (Seq<char>, Symbol, Seq<Range>),
> {
    match same_node(calls, uri, symbol, 0) {
        Some(k) => calls.update(k, (calls[k].0, calls[k].1, calls[k].2.push(range))),
        None => calls.push((uri, symbol, seq![range])),
    }
}

/// Adds a call site, merging into an existing node rather than repeating it.
fn push<'a>(out: &mut Vec<Call<'a>>, document: &'a Document, symbol: &'a Symbol, range: Range)
    ensures
        call_views(final(out)@) == with_call(call_views(old(out)@), document@.uri, *symbol, range),
{
    let ghost calls = call_views(out@);
    let uri = document.uri();
    let mut k: usize = 0;
    while k < out.len()
        invariant
            k <= out@.len(),
            calls == call_views(out@),
            out@ == old(out)@,
            uri@ == document@.uri,
            same_node(calls, uri@, *symbol, 0) == same_node(calls, uri@, *symbol, k as int),
        decreases out@.len() - k,
    {
        let same = crate::strings::chars_eq(
            &crate::strings::chars_of(out[k].node.document.uri()),
            &crate::strings::chars_of(uri),
        ) && out[k].node.symbol.range == symbol.range;
        assert(calls[k as int] == (out@[k as int].node.document@.uri, *out@[k as int].node.symbol, out@[k as int].ranges@));
        if same {
            let mut call = out.remove(k);
            call.ranges.push(range);
            out.insert(k, call);
            assert(call_views(out@) =~= calls.update(k as int, (calls[k as int].0, calls[k as int].1, calls[k as int].2.push(range))));
            return;
        }
        k += 1;
    }
    let ranges = vec![range];
    out.push(Call { node: Node { document, symbol }, ranges });
    assert(ranges@ =~= seq![range]);
    assert(call_views(out@) =~= calls.push((document@.uri, *symbol, seq![range])));
}

// ------------------------------------------------------------ callers

/// The callers of the references `refs` of `docs`: each grouped under the
/// top-level structure that encloses it, references outside any structure
/// skipped.
pub open spec fn callers(docs: Seq<DocumentView>, refs: Seq<(Seq<char>, Reference)>) -> Seq<
    (Seq<char>, Symbol, Seq<Range>),
>
    decreases refs.len(),
{
    if refs.len() == 0 {
        Seq::empty()
    } else {
        let prev = callers(docs, refs.drop_last());
        let (uri, r) = refs.last();
        match lookup(docs, uri) {
            Some(d) => match first_enclosing(d.symbols.symbols@, r.range, 0) {
                Some(i) => with_call(prev, uri, d.symbols.symbols@[i], r.range),
                None => prev,
            },
            None => prev,
        }
    }
}

/// Every place `node` is called from, grouped by the structure that contains
/// the call.
pub fn incoming<'a>(workspace: &'a Workspace, node: &Node<'a>) -> (calls: Vec<Call<'a>>)
    ensures
        call_views(calls@) == callers(
            workspace@,
            all_references(workspace@, node.symbol.kind, node.symbol.name@, node.document@.uri),
        ),
{
    let found = workspace.references(node.symbol.kind, node.symbol.name.as_str(), node.document.uri());
    let ghost refs = found_references(found@);
    let mut out: Vec<Call<'a>> = Vec::new();
    let mut i: usize = 0;
    assert(call_views(out@) =~= callers(workspace@, refs.take(0)));
    while i < found.len()
        invariant
            i <= found@.len(),
            refs == found_references(found@),
            call_views(out@) == callers(workspace@, refs.take(i as int)),
        decreases found@.len() - i,
    {
        let (document, reference) = found[i];
        assert(refs.take(i + 1).drop_last() =~= refs.take(i as int));
        assert(refs.take(i + 1).last() == (document@.uri, *reference));
        proof {
            crate::index::lemma_find_doc(workspace@, document@.uri, 0);
        }
        match workspace.get(document.uri()) {
            Some(owner) => {
                match enclosing(owner.symbols(), reference.range) {
                    Some(caller) => {
                        push(&mut out, owner, caller, reference.range);
                    },
                    None => {},
                }
            },
            None => {},
        }
        i += 1;
    }
    assert(refs.take(refs.len() as int) =~= refs);
    out
}

// ------------------------------------------------------------ callees

/// The calls that the references `refs` (of the document `uri`) make from
/// within `body`: each call of a function grouped under its declarations.
pub open spec fn callees(docs: Seq<DocumentView>, uri: Seq<char>, body: Range, refs: Seq<Reference>) -> Seq<
    (Seq<char>, Symbol, Seq<Range>),
>
    decreases refs.len(),
{
    if refs.len() == 0 {
        Seq::empty()
    } else {
        let prev = callees(docs, uri, body, refs.drop_last());
        let r = refs.last();
        if (r.kind is Function || r.kind is LocalFunction) && covers(body, r.range) {
            add_all(prev, all_definitions(docs, r.kind, r.name@, uri), r.range)
        } else {
            prev
        }
    }
}

/// One call site added under each of several declarations.
pub open spec fn add_all(calls: Seq<(Seq<char>, Symbol, Seq<Range>)>, defs: Seq<(Seq<char>, Symbol)>, range: Range) -> Seq<
    (Seq<char>, Symbol, Seq<Range>),
>
    decreases defs.len(),
{
    if defs.len() == 0 {
        calls
    } else {
        with_call(add_all(calls, defs.drop_last(), range), defs.last().0, defs.last().1, range)
    }
}

/// Every function `node` calls, grouped by callee.
pub fn outgoing<'a>(workspace: &'a Workspace, node: &Node<'a>) -> (calls: Vec<Call<'a>>)
    ensures
        call_views(calls@) == callees(
            workspace@,
            node.document@.uri,
            node.symbol.range,
            node.document@.symbols.references@,
        ),
{
    let refs = &node.document.symbols().references;
    let mut out: Vec<Call<'a>> = Vec::new();
    let mut i: usize = 0;
    assert(refs@.take(0) =~= Seq::<Reference>::empty());
    while i < refs.len()
        invariant
            i <= refs@.len(),
            *refs == node.document@.symbols.references,
            call_views(out@) == callees(workspace@, node.document@.uri, node.symbol.range, refs@.take(i as int)),
        decreases refs@.len() - i,
    {
        let reference = &refs[i];
        assert(refs@.take(i + 1).drop_last() =~= refs@.take(i as int));
        assert(refs@.take(i + 1).last() == *reference);
        if reference.kind.is_function() && encloses(node.symbol.range, reference.range) {
            let defs = workspace.definitions(reference.kind, reference.name.as_str(), node.document.uri());
            let ghost dv = found_symbols(defs@);
            let ghost before = call_views(out@);
            let mut j: usize = 0;
            assert(dv.take(0) =~= Seq::<(Seq<char>, Symbol)>::empty());
            while j < defs.len()
                invariant
                    j <= defs@.len(),
                    dv == found_symbols(defs@),
                    call_views(out@) == add_all(before, dv.take(j as int), reference.range),
                decreases defs@.len() - j,
            {
                let (document, symbol) = defs[j];
                assert(dv.take(j + 1).drop_last() =~= dv.take(j as int));
                assert(dv.take(j + 1).last() == (document@.uri, *symbol));
                push(&mut out, document, symbol, reference.range);
                j += 1;
            }
            assert(dv.take(dv.len() as int) =~= dv);
        }
        i += 1;
    }
    assert(refs@.take(refs@.len() as int) =~= refs@);
    out
}


// ------------------------------------------------------------ laws

/// No node (a document and a declaration's range) is listed twice.
pub open spec fn nodes_distinct(calls: Seq<(Seq<char>, Symbol, Seq<Range>)>) -> bool {
    forall|i: int, j: int|
        0 <= i < j < calls.len() ==> !((#[trigger] calls[i]).0 == (#[trigger] calls[j]).0 && calls[i].1.range
            == calls[j].1.range)
}

proof fn lemma_same_node(calls: Seq<(Seq<char>, Symbol, Seq<Range>)>, uri: Seq<char>, symbol: Symbol, i: int)
    requires
        0 <= i,
    ensures
        same_node(calls, uri, symbol, i) matches Some(k) ==> i <= k < calls.len() && calls[k].0 == uri
            && calls[k].1.range == symbol.range,
        same_node(calls, uri, symbol, i) is None ==> forall|j: int|
            i <= j < calls.len() ==> !((#[trigger] calls[j]).0 == uri && calls[j].1.range == symbol.range),
    decreases calls.len() - i,
{
    if i < calls.len() {
        lemma_same_node(calls, uri, symbol, i + 1);
    }
}

proof fn lemma_with_call_distinct(calls: Seq<(Seq<char>, Symbol, Seq<Range>)>, uri: Seq<char>, symbol: Symbol, range: Range)
    requires
        nodes_distinct(calls),
    ensures
        nodes_distinct(with_call(calls, uri, symbol, range)),
{
    lemma_same_node(calls, uri, symbol, 0);
    let r = with_call(calls, uri, symbol, range);
    match same_node(calls, uri, symbol, 0) {
        Some(k) => {
            assert forall|i: int, j: int| 0 <= i < j < r.len() implies !((#[trigger] r[i]).0 == (#[trigger] r[j]).0
                && r[i].1.range == r[j].1.range) by {
                assert(r[i].0 == calls[i].0 && r[i].1 == calls[i].1);
                assert(r[j].0 == calls[j].0 && r[j].1 == calls[j].1);
            }
        },
        None => {
            assert forall|i: int, j: int| 0 <= i < j < r.len() implies !((#[trigger] r[i]).0 == (#[trigger] r[j]).0
                && r[i].1.range == r[j].1.range) by {
                assert(r[i] == calls[i]);
                if j < calls.len() {
                    assert(r[j] == calls[j]);
                }
            }
        },
    }
}

/// Incoming calls list each caller once, however many times it calls: the
/// call sites are grouped under it.
pub proof fn lemma_each_caller_listed_once(docs: Seq<DocumentView>, refs: Seq<(Seq<char>, Reference)>)
    ensures
        nodes_distinct(callers(docs, refs)),
    decreases refs.len(),
{
    if refs.len() > 0 {
        lemma_each_caller_listed_once(docs, refs.drop_last());
        let (uri, r) = refs.last();
        match lookup(docs, uri) {
            Some(d) => match first_enclosing(d.symbols.symbols@, r.range, 0) {
                Some(i) => {
                    lemma_with_call_distinct(callers(docs, refs.drop_last()), uri, d.symbols.symbols@[i], r.range);
                },
                None => {},
            },
            None => {},
        }
    }
}

proof fn lemma_add_all_distinct(calls: Seq<(Seq<char>, Symbol, Seq<Range>)>, defs: Seq<(Seq<char>, Symbol)>, range: Range)
    requires
        nodes_distinct(calls),
    ensures
        nodes_distinct(add_all(calls, defs, range)),
    decreases defs.len(),
{
    if defs.len() > 0 {
        lemma_add_all_distinct(calls, defs.drop_last(), range);
        lemma_with_call_distinct(add_all(calls, defs.drop_last(), range), defs.last().0, defs.last().1, range);
    }
}

/// Outgoing calls list each callee once, however many times it is called.
pub proof fn lemma_each_callee_listed_once(docs: Seq<DocumentView>, uri: Seq<char>, body: Range, refs: Seq<Reference>)
    ensures
        nodes_distinct(callees(docs, uri, body, refs)),
    decreases refs.len(),
{
    if refs.len() > 0 {
        lemma_each_callee_listed_once(docs, uri, body, refs.drop_last());
        let r = refs.last();
        if (r.kind is Function || r.kind is LocalFunction) && covers(body, r.range) {
            lemma_add_all_distinct(callees(docs, uri, body, refs.drop_last()), all_definitions(docs, r.kind, r.name@, uri), r.range);
        }
    }
}

/// Every caller comes from a document that one of the references is in.
proof fn lemma_callers_from(docs: Seq<DocumentView>, refs: Seq<(Seq<char>, Reference)>, uri: Seq<char>)
    requires
        forall|k: int| 0 <= k < refs.len() ==> (#[trigger] refs[k]).0 == uri,
    ensures
        forall|i: int| 0 <= i < callers(docs, refs).len() ==> (#[trigger] callers(docs, refs)[i]).0 == uri,
    decreases refs.len(),
{
    if refs.len() > 0 {
        let prev = callers(docs, refs.drop_last());
        assert forall|k: int| 0 <= k < refs.drop_last().len() implies (#[trigger] refs.drop_last()[k]).0 == uri by {
            assert(refs.drop_last()[k] == refs[k]);
        }
        lemma_callers_from(docs, refs.drop_last(), uri);
        let (u, r) = refs.last();
        assert(u == uri);
        match lookup(docs, u) {
            Some(d) => match first_enclosing(d.symbols.symbols@, r.range, 0) {
                Some(j) => {
                    let sym = d.symbols.symbols@[j];
                    lemma_same_node(prev, u, sym, 0);
                    let now = callers(docs, refs);
                    assert forall|i: int| 0 <= i < now.len() implies (#[trigger] now[i]).0 == uri by {
                        match same_node(prev, u, sym, 0) {
                            Some(k) => {
                                assert(now[i].0 == prev[i].0);
                            },
                            None => {
                                if i < prev.len() {
                                    assert(now[i] == prev[i]);
                                }
                            },
                        }
                    }
                },
                None => {},
            },
            None => {},
        }
    }
}

proof fn lemma_local_references_in_file(docs: Seq<DocumentView>, kind: SymbolKind, name: Seq<char>, from: Seq<char>)
    requires
        file_local(kind),
    ensures
        forall|k: int|
            0 <= k < all_references(docs, kind, name, from).len() ==> (#[trigger] all_references(
                docs,
                kind,
                name,
                from,
            )[k]).0 == from,
    decreases docs.len(),
{
    if docs.len() > 0 {
        lemma_local_references_in_file(docs.drop_last(), kind, name, from);
        let prev = all_references(docs.drop_last(), kind, name, from);
        let d = docs.last();
        let here = if file_local(kind) && d.uri != from {
            Seq::empty()
        } else {
            tagged(d.uri, keep(d.symbols.references@, refers(kind, name)))
        };
        let all = all_references(docs, kind, name, from);
        assert(all == prev + here);
        assert forall|k: int| 0 <= k < all.len() implies (#[trigger] all[k]).0 == from by {
            if k < prev.len() {
                assert(all[k] == prev[k]);
            } else {
                assert(all[k] == here[k - prev.len()]);
            }
        }
    }
}

/// A file-local function (a `local function`) is only ever called from its
/// own file: every caller incoming calls list for it lies in that file.
pub proof fn lemma_local_callers_stay_in_file(docs: Seq<DocumentView>, kind: SymbolKind, name: Seq<char>, from: Seq<char>)
    requires
        file_local(kind),
    ensures
        forall|i: int|
            0 <= i < callers(docs, all_references(docs, kind, name, from)).len() ==> (#[trigger] callers(
                docs,
                all_references(docs, kind, name, from),
            )[i]).0 == from,
{
    lemma_local_references_in_file(docs, kind, name, from);
    lemma_callers_from(docs, all_references(docs, kind, name, from), from);
}

} // verus!
