//! The project index: every open or discovered script with the symbols
//! extracted from it, and the cross-file queries go-to-definition,
//! find-references, rename and the symbol search answer from it.
//!
//! Function, command and global-variable names are project-wide; a `local
//! function`, a `{_local}` variable and an option are visible only inside the
//! script that declares them.
use vstd::prelude::*;

use crate::strings::{chars_eq, chars_of, has_prefix_at, lines, lines_of, lower_chars, lower_seq, string_of};
use crate::symbols::{derefs, flatten, FileSymbols, Reference, Symbol, SymbolKind};
use crate::text::Range;

verus! {

/// Whether a symbol of this kind is visible only in its own script.
pub open spec fn file_local(kind: SymbolKind) -> bool {
    kind is LocalFunction || kind is LocalVariable || kind is Option
}

pub fn is_file_local(kind: SymbolKind) -> (b: bool)
    ensures
        b == file_local(kind),
{
    matches!(kind, SymbolKind::LocalFunction | SymbolKind::LocalVariable | SymbolKind::Option)
}

/// Whether a symbol found under `found` answers a query for `wanted`: any two
/// function kinds match, and otherwise the kinds must be equal.
pub open spec fn kinds_agree(wanted: SymbolKind, found: SymbolKind) -> bool {
    if (wanted is Function || wanted is LocalFunction) && (found is Function || found is LocalFunction) {
        true
    } else {
        wanted == found
    }
}

pub fn kinds_match(wanted: SymbolKind, found: SymbolKind) -> (b: bool)
    ensures
        b == kinds_agree(wanted, found),
{
    if wanted.is_function() && found.is_function() {
        return true;
    }
    if wanted.is_variable() && found.is_variable() {
        return wanted == found;
    }
    wanted == found
}

/// One script of the project, with the symbols extracted from it.
pub struct Document {
    uri: String,
    text: String,
    symbols: FileSymbols,
}

/// A document as plain values.
pub struct DocumentView {
    pub uri: Seq<char>,
    pub text: Seq<char>,
    pub symbols: FileSymbols,
}

impl View for Document {
    type V = DocumentView;

    closed spec fn view(&self) -> DocumentView {
        DocumentView { uri: self.uri@, text: self.text@, symbols: self.symbols }
    }
}

/// Line `n` of a text, or nothing when it has fewer lines.
pub open spec fn nth_line(text: Seq<char>, n: int) -> Seq<char> {
    if 0 <= n < lines_of(text).len() {
        lines_of(text)[n]
    } else {
        Seq::empty()
    }
}

impl Document {
    pub fn new(uri: String, text: String, symbols: FileSymbols) -> (d: Document)
        ensures
            d@ == (DocumentView { uri: uri@, text: text@, symbols }),
    {
        Document { uri, text, symbols }
    }

    /// Replaces the text and the symbols extracted from it.
    pub fn update(&mut self, text: String, symbols: FileSymbols)
        ensures
            final(self)@ == (DocumentView { uri: old(self)@.uri, text: text@, symbols }),
    {
        self.text = text;
        self.symbols = symbols;
    }

    pub fn uri(&self) -> (u: &str)
        ensures
            u@ == self@.uri,
    {
        self.uri.as_str()
    }

    pub fn text(&self) -> (t: &str)
        ensures
            t@ == self@.text,
    {
        self.text.as_str()
    }

    pub fn symbols(&self) -> (s: &FileSymbols)
        ensures
            *s == self@.symbols,
    {
        &self.symbols
    }

    /// Line `line` of the text, or an empty string past the end.
    pub fn line(&self, line: u32) -> (s: String)
        ensures
            s@ == nth_line(self@.text, line as int),
    {
        let chars = chars_of(self.text.as_str());
        let ls = lines(&chars);
        let n = line as usize;
        if n < ls.len() {
            string_of(&ls[n])
        } else {
            String::new()
        }
    }
}

pub open spec fn docs_view(docs: Seq<Document>) -> Seq<DocumentView> {
    docs.map_values(|d: Document| d@)
}

/// The index of the document with this URI at or after `i`.
pub open spec fn find_doc(docs: Seq<DocumentView>, uri: Seq<char>, i: int) -> Option<int>
    decreases docs.len() - i,
{
    if i < 0 || i >= docs.len() {
        None
    } else if docs[i].uri == uri {
        Some(i)
    } else {
        find_doc(docs, uri, i + 1)
    }
}

/// The document with this URI.
pub open spec fn lookup(docs: Seq<DocumentView>, uri: Seq<char>) -> Option<DocumentView> {
    match find_doc(docs, uri, 0) {
        Some(i) => Some(docs[i]),
        None => None,
    }
}

/// No URI occurs twice.
pub open spec fn distinct_uris(docs: Seq<DocumentView>) -> bool {
    forall|i: int, j: int| 0 <= i < j < docs.len() ==> (#[trigger] docs[i]).uri != (#[trigger] docs[j]).uri
}

pub proof fn lemma_find_doc(docs: Seq<DocumentView>, uri: Seq<char>, i: int)
    requires
        0 <= i <= docs.len(),
    ensures
        find_doc(docs, uri, i) is Some ==> i <= find_doc(docs, uri, i)->0 < docs.len(),
        find_doc(docs, uri, i) is Some ==> docs[find_doc(docs, uri, i)->0].uri == uri,
        find_doc(docs, uri, i) is Some ==> forall|j: int|
            i <= j < find_doc(docs, uri, i)->0 ==> (#[trigger] docs[j]).uri != uri,
        find_doc(docs, uri, i) is None ==> forall|j: int|
            i <= j < docs.len() ==> (#[trigger] docs[j]).uri != uri,
    decreases docs.len() - i,
{
    if i < docs.len() && docs[i].uri != uri {
        lemma_find_doc(docs, uri, i + 1);
    }
}

/// Every document of the project, keyed by URI.
pub struct Workspace {
    documents: Vec<Document>,
}

impl View for Workspace {
    type V = Seq<DocumentView>;

    closed spec fn view(&self) -> Seq<DocumentView> {
        docs_view(self.documents@)
    }
}

impl Workspace {
    /// The documents' URIs are distinct.
    pub closed spec fn wf(&self) -> bool {
        distinct_uris(self@)
    }

    pub fn new() -> (w: Workspace)
        ensures
            w.wf(),
            w@ == Seq::<DocumentView>::empty(),
    {
        let w = Workspace { documents: Vec::new() };
        assert(w@ =~= Seq::<DocumentView>::empty());
        w
    }

    fn position(&self, uri: &str) -> (r: Option<usize>)
        ensures
            find_doc(self@, uri@, 0) is None <==> r is None,
            r matches Some(k) ==> find_doc(self@, uri@, 0) == Some(k as int) && k < self@.len()
                && self@[k as int].uri == uri@,
    {
        proof {
            lemma_find_doc(self@, uri@, 0);
        }
        let target = chars_of(uri);
        let mut i: usize = 0;
        while i < self.documents.len()
            invariant
                i <= self.documents@.len(),
                target@ == uri@,
                self@ == docs_view(self.documents@),
                find_doc(self@, uri@, 0) == find_doc(self@, uri@, i as int),
            decreases self.documents@.len() - i,
        {
            assert(self@[i as int] == self.documents@[i as int]@);
            let here = chars_of(self.documents[i].uri.as_str());
            if chars_eq(&here, &target) {
                return Some(i);
            }
            i += 1;
        }
        None
    }

    /// Adds a document, or replaces the one with the same URI.
    pub fn open(&mut self, document: Document)
        requires
            old(self).wf(),
        ensures
            final(self).wf(),
            lookup(final(self)@, document@.uri) == Some(document@),
            forall|u: Seq<char>| u != document@.uri ==> lookup(final(self)@, u) == lookup(old(self)@, u),
            final(self)@.len() == old(self)@.len() + (if lookup(old(self)@, document@.uri) is Some {
                0int
            } else {
                1int
            }),
    {
        let ghost before = self@;
        let ghost d = document@;
        proof {
            lemma_find_doc(before, d.uri, 0);
        }
        match self.position(document.uri.as_str()) {
            Some(k) => {
                self.documents.set(k, document);
                let ghost after = self@;
                assert(after =~= before.update(k as int, d));
                proof {
                    lemma_find_doc(after, d.uri, 0);
                    assert(after[k as int] == d);
                    assert forall|u: Seq<char>| u != d.uri implies lookup(after, u) == lookup(before, u) by {
                        lemma_find_doc(before, u, 0);
                        lemma_find_doc(after, u, 0);
                        match find_doc(before, u, 0) {
                            Some(m) => {
                                assert(before[m].uri == u);
                                assert(m != k);
                                assert(after[m] == before[m]);
                                match find_doc(after, u, 0) {
                                    Some(m2) => {
                                        if m2 < m {
                                            if m2 != k {
                                                assert(after[m2] == before[m2]);
                                            }
                                        }
                                        if m < m2 {
                                            assert(after[m].uri == u);
                                        }
                                    },
                                    None => {
                                        assert(after[m].uri == u);
                                    },
                                }
                            },
                            None => {
                                if let Some(m2) = find_doc(after, u, 0) {
                                    if m2 != k {
                                        assert(after[m2] == before[m2]);
                                    }
                                }
                            },
                        }
                    }
                    assert(distinct_uris(after)) by {
                        assert forall|i: int, j: int| 0 <= i < j < after.len() implies (#[trigger] after[i]).uri != (#[trigger] after[j]).uri by {
                            if i != k && j != k {
                                assert(before[i].uri != before[j].uri);
                            } else if i == k {
                                assert(before[j].uri != before[k as int].uri);
                            } else {
                                assert(before[i].uri != before[k as int].uri);
                            }
                        }
                    }
                    assert(after[k as int].uri == d.uri);
                    if let Some(m) = find_doc(after, d.uri, 0) {
                        if m < k {
                            assert(after[m].uri == before[m].uri);
                        }
                    }
                }
            },
            None => {
                self.documents.push(document);
                let ghost after = self@;
                assert(after =~= before.push(d));
                proof {
                    lemma_find_doc(after, d.uri, 0);
                    assert forall|u: Seq<char>| u != d.uri implies lookup(after, u) == lookup(before, u) by {
                        lemma_find_doc(before, u, 0);
                        lemma_find_doc(after, u, 0);
                        match find_doc(after, u, 0) {
                            Some(m2) => {
                                assert(m2 < before.len());
                                assert(after[m2] == before[m2]);
                                if let Some(m) = find_doc(before, u, 0) {
                                    assert(after[m] == before[m]);
                                }
                            },
                            None => {
                                if let Some(m) = find_doc(before, u, 0) {
                                    assert(after[m] == before[m]);
                                }
                            },
                        }
                    }
                    assert(after[before.len() as int] == d);
                    if let Some(m) = find_doc(after, d.uri, 0) {
                        if m < before.len() {
                            assert(after[m] == before[m]);
                        }
                    }
                }
            },
        }
    }

    /// Replaces the text and symbols of the document at `uri`, opening it
    /// when it is not open yet.
    pub fn update(&mut self, uri: &str, text: String, symbols: FileSymbols)
        requires
            old(self).wf(),
        ensures
            final(self).wf(),
            lookup(final(self)@, uri@) == Some(DocumentView { uri: uri@, text: text@, symbols }),
            forall|u: Seq<char>| u != uri@ ==> lookup(final(self)@, u) == lookup(old(self)@, u),
    {
        let document = Document::new(string_of(&chars_of(uri)), text, symbols);
        self.open(document);
    }

    /// Removes the document with this URI, if there is one.
    pub fn close(&mut self, uri: &str)
        requires
            old(self).wf(),
        ensures
            final(self).wf(),
            lookup(final(self)@, uri@) is None,
            forall|u: Seq<char>| u != uri@ ==> lookup(final(self)@, u) == lookup(old(self)@, u),
    {
        let ghost before = self@;
        proof {
            lemma_find_doc(before, uri@, 0);
        }
        match self.position(uri) {
            Some(k) => {
                self.documents.remove(k);
                let ghost after = self@;
                assert(after =~= before.remove(k as int));
                proof {
                    assert forall|i: int, j: int| 0 <= i < j < after.len() implies (#[trigger] after[i]).uri != (#[trigger] after[j]).uri by {
                        let bi = if i < k { i } else { i + 1 };
                        let bj = if j < k { j } else { j + 1 };
                        assert(after[i] == before[bi] && after[j] == before[bj]);
                        assert(before[bi].uri != before[bj].uri);
                    }
                    lemma_find_doc(after, uri@, 0);
                    if let Some(m) = find_doc(after, uri@, 0) {
                        let bm = if m < k { m } else { m + 1 };
                        assert(after[m] == before[bm]);
                        assert(before[bm].uri != before[k as int].uri);
                    }
                    assert forall|u: Seq<char>| u != uri@ implies lookup(after, u) == lookup(before, u) by {
                        lemma_find_doc(before, u, 0);
                        lemma_find_doc(after, u, 0);
                        match find_doc(before, u, 0) {
                            Some(m) => {
                                assert(m != k);
                                let am = if m < k { m } else { m - 1 };
                                assert(after[am] == before[m]);
                                if let Some(m2) = find_doc(after, u, 0) {
                                    let bm2 = if m2 < k { m2 } else { m2 + 1 };
                                    assert(after[m2] == before[bm2]);
                                    assert(m2 == am);
                                }
                            },
                            None => {
                                if let Some(m2) = find_doc(after, u, 0) {
                                    let bm2 = if m2 < k { m2 } else { m2 + 1 };
                                    assert(after[m2] == before[bm2]);
                                }
                            },
                        }
                    }
                }
            },
            None => {},
        }
    }

    /// The document with this URI.
    pub fn get(&self, uri: &str) -> (d: Option<&Document>)
        ensures
            match d {
                Some(doc) => lookup(self@, uri@) == Some(doc@),
                None => lookup(self@, uri@) is None,
            },
    {
        match self.position(uri) {
            Some(k) => {
                assert(self@[k as int] == self.documents@[k as int]@);
                assert(find_doc(self@, uri@, 0) == Some(k as int));
                assert(lookup(self@, uri@) == Some(self@[k as int]));
                let doc = &self.documents[k];
                assert(doc@ == self@[k as int]);
                Some(doc)
            },
            None => None,
        }
    }

    /// Every document, in the order they were first opened.
    pub fn documents(&self) -> (docs: &Vec<Document>)
        ensures
            docs_view(docs@) == self@,
    {
        &self.documents
    }

    pub fn len(&self) -> (n: usize)
        ensures
            n == self@.len(),
    {
        self.documents.len()
    }

    pub fn is_empty(&self) -> (b: bool)
        ensures
            b == (self@.len() == 0),
    {
        self.documents.len() == 0
    }
}

// ------------------------------------------------------------ queries

/// The elements of `s` that satisfy `p`, in order.
pub open spec fn keep<T>(s: Seq<T>, p: spec_fn(T) -> bool) -> Seq<T>
    decreases s.len(),
{
    if s.len() == 0 {
        Seq::empty()
    } else if p(s.last()) {
        keep(s.drop_last(), p).push(s.last())
    } else {
        keep(s.drop_last(), p)
    }
}

/// Each kept element of each document, paired with the document's URI.
pub open spec fn tagged<T>(uri: Seq<char>, s: Seq<T>) -> Seq<(Seq<char>, T)> {
    s.map_values(|x: T| (uri, x))
}

/// A declaration that answers a query for `kind` and `name` from `from`,
/// when it lies in the document `uri`.
pub open spec fn defines(kind: SymbolKind, name: Seq<char>, uri: Seq<char>, from: Seq<char>) -> spec_fn(Symbol) -> bool {
    |s: Symbol| kinds_agree(kind, s.kind) && s.name@ == name && !(file_local(s.kind) && uri != from)
}

pub open spec fn all_definitions(docs: Seq<DocumentView>, kind: SymbolKind, name: Seq<char>, from: Seq<char>) -> Seq<(Seq<char>, Symbol)>
    decreases docs.len(),
{
    if docs.len() == 0 {
        Seq::empty()
    } else {
        let d = docs.last();
        all_definitions(docs.drop_last(), kind, name, from) + tagged(
            d.uri,
            keep(flatten(d.symbols.symbols@), defines(kind, name, d.uri, from)),
        )
    }
}

/// A reference that answers a query for `kind` and `name`.
pub open spec fn refers(kind: SymbolKind, name: Seq<char>) -> spec_fn(Reference) -> bool {
    |r: Reference| kinds_agree(kind, r.kind) && r.name@ == name
}

pub open spec fn all_references(docs: Seq<DocumentView>, kind: SymbolKind, name: Seq<char>, from: Seq<char>) -> Seq<(Seq<char>, Reference)>
    decreases docs.len(),
{
    if docs.len() == 0 {
        Seq::empty()
    } else {
        let d = docs.last();
        let here = if file_local(kind) && d.uri != from {
            Seq::empty()
        } else {
            tagged(d.uri, keep(d.symbols.references@, refers(kind, name)))
        };
        all_references(docs.drop_last(), kind, name, from) + here
    }
}

/// A use that answers a query for `kind` and `name` confined to the trigger
/// `scope`: the confinement applies to `{_local}` variables alone, since
/// nothing else is trigger-scoped.
pub open spec fn refers_in(kind: SymbolKind, name: Seq<char>, scope: Option<Range>) -> spec_fn(Reference) -> bool {
    |r: Reference| kinds_agree(kind, r.kind) && r.name@ == name && !(kind is LocalVariable && scope is Some && r.scope != scope)
}

pub open spec fn all_scoped_references(
    docs: Seq<DocumentView>,
    kind: SymbolKind,
    name: Seq<char>,
    from: Seq<char>,
    scope: Option<Range>,
) -> Seq<(Seq<char>, Reference)>
    decreases docs.len(),
{
    if docs.len() == 0 {
        Seq::empty()
    } else {
        let d = docs.last();
        let here = if file_local(kind) && d.uri != from {
            Seq::empty()
        } else {
            tagged(d.uri, keep(d.symbols.references@, refers_in(kind, name, scope)))
        };
        all_scoped_references(docs.drop_last(), kind, name, from, scope) + here
    }
}

proof fn lemma_unscoped(docs: Seq<DocumentView>, kind: SymbolKind, name: Seq<char>, from: Seq<char>)
    ensures
        all_scoped_references(docs, kind, name, from, None) == all_references(docs, kind, name, from),
    decreases docs.len(),
{
    assert(refers_in(kind, name, None) =~= refers(kind, name));
    if docs.len() > 0 {
        lemma_unscoped(docs.drop_last(), kind, name, from);
    }
}

proof fn lemma_keep_holds<T>(s: Seq<T>, p: spec_fn(T) -> bool)
    ensures
        forall|j: int| 0 <= j < keep(s, p).len() ==> p(#[trigger] keep(s, p)[j]),
    decreases s.len(),
{
    if s.len() > 0 {
        lemma_keep_holds(s.drop_last(), p);
        let rest = keep(s.drop_last(), p);
        assert forall|j: int| 0 <= j < keep(s, p).len() implies p(#[trigger] keep(s, p)[j]) by {
            if p(s.last()) {
                assert(keep(s, p) == rest.push(s.last()));
                if j < rest.len() {
                    assert(keep(s, p)[j] == rest[j]);
                }
            } else {
                assert(keep(s, p) == rest);
            }
        }
    }
}

/// Every use the scoped query finds bears the asked name and a kind that
/// answers the asked kind; for a file-local kind (a `local function`, a
/// `{_local}` variable, an option) it lies in the asking file, and for a
/// `{_local}` asked within a trigger it lies in that trigger.
pub proof fn lemma_scoped_references_stay_put(
    docs: Seq<DocumentView>,
    kind: SymbolKind,
    name: Seq<char>,
    from: Seq<char>,
    scope: Option<Range>,
)
    ensures
        forall|j: int| 0 <= j < all_scoped_references(docs, kind, name, from, scope).len() ==> {
            let e = #[trigger] all_scoped_references(docs, kind, name, from, scope)[j];
            &&& e.1.name@ == name
            &&& kinds_agree(kind, e.1.kind)
            &&& file_local(kind) ==> e.0 == from
            &&& (kind is LocalVariable && scope is Some) ==> e.1.scope == scope
        },
    decreases docs.len(),
{
    if docs.len() > 0 {
        let d = docs.last();
        let rest = all_scoped_references(docs.drop_last(), kind, name, from, scope);
        lemma_scoped_references_stay_put(docs.drop_last(), kind, name, from, scope);
        let kept = keep(d.symbols.references@, refers_in(kind, name, scope));
        lemma_keep_holds(d.symbols.references@, refers_in(kind, name, scope));
        let all = all_scoped_references(docs, kind, name, from, scope);
        assert forall|j: int| 0 <= j < all.len() implies {
            let e = #[trigger] all[j];
            &&& e.1.name@ == name
            &&& kinds_agree(kind, e.1.kind)
            &&& file_local(kind) ==> e.0 == from
            &&& (kind is LocalVariable && scope is Some) ==> e.1.scope == scope
        } by {
            if j >= rest.len() {
                assert(!(file_local(kind) && d.uri != from));
                let k = j - rest.len();
                assert(all[j] == (d.uri, kept[k]));
                assert(refers_in(kind, name, scope)(kept[k]));
            } else {
                assert(all[j] == rest[j]);
            }
        }
    }
}

/// A declaration visible from `from` when it lies in the document `uri`.
pub open spec fn visible(uri: Seq<char>, from: Seq<char>) -> spec_fn(Symbol) -> bool {
    |s: Symbol| !(file_local(s.kind) && uri != from)
}

pub open spec fn all_visible(docs: Seq<DocumentView>, from: Seq<char>) -> Seq<(Seq<char>, Symbol)>
    decreases docs.len(),
{
    if docs.len() == 0 {
        Seq::empty()
    } else {
        let d = docs.last();
        all_visible(docs.drop_last(), from) + tagged(d.uri, keep(flatten(d.symbols.symbols@), visible(d.uri, from)))
    }
}

/// Whether `needle` occurs in `hay`.
pub open spec fn contains_text(hay: Seq<char>, needle: Seq<char>) -> bool {
    exists|i: int| 0 <= i <= hay.len() - needle.len() && #[trigger] hay.subrange(i, i + needle.len()) == needle
}

/// A declaration whose name holds the query, ignoring ASCII case.
pub open spec fn matches_query(needle: Seq<char>) -> spec_fn(Symbol) -> bool {
    |s: Symbol| needle.len() == 0 || contains_text(lower_seq(s.name@), needle)
}

pub open spec fn all_matching(docs: Seq<DocumentView>, needle: Seq<char>) -> Seq<(Seq<char>, Symbol)>
    decreases docs.len(),
{
    if docs.len() == 0 {
        Seq::empty()
    } else {
        let d = docs.last();
        all_matching(docs.drop_last(), needle) + tagged(d.uri, keep(flatten(d.symbols.symbols@), matches_query(needle)))
    }
}

pub open spec fn found_symbols(v: Seq<(&Document, &Symbol)>) -> Seq<(Seq<char>, Symbol)> {
    v.map_values(|e: (&Document, &Symbol)| (e.0@.uri, *e.1))
}

pub open spec fn found_references(v: Seq<(&Document, &Reference)>) -> Seq<(Seq<char>, Reference)> {
    v.map_values(|e: (&Document, &Reference)| (e.0@.uri, *e.1))
}

pub(crate) fn contains_chars(hay: &Vec<char>, needle: &Vec<char>) -> (b: bool)
    ensures
        b == contains_text(hay@, needle@),
{
    if needle.len() == 0 {
        assert(hay@.subrange(0int, 0int + needle@.len()) =~= needle@);
        return true;
    }
    if needle.len() > hay.len() {
        return false;
    }
    let n = hay.len();
    let last = n - needle.len();
    let mut i: usize = 0;
    while i <= last
        invariant
            last == hay@.len() - needle@.len(),
            n == hay@.len(),
            last < n,
            i <= last + 1,
            forall|j: int| 0 <= j < i ==> #[trigger] hay@.subrange(j, j + needle@.len()) != needle@,
        decreases last + 1 - i,
    {
        if has_prefix_at(hay, i, needle) {
            assert(hay@.skip(i as int).take(needle@.len() as int) =~= hay@.subrange(i as int, i + needle@.len()));
            return true;
        }
        assert(hay@.skip(i as int).take(needle@.len() as int) =~= hay@.subrange(i as int, i + needle@.len()));
        i += 1;
    }
    false
}

/// Which symbols a query keeps.
enum SymbolFilter {
    Defines(SymbolKind),
    Visible,
    Matches,
}

impl Workspace {
    spec fn filter_spec(f: SymbolFilter, name: Seq<char>, uri: Seq<char>, from: Seq<char>) -> spec_fn(Symbol) -> bool {
        match f {
            SymbolFilter::Defines(kind) => defines(kind, name, uri, from),
            SymbolFilter::Visible => visible(uri, from),
            SymbolFilter::Matches => matches_query(name),
        }
    }

    spec fn all_kept(docs: Seq<DocumentView>, f: SymbolFilter, name: Seq<char>, from: Seq<char>) -> Seq<(Seq<char>, Symbol)>
        decreases docs.len(),
    {
        if docs.len() == 0 {
            Seq::empty()
        } else {
            let d = docs.last();
            Self::all_kept(docs.drop_last(), f, name, from) + tagged(
                d.uri,
                keep(flatten(d.symbols.symbols@), Self::filter_spec(f, name, d.uri, from)),
            )
        }
    }

    proof fn lemma_all_kept(docs: Seq<DocumentView>, f: SymbolFilter, name: Seq<char>, from: Seq<char>)
        ensures
            f matches SymbolFilter::Defines(kind) ==> Self::all_kept(docs, f, name, from) == all_definitions(docs, kind, name, from),
            f is Visible ==> Self::all_kept(docs, f, name, from) == all_visible(docs, from),
            f is Matches ==> Self::all_kept(docs, f, name, from) == all_matching(docs, name),
        decreases docs.len(),
    {
        if docs.len() > 0 {
            Self::lemma_all_kept(docs.drop_last(), f, name, from);
        }
    }

    fn keeps(f: &SymbolFilter, s: &Symbol, name: &Vec<char>, same_file: bool) -> (b: bool)
        ensures
            forall|uri: Seq<char>, from: Seq<char>| (uri == from) == same_file ==> b == Self::filter_spec(*f, name@, uri, from)(*s),
    {
        let local = is_file_local(s.kind);
        match f {
            SymbolFilter::Defines(kind) => {
                let here = chars_of(s.name.as_str());
                kinds_match(*kind, s.kind) && chars_eq(&here, name) && !(local && !same_file)
            },
            SymbolFilter::Visible => !(local && !same_file),
            SymbolFilter::Matches => {
                if name.len() == 0 {
                    true
                } else {
                    let lowered = lower_chars(&chars_of(s.name.as_str()));
                    contains_chars(&lowered, name)
                }
            },
        }
    }

    fn collect(&self, f: SymbolFilter, name: &Vec<char>, from_uri: &str) -> (out: Vec<(&Document, &Symbol)>)
        ensures
            found_symbols(out@) == Self::all_kept(self@, f, name@, from_uri@),
    {
        let from = chars_of(from_uri);
        let ghost docs = self@;
        let mut out: Vec<(&Document, &Symbol)> = Vec::new();
        let mut i: usize = 0;
        assert(found_symbols(out@) =~= Seq::<(Seq<char>, Symbol)>::empty());
        while i < self.documents.len()
            invariant
                i <= self.documents@.len(),
                docs == self@,
                docs == docs_view(self.documents@),
                from@ == from_uri@,
                found_symbols(out@) == Self::all_kept(docs.take(i as int), f, name@, from_uri@),
            decreases self.documents@.len() - i,
        {
            let document = &self.documents[i];
            let ghost d = document@;
            assert(docs[i as int] == d);
            let here = chars_of(document.uri.as_str());
            let same_file = chars_eq(&here, &from);
            let all = document.symbols.flat();
            let ghost fl = flatten(d.symbols.symbols@);
            let ghost p = Self::filter_spec(f, name@, d.uri, from_uri@);
            let ghost base = found_symbols(out@);
            let mut j: usize = 0;
            assert(base + tagged(d.uri, keep(fl.take(0), p)) =~= base);
            while j < all.len()
                invariant
                    j <= all@.len(),
                    derefs(all@) == fl,
                    d == document@,
                    fl == flatten(d.symbols.symbols@),
                    p == Self::filter_spec(f, name@, d.uri, from_uri@),
                    (d.uri == from_uri@) == same_file,
                    found_symbols(out@) == base + tagged(d.uri, keep(fl.take(j as int), p)),
                decreases all@.len() - j,
            {
                let s: &Symbol = all[j];
                assert(fl[j as int] == *s);
                assert(fl.take(j + 1).drop_last() =~= fl.take(j as int));
                assert(fl.take(j + 1).last() == *s);
                let ghost prev = out@;
                if Self::keeps(&f, s, name, same_file) {
                    out.push((document, s));
                    assert(found_symbols(out@) =~= found_symbols(prev).push((d.uri, *s)));
                    assert(tagged(d.uri, keep(fl.take(j + 1), p)) =~= tagged(d.uri, keep(fl.take(j as int), p)).push((d.uri, *s)));
                }
                j += 1;
            }
            assert(fl.take(fl.len() as int) =~= fl);
            i += 1;
            assert(docs.take(i as int).drop_last() =~= docs.take((i - 1) as int));
            assert(docs.take(i as int).last() == d);
        }
        assert(docs.take(docs.len() as int) =~= docs);
        out
    }

    /// Every declaration of `kind` named `name` visible from `from_uri`.
    pub fn definitions(&self, kind: SymbolKind, name: &str, from_uri: &str) -> (out: Vec<(&Document, &Symbol)>)
        ensures
            found_symbols(out@) == all_definitions(self@, kind, name@, from_uri@),
    {
        let wanted = chars_of(name);
        proof {
            Self::lemma_all_kept(self@, SymbolFilter::Defines(kind), name@, from_uri@);
        }
        self.collect(SymbolFilter::Defines(kind), &wanted, from_uri)
    }

    /// Every declaration visible from `from_uri`.
    pub fn symbols_in_scope(&self, from_uri: &str) -> (out: Vec<(&Document, &Symbol)>)
        ensures
            found_symbols(out@) == all_visible(self@, from_uri@),
    {
        let none: Vec<char> = Vec::new();
        proof {
            Self::lemma_all_kept(self@, SymbolFilter::Visible, none@, from_uri@);
        }
        self.collect(SymbolFilter::Visible, &none, from_uri)
    }

    /// Every declaration whose name contains `query`, ignoring ASCII case; all
    /// of them for an empty query.
    pub fn workspace_symbols(&self, query: &str) -> (out: Vec<(&Document, &Symbol)>)
        ensures
            found_symbols(out@) == all_matching(self@, lower_seq(query@)),
    {
        let needle = lower_chars(&chars_of(query));
        proof {
            Self::lemma_all_kept(self@, SymbolFilter::Matches, needle@, ""@);
        }
        self.collect(SymbolFilter::Matches, &needle, "")
    }

    /// Every use of `kind` named `name` that `from_uri` can see: all of them
    /// for a project-wide kind, only those in `from_uri` for a file-local one.
    pub fn references(&self, kind: SymbolKind, name: &str, from_uri: &str) -> (out: Vec<(&Document, &Reference)>)
        ensures
            found_references(out@) == all_references(self@, kind, name@, from_uri@),
    {
        proof {
            lemma_unscoped(self@, kind, name@, from_uri@);
        }
        self.references_in_scope(kind, name, from_uri, None)
    }

    /// As [`Workspace::references`], but confined to one trigger when `scope`
    /// is given. Skript scopes `{_x}` to the running trigger, so renaming
    /// `{_i}` in one trigger must leave every other trigger's `{_i}` alone.
    /// `scope` is ignored for anything that is not a local variable.
    pub fn references_in_scope(
        &self,
        kind: SymbolKind,
        name: &str,
        from_uri: &str,
        scope: Option<Range>,
    ) -> (out: Vec<(&Document, &Reference)>)
        ensures
            found_references(out@) == all_scoped_references(self@, kind, name@, from_uri@, scope),
    {
        let wanted = chars_of(name);
        let from = chars_of(from_uri);
        let local = is_file_local(kind);
        let ghost docs = self@;
        let mut out: Vec<(&Document, &Reference)> = Vec::new();
        let mut i: usize = 0;
        assert(found_references(out@) =~= Seq::<(Seq<char>, Reference)>::empty());
        while i < self.documents.len()
            invariant
                i <= self.documents@.len(),
                docs == self@,
                docs == docs_view(self.documents@),
                from@ == from_uri@,
                wanted@ == name@,
                local == file_local(kind),
                found_references(out@) == all_scoped_references(docs.take(i as int), kind, name@, from_uri@, scope),
            decreases self.documents@.len() - i,
        {
            let document = &self.documents[i];
            let ghost d = document@;
            assert(docs[i as int] == d);
            let here = chars_of(document.uri.as_str());
            let same_file = chars_eq(&here, &from);
            let ghost base = found_references(out@);
            if !(local && !same_file) {
                let refs = &document.symbols.references;
                let ghost rs = d.symbols.references@;
                let ghost p = refers_in(kind, name@, scope);
                let mut j: usize = 0;
                assert(base + tagged(d.uri, keep(rs.take(0), p)) =~= base);
                while j < refs.len()
                    invariant
                        j <= refs@.len(),
                        refs@ == rs,
                        d == document@,
                        rs == d.symbols.references@,
                        p == refers_in(kind, name@, scope),
                        wanted@ == name@,
                        found_references(out@) == base + tagged(d.uri, keep(rs.take(j as int), p)),
                    decreases refs@.len() - j,
                {
                    let r: &Reference = &refs[j];
                    assert(rs.take(j + 1).drop_last() =~= rs.take(j as int));
                    assert(rs.take(j + 1).last() == *r);
                    let ghost prev = out@;
                    let theirs = chars_of(r.name.as_str());
                    let outside = kind == SymbolKind::LocalVariable && scope.is_some() && r.scope != scope;
                    if kinds_match(kind, r.kind) && chars_eq(&theirs, &wanted) && !outside {
                        out.push((document, r));
                        assert(found_references(out@) =~= found_references(prev).push((d.uri, *r)));
                        assert(tagged(d.uri, keep(rs.take(j + 1), p)) =~= tagged(d.uri, keep(rs.take(j as int), p)).push((d.uri, *r)));
                    }
                    j += 1;
                }
                assert(rs.take(rs.len() as int) =~= rs);
            } else {
                assert(base + Seq::<(Seq<char>, Reference)>::empty() =~= base);
            }
            i += 1;
            assert(docs.take(i as int).drop_last() =~= docs.take((i - 1) as int));
            assert(docs.take(i as int).last() == d);
        }
        assert(docs.take(docs.len() as int) =~= docs);
        out
    }
}

} // verus!
