//! Skript's syntax-pattern language.
//!
//! Every effect, condition, expression, event and section is registered as a
//! pattern string such as `give %item types% to %players%` or `[the] leash
//! holder[s] of %entities%`:
//!
//! | Form            | Meaning                                                  |
//! |-----------------|----------------------------------------------------------|
//! | `[x]`           | optional                                                  |
//! | `(a\|b)`        | choice                                                    |
//! | `a\|b` (bare)   | choice, directly inside `[...]` or `(...)`                |
//! | `%type%`        | an expression slot of that type (`~`, `-`, `*` modify it) |
//! | `%a/b%`         | a slot accepting several types                            |
//! | `<regex>`       | a raw regular-expression slot                             |
//! | `:tag` / `1¦`   | parse marks: they select a variant and match no text      |
//! | `\|` `\[` `\]`  | escaped literals                                          |
use vstd::prelude::*;

use crate::strings::{chars_of, is_white, is_white_char, string_of};

verus! {

/// One element of a pattern.
#[derive(Debug, PartialEq, Eq)]
pub enum Node {
    /// Literal text, lowercased and whitespace-collapsed.
    Literal(String),
    /// `[...]`: its contents or nothing.
    Optional(Vec<Node>),
    /// `(a|b|c)`: exactly one branch.
    Choice(Vec<Vec<Node>>),
    /// `%type%`
    Slot(Slot),
    /// `<regex>`, kept as written.
    Regex(String),
}

/// A `%...%` expression slot.
#[derive(Debug, PartialEq, Eq, Default)]
pub struct Slot {
    /// The accepted type names, split on `/`.
    pub types: Vec<String>,
    /// `%~type%`: passed by reference.
    pub by_reference: bool,
    /// `%-type%`: may resolve to nothing.
    pub nullable: bool,
    /// `%*type%`: only a literal may be used here.
    pub literal_only: bool,
}

/// A slot as plain values.
pub struct SlotView {
    pub types: Seq<Seq<char>>,
    pub by_reference: bool,
    pub nullable: bool,
    pub literal_only: bool,
}

/// A node as plain values.
pub enum NodeView {
    Literal(Seq<char>),
    Optional(Seq<NodeView>),
    Choice(Seq<Seq<NodeView>>),
    Slot(SlotView),
    Regex(Seq<char>),
}

pub open spec fn slot_view(s: Slot) -> SlotView {
    SlotView {
        types: s.types@.map_values(|t: String| t@),
        by_reference: s.by_reference,
        nullable: s.nullable,
        literal_only: s.literal_only,
    }
}

pub open spec fn node_view(n: Node) -> NodeView
    decreases n,
{
    match n {
        Node::Literal(t) => NodeView::Literal(t@),
        Node::Optional(inner) => NodeView::Optional(nodes_view(inner@)),
        Node::Choice(branches) => NodeView::Choice(branches_view(branches@)),
        Node::Slot(s) => NodeView::Slot(slot_view(s)),
        Node::Regex(r) => NodeView::Regex(r@),
    }
}

pub open spec fn nodes_view(ns: Seq<Node>) -> Seq<NodeView>
    decreases ns,
{
    if ns.len() == 0 {
        Seq::empty()
    } else {
        proof {
            assert(decreases_to!(ns => ns.last()));
        }
        nodes_view(ns.drop_last()).push(node_view(ns.last()))
    }
}

pub open spec fn branches_view(bs: Seq<Vec<Node>>) -> Seq<Seq<NodeView>>
    decreases bs,
{
    if bs.len() == 0 {
        Seq::empty()
    } else {
        proof {
            assert(decreases_to!(bs => bs.last()));
            assert(decreases_to!(bs.last() => bs.last()@));
        }
        branches_view(bs.drop_last()).push(nodes_view(bs.last()@))
    }
}

pub proof fn lemma_nodes_view_len(ns: Seq<Node>)
    ensures
        nodes_view(ns).len() == ns.len(),
        forall|i: int| 0 <= i < ns.len() ==> #[trigger] nodes_view(ns)[i] == node_view(ns[i]),
    decreases ns.len(),
{
    if ns.len() > 0 {
        lemma_nodes_view_len(ns.drop_last());
        assert forall|i: int| 0 <= i < ns.len() implies #[trigger] nodes_view(ns)[i] == node_view(ns[i]) by {
            if i < ns.len() - 1 {
                assert(ns.drop_last()[i] == ns[i]);
            }
        }
    }
}

pub proof fn lemma_nodes_view_push(ns: Seq<Node>, n: Node)
    ensures
        nodes_view(ns.push(n)) == nodes_view(ns).push(node_view(n)),
{
    assert(ns.push(n).drop_last() =~= ns);
}

pub proof fn lemma_branches_view_push(bs: Seq<Vec<Node>>, b: Vec<Node>)
    ensures
        branches_view(bs.push(b)) == branches_view(bs).push(nodes_view(b@)),
{
    assert(bs.push(b).drop_last() =~= bs);
}

/// A slot that accepts anything: every type it names is `object` or `objects`.
pub open spec fn accepts_anything(s: SlotView) -> bool {
    forall|i: int| 0 <= i < s.types.len() ==> #[trigger] s.types[i] == "object"@ || s.types[i] == "objects"@
}

impl Slot {
    /// `%objects%` and `%~objects%` accept anything: a pattern whose slots are
    /// all `object` is the least specific match.
    pub fn is_object(&self) -> (b: bool)
        ensures
            b == accepts_anything(slot_view(*self)),
            b == forall|i: int|
                0 <= i < self.types@.len() ==> (#[trigger] self.types@[i])@ == "object"@
                    || self.types@[i]@ == "objects"@,
    {
        let object = chars_of("object");
        let objects = chars_of("objects");
        let mut i: usize = 0;
        while i < self.types.len()
            invariant
                i <= self.types@.len(),
                object@ == "object"@,
                objects@ == "objects"@,
                forall|j: int|
                    0 <= j < i ==> (#[trigger] self.types@[j])@ == "object"@ || self.types@[j]@
                        == "objects"@,
            decreases self.types@.len() - i,
        {
            let t = chars_of(self.types[i].as_str());
            if !crate::strings::chars_eq(&t, &object) && !crate::strings::chars_eq(&t, &objects) {
                assert(slot_view(*self).types[i as int] == self.types@[i as int]@);
                return false;
            }
            i += 1;
        }
        true
    }
}

// ------------------------------------------------------------ collapsing

/// What `char::to_lowercase` yields for a character: one or more characters,
/// by Unicode's case mappings.
pub uninterp spec fn lowercase(c: char) -> Seq<char>;

/// The characters of `char::to_lowercase`. Its documentation gives the ASCII
/// case: an ASCII letter lowercases to the one matching ASCII letter, and any
/// other ASCII character to itself.
#[verifier::external_body]
fn lowercase_of(c: char) -> (out: Vec<char>)
    ensures
        out@ == lowercase(c),
        (c as u32) < 128 ==> out@ == seq![crate::strings::lower(c)],
{
    c.to_lowercase().collect()
}

/// The text built so far while collapsing, and whether a space is owed.
pub struct CollapseState {
    pub out: Seq<char>,
    pub pending_space: bool,
}

pub open spec fn collapse_step(st: CollapseState, c: char) -> CollapseState {
    if is_white(c) {
        CollapseState { out: st.out, pending_space: st.out.len() > 0 }
    } else {
        let spaced = if st.pending_space {
            st.out.push(' ')
        } else {
            st.out
        };
        CollapseState { out: spaced + lowercase(c), pending_space: false }
    }
}

pub open spec fn collapse_run(s: Seq<char>) -> CollapseState
    decreases s.len(),
{
    if s.len() == 0 {
        CollapseState { out: Seq::empty(), pending_space: false }
    } else {
        collapse_step(collapse_run(s.drop_last()), s.last())
    }
}

/// Lowercased, with every run of whitespace inside the text made one space
/// and whitespace at either end dropped.
pub open spec fn collapsed(s: Seq<char>) -> Seq<char> {
    collapse_run(s).out
}

/// Lowercases and collapses internal whitespace so that literal comparison is
/// plain equality.
pub fn collapse(text: &Vec<char>) -> (out: Vec<char>)
    ensures
        out@ == collapsed(text@),
{
    let mut out: Vec<char> = Vec::new();
    let mut pending_space = false;
    let mut i: usize = 0;
    while i < text.len()
        invariant
            i <= text@.len(),
            collapse_run(text@.take(i as int)) == (CollapseState { out: out@, pending_space }),
        decreases text@.len() - i,
    {
        let c = text[i];
        assert(text@.take(i + 1).drop_last() =~= text@.take(i as int));
        assert(text@.take(i + 1).last() == c);
        if is_white_char(c) {
            pending_space = out.len() > 0;
        } else {
            if pending_space {
                out.push(' ');
                pending_space = false;
            }
            let low = lowercase_of(c);
            crate::source::append_chars(&mut out, &low);
        }
        i += 1;
    }
    assert(text@.take(text@.len() as int) =~= text@);
    out
}

/// The opening character of a group that `close` ends.
pub open spec fn opening(close: char) -> char {
    if close == ']' {
        '['
    } else if close == ')' {
        '('
    } else if close == '>' {
        '<'
    } else {
        close
    }
}

pub fn opening_for(close: char) -> (open: char)
    ensures
        open == opening(close),
{
    if close == ']' {
        '['
    } else if close == ')' {
        '('
    } else if close == '>' {
        '<'
    } else {
        close
    }
}

// ------------------------------------------------------------ word forms

/// How many spelled-out forms a glued run may expand to before it is left as
/// it was written.
pub const MAX_FUSED_FORMS: usize = 64;

/// Every `prefix + ending`, prefixes outermost.
pub open spec fn cross(prefixes: Seq<Seq<char>>, endings: Seq<Seq<char>>) -> Seq<Seq<char>>
    decreases prefixes.len(),
{
    if prefixes.len() == 0 {
        Seq::empty()
    } else {
        cross(prefixes.drop_last(), endings) + endings.map_values(|e: Seq<char>| prefixes.last() + e)
    }
}

/// As `cross`, collapsing each joined form.
pub open spec fn cross_collapsed(prefixes: Seq<Seq<char>>, endings: Seq<Seq<char>>) -> Seq<Seq<char>>
    decreases prefixes.len(),
{
    if prefixes.len() == 0 {
        Seq::empty()
    } else {
        cross_collapsed(prefixes.drop_last(), endings) + endings.map_values(
            |e: Seq<char>| collapsed(prefixes.last() + e),
        )
    }
}

/// The text alternatives a node can stand for, the empty text meaning
/// "absent"; none for a slot or a regex.
pub open spec fn forms_of(n: NodeView) -> Option<Seq<Seq<char>>>
    decreases n,
{
    match n {
        NodeView::Literal(t) => Some(seq![t]),
        NodeView::Optional(inner) => match sequence_forms_of(inner) {
            Some(f) => Some(f.push(Seq::empty())),
            None => None,
        },
        NodeView::Choice(branches) => choice_forms_of(branches),
        NodeView::Slot(_) => None,
        NodeView::Regex(_) => None,
    }
}

/// The forms of each branch, in order.
pub open spec fn choice_forms_of(branches: Seq<Seq<NodeView>>) -> Option<Seq<Seq<char>>>
    decreases branches,
{
    if branches.len() == 0 {
        Some(Seq::empty())
    } else {
        proof {
            assert(decreases_to!(branches => branches.last()));
        }
        match choice_forms_of(branches.drop_last()) {
            Some(f) => match sequence_forms_of(branches.last()) {
                Some(g) => Some(f + g),
                None => None,
            },
            None => None,
        }
    }
}

/// The cross product of a sequence's forms, or none when a node has none or
/// the product grows past the limit.
pub open spec fn sequence_forms_of(ns: Seq<NodeView>) -> Option<Seq<Seq<char>>>
    decreases ns,
{
    if ns.len() == 0 {
        Some(seq![Seq::empty()])
    } else {
        proof {
            assert(decreases_to!(ns => ns.last()));
        }
        match sequence_forms_of(ns.drop_last()) {
            Some(f) => match forms_of(ns.last()) {
                Some(e) => if f.len() * e.len() > MAX_FUSED_FORMS {
                    None
                } else {
                    Some(cross(f, e))
                },
                None => None,
            },
            None => None,
        }
    }
}

/// The spelled-out forms of a glued run: as `sequence_forms_of`, but each
/// joined form is collapsed.
pub open spec fn run_forms_of(ns: Seq<NodeView>) -> Option<Seq<Seq<char>>>
    decreases ns.len(),
{
    if ns.len() == 0 {
        Some(seq![Seq::empty()])
    } else {
        match run_forms_of(ns.drop_last()) {
            Some(f) => match forms_of(ns.last()) {
                Some(e) => if f.len() * e.len() > MAX_FUSED_FORMS {
                    None
                } else {
                    Some(cross_collapsed(f, e))
                },
                None => None,
            },
            None => None,
        }
    }
}

pub open spec fn vecs_view(v: Seq<Vec<char>>) -> Seq<Seq<char>> {
    v.map_values(|x: Vec<char>| x@)
}

fn concat(a: &Vec<char>, b: &Vec<char>) -> (out: Vec<char>)
    ensures
        out@ == a@ + b@,
{
    let mut out = crate::strings::slice(a, 0, a.len());
    assert(a@.subrange(0, a@.len() as int) == a@);
    crate::source::append_chars(&mut out, b);
    out
}

fn copy_chars(a: &Vec<char>) -> (out: Vec<char>)
    ensures
        out@ == a@,
{
    assert(a@.subrange(0, a@.len() as int) == a@);
    crate::strings::slice(a, 0, a.len())
}

/// Every `prefix + ending`, collapsed when `collapse_each`.
fn cross_of(prefixes: &Vec<Vec<char>>, endings: &Vec<Vec<char>>, collapse_each: bool) -> (out: Vec<Vec<char>>)
    ensures
        collapse_each ==> vecs_view(out@) == cross_collapsed(vecs_view(prefixes@), vecs_view(endings@)),
        !collapse_each ==> vecs_view(out@) == cross(vecs_view(prefixes@), vecs_view(endings@)),
{
    let ghost p = vecs_view(prefixes@);
    let ghost e = vecs_view(endings@);
    let mut out: Vec<Vec<char>> = Vec::new();
    let mut i: usize = 0;
    while i < prefixes.len()
        invariant
            i <= prefixes@.len(),
            p == vecs_view(prefixes@),
            e == vecs_view(endings@),
            collapse_each ==> vecs_view(out@) == cross_collapsed(p.take(i as int), e),
            !collapse_each ==> vecs_view(out@) == cross(p.take(i as int), e),
        decreases prefixes@.len() - i,
    {
        let ghost base = vecs_view(out@);
        let mut j: usize = 0;
        while j < endings.len()
            invariant
                j <= endings@.len(),
                i < prefixes@.len(),
                p == vecs_view(prefixes@),
                e == vecs_view(endings@),
                collapse_each ==> vecs_view(out@) == base + e.take(j as int).map_values(
                    |x: Seq<char>| collapsed(p[i as int] + x),
                ),
                !collapse_each ==> vecs_view(out@) == base + e.take(j as int).map_values(
                    |x: Seq<char>| p[i as int] + x,
                ),
            decreases endings@.len() - j,
        {
            let joined = concat(&prefixes[i], &endings[j]);
            let form = if collapse_each {
                collapse(&joined)
            } else {
                joined
            };
            let ghost before = out@;
            out.push(form);
            proof {
                assert(vecs_view(out@) =~= vecs_view(before).push(form@));
                assert(e.take(j + 1) =~= e.take(j as int).push(e[j as int]));
                assert(e[j as int] == endings@[j as int]@);
                assert(p[i as int] == prefixes@[i as int]@);
                assert(e.take(j + 1).map_values(|x: Seq<char>| collapsed(p[i as int] + x)) =~= e.take(
                    j as int,
                ).map_values(|x: Seq<char>| collapsed(p[i as int] + x)).push(collapsed(p[i as int] + e[j as int])));
                assert(e.take(j + 1).map_values(|x: Seq<char>| p[i as int] + x) =~= e.take(j as int).map_values(
                    |x: Seq<char>| p[i as int] + x,
                ).push(p[i as int] + e[j as int]));
            }
            j += 1;
        }
        proof {
            assert(e.take(e.len() as int) =~= e);
            assert(p.take(i + 1).drop_last() =~= p.take(i as int));
            assert(p.take(i + 1).last() == p[i as int]);
        }
        i += 1;
    }
    assert(p.take(p.len() as int) =~= p);
    out
}

pub open spec fn forms_match(r: Option<Vec<Vec<char>>>, f: Option<Seq<Seq<char>>>) -> bool {
    match f {
        Some(x) => r matches Some(v) && vecs_view(v@) == x,
        None => r is None,
    }
}

/// The text alternatives a node can stand for, `""` meaning "absent".
fn word_forms(node: &Node) -> (r: Option<Vec<Vec<char>>>)
    ensures
        forms_match(r, forms_of(node_view(*node))),
    decreases *node, 0nat,
{
    match node {
        Node::Literal(text) => {
            let v = vec![chars_of(text.as_str())];
            assert(vecs_view(v@) =~= seq![text@]);
            Some(v)
        },
        Node::Optional(inner) => {
            proof {
                assert(decreases_to!(*node => *inner));
                assert(decreases_to!(*inner => inner@));
            }
            match sequence_forms(inner) {
                Some(mut forms) => {
                    let ghost before = vecs_view(forms@);
                    forms.push(Vec::new());
                    assert(vecs_view(forms@) =~= before.push(Seq::empty()));
                    Some(forms)
                },
                None => None,
            }
        },
        Node::Choice(branches) => {
            let ghost bv = branches_view(branches@);
            let mut forms: Vec<Vec<char>> = Vec::new();
            let mut i: usize = 0;
            assert(vecs_view(forms@) =~= Seq::<Seq<char>>::empty());
            assert(branches@.take(0) =~= Seq::<Vec<Node>>::empty());
            proof {
                assert(decreases_to!(*node => *branches));
                assert(decreases_to!(*branches => branches@));
            }
            while i < branches.len()
                invariant
                    i <= branches@.len(),
                    decreases_to!(*node => branches@),
                    forms_of(node_view(*node)) == choice_forms_of(branches_view(branches@)),
                    bv == branches_view(branches@),
                    choice_forms_of(branches_view(branches@.take(i as int))) == Some(vecs_view(forms@)),
                decreases branches@.len() - i,
            {
                proof {
                    assert(decreases_to!(branches@ => branches@[i as int]));
                    assert(decreases_to!(branches@[i as int] => branches@[i as int]@));
                    lemma_branches_view_push(branches@.take(i as int), branches@[i as int]);
                    assert(branches@.take(i + 1) =~= branches@.take(i as int).push(branches@[i as int]));
                }
                match sequence_forms(&branches[i]) {
                    Some(more) => {
                        let ghost before = vecs_view(forms@);
                        let mut j: usize = 0;
                        while j < more.len()
                            invariant
                                j <= more@.len(),
                                vecs_view(forms@) == before + vecs_view(more@).take(j as int),
                            decreases more@.len() - j,
                        {
                            let ghost prev = forms@;
                            forms.push(copy_chars(&more[j]));
                            assert(vecs_view(more@).take(j + 1) =~= vecs_view(more@).take(j as int).push(more@[j as int]@));
                            assert(vecs_view(forms@) =~= vecs_view(prev).push(more@[j as int]@));
                            j += 1;
                        }
                        assert(vecs_view(more@).take(more@.len() as int) =~= vecs_view(more@));
                        proof {
                            let step = branches_view(branches@.take(i + 1));
                            assert(step.drop_last() =~= branches_view(branches@.take(i as int)));
                            assert(step.last() == nodes_view(branches@[i as int]@));
                        }
                    },
                    None => {
                        proof {
                            lemma_branches_view_len(branches@);
                            lemma_branches_view_take(branches@, i + 1);
                            let step = branches_view(branches@.take(i + 1));
                            assert(step.drop_last() == branches_view(branches@.take(i as int)));
                            assert(step.last() == nodes_view(branches@[i as int]@));
                            assert(choice_forms_of(step) is None);
                            lemma_choice_none_extends(branches_view(branches@), i + 1);
                        }
                        return None;
                    },
                }
                i += 1;
            }
            assert(branches@.take(branches@.len() as int) =~= branches@);
            Some(forms)
        },
        Node::Slot(_) => None,
        Node::Regex(_) => None,
    }
}

/// The forms of a run of nodes: plain cross products for a sequence inside a
/// group, collapsed ones for a glued run.
fn run_forms(nodes: &Vec<Node>, collapse_each: bool) -> (r: Option<Vec<Vec<char>>>)
    ensures
        collapse_each ==> forms_match(r, run_forms_of(nodes_view(nodes@))),
        !collapse_each ==> forms_match(r, sequence_forms_of(nodes_view(nodes@))),
    decreases nodes@, 1nat,
{
    let mut forms: Vec<Vec<char>> = vec![Vec::new()];
    assert(vecs_view(forms@) =~= seq![Seq::<char>::empty()]);
    assert(nodes@.take(0) =~= Seq::<Node>::empty());
    let mut i: usize = 0;
    while i < nodes.len()
        invariant
            i <= nodes@.len(),
            collapse_each ==> run_forms_of(nodes_view(nodes@.take(i as int))) == Some(vecs_view(forms@)),
            !collapse_each ==> sequence_forms_of(nodes_view(nodes@.take(i as int))) == Some(vecs_view(forms@)),
        decreases nodes@.len() - i,
    {
        proof {
            assert(decreases_to!(nodes@ => nodes@[i as int]));
            lemma_nodes_view_push(nodes@.take(i as int), nodes@[i as int]);
            assert(nodes@.take(i + 1) =~= nodes@.take(i as int).push(nodes@[i as int]));
            lemma_nodes_view_len(nodes@.take(i + 1));
        }
        let ghost step = nodes_view(nodes@.take(i + 1));
        assert(step.drop_last() == nodes_view(nodes@.take(i as int)));
        assert(step.last() == node_view(nodes@[i as int]));
        let endings = match word_forms(&nodes[i]) {
            Some(e) => e,
            None => {
                proof {
                    lemma_nodes_view_len(nodes@);
                    lemma_nodes_view_take(nodes@, i + 1);
                    if collapse_each {
                        assert(run_forms_of(step) is None);
                    } else {
                        assert(sequence_forms_of(step) is None);
                    }
                    lemma_forms_none_extends(nodes_view(nodes@), i + 1);
                }
                return None;
            },
        };
        let too_many = match forms.len().checked_mul(endings.len()) {
            Some(product) => product > MAX_FUSED_FORMS,
            None => true,
        };
        if too_many {
            proof {
                lemma_nodes_view_len(nodes@);
                lemma_nodes_view_take(nodes@, i + 1);
                if collapse_each {
                    assert(run_forms_of(step) is None);
                } else {
                    assert(sequence_forms_of(step) is None);
                }
                lemma_forms_none_extends(nodes_view(nodes@), i + 1);
            }
            return None;
        }
        forms = cross_of(&forms, &endings, collapse_each);
        i += 1;
    }
    assert(nodes@.take(nodes@.len() as int) =~= nodes@);
    Some(forms)
}

/// The cross product of a sequence's word forms.
fn sequence_forms(nodes: &Vec<Node>) -> (r: Option<Vec<Vec<char>>>)
    ensures
        forms_match(r, sequence_forms_of(nodes_view(nodes@))),
    decreases nodes@, 2nat,
{
    run_forms(nodes, false)
}

pub proof fn lemma_nodes_view_take(ns: Seq<Node>, k: int)
    requires
        0 <= k <= ns.len(),
    ensures
        nodes_view(ns.take(k)) == nodes_view(ns).take(k),
{
    lemma_nodes_view_len(ns);
    lemma_nodes_view_len(ns.take(k));
    assert(nodes_view(ns.take(k)) =~= nodes_view(ns).take(k));
}

pub proof fn lemma_branches_view_take(bs: Seq<Vec<Node>>, k: int)
    requires
        0 <= k <= bs.len(),
    ensures
        branches_view(bs.take(k)) == branches_view(bs).take(k),
    decreases bs.len(),
{
    if k < bs.len() {
        lemma_branches_view_take(bs.drop_last(), k);
        assert(bs.drop_last().take(k) =~= bs.take(k));
        lemma_branches_view_len(bs);
        assert(branches_view(bs).drop_last().take(k) =~= branches_view(bs).take(k));
    } else {
        assert(bs.take(k) =~= bs);
        lemma_branches_view_len(bs);
        assert(branches_view(bs).take(k) =~= branches_view(bs));
    }
}

pub proof fn lemma_branches_view_len(bs: Seq<Vec<Node>>)
    ensures
        branches_view(bs).len() == bs.len(),
    decreases bs.len(),
{
    if bs.len() > 0 {
        lemma_branches_view_len(bs.drop_last());
    }
}

/// Once a prefix of the branches has no forms, the whole choice has none.
pub proof fn lemma_choice_none_extends(bs: Seq<Seq<NodeView>>, k: int)
    requires
        0 <= k <= bs.len(),
        choice_forms_of(bs.take(k)) is None,
    ensures
        choice_forms_of(bs) is None,
    decreases bs.len() - k,
{
    if k < bs.len() {
        assert(bs.take(k + 1).drop_last() =~= bs.take(k));
        lemma_choice_none_extends(bs, k + 1);
    } else {
        assert(bs.take(k) =~= bs);
    }
}

/// Once a prefix of a sequence has no forms, the whole sequence has none.
pub proof fn lemma_forms_none_extends(ns: Seq<NodeView>, k: int)
    requires
        0 <= k <= ns.len(),
        sequence_forms_of(ns.take(k)) is None || run_forms_of(ns.take(k)) is None,
    ensures
        sequence_forms_of(ns.take(k)) is None ==> sequence_forms_of(ns) is None,
        run_forms_of(ns.take(k)) is None ==> run_forms_of(ns) is None,
    decreases ns.len() - k,
{
    if k < ns.len() {
        assert(ns.take(k + 1).drop_last() =~= ns.take(k));
        lemma_forms_none_extends(ns, k + 1);
    } else {
        assert(ns.take(k) =~= ns);
    }
}

// ------------------------------------------------------------ sorted forms

/// The order of `str`: code point by code point, a prefix first.
pub open spec fn lex_lt(a: Seq<char>, b: Seq<char>) -> bool
    decreases a.len(),
{
    if a.len() == 0 {
        b.len() > 0
    } else if b.len() == 0 {
        false
    } else if a[0] != b[0] {
        a[0] < b[0]
    } else {
        lex_lt(a.skip(1), b.skip(1))
    }
}

/// `x` inserted into a sorted list without duplicates.
pub open spec fn insert_sorted(v: Seq<Seq<char>>, x: Seq<char>) -> Seq<Seq<char>>
    decreases v.len(),
{
    if v.len() == 0 {
        seq![x]
    } else if v[0] == x {
        v
    } else if lex_lt(x, v[0]) {
        seq![x] + v
    } else {
        seq![v[0]] + insert_sorted(v.skip(1), x)
    }
}

/// The distinct non-empty forms, sorted.
pub open spec fn sorted_forms(forms: Seq<Seq<char>>) -> Seq<Seq<char>>
    decreases forms.len(),
{
    if forms.len() == 0 {
        Seq::empty()
    } else {
        let rest = sorted_forms(forms.drop_last());
        if forms.last().len() == 0 {
            rest
        } else {
            insert_sorted(rest, forms.last())
        }
    }
}

fn lex_less(a: &Vec<char>, b: &Vec<char>) -> (r: bool)
    ensures
        r == lex_lt(a@, b@),
{
    let mut i: usize = 0;
    assert(a@.skip(0) =~= a@);
    assert(b@.skip(0) =~= b@);
    while i < a.len() && i < b.len() && a[i] == b[i]
        invariant
            i <= a@.len(),
            i <= b@.len(),
            lex_lt(a@, b@) == lex_lt(a@.skip(i as int), b@.skip(i as int)),
        decreases a@.len() - i,
    {
        assert(a@.skip(i as int).skip(1) =~= a@.skip(i + 1));
        assert(b@.skip(i as int).skip(1) =~= b@.skip(i + 1));
        i += 1;
    }
    if i == a.len() {
        i < b.len()
    } else if i == b.len() {
        false
    } else {
        assert(a@.skip(i as int)[0] == a@[i as int]);
        assert(b@.skip(i as int)[0] == b@[i as int]);
        a[i] < b[i]
    }
}

fn insert_form(v: &mut Vec<Vec<char>>, x: Vec<char>)
    ensures
        vecs_view(final(v)@) == insert_sorted(vecs_view(old(v)@), x@),
{
    let ghost whole = vecs_view(v@);
    let mut k: usize = 0;
    assert(whole.skip(0) =~= whole);
    assert(whole.take(0) + insert_sorted(whole.skip(0), x@) =~= insert_sorted(whole, x@));
    while k < v.len()
        invariant
            k <= v@.len(),
            vecs_view(v@) == whole,
            whole == vecs_view(old(v)@),
            insert_sorted(whole, x@) == whole.take(k as int) + insert_sorted(whole.skip(k as int), x@),
        decreases v@.len() - k,
    {
        let ghost rest = whole.skip(k as int);
        assert(rest[0] == v@[k as int]@);
        assert(rest.skip(1) =~= whole.skip(k + 1));
        if crate::strings::chars_eq(&v[k], &x) {
            assert(rest.len() > 0 && rest[0] == x@);
            assert(insert_sorted(rest, x@) == rest);
            assert(whole.take(k as int) + rest =~= whole);
            assert(vecs_view(v@) == insert_sorted(whole, x@));
            return;
        }
        if lex_less(&x, &v[k]) {
            let ghost before = v@;
            let ghost xv = x@;
            assert(rest.len() > 0 && rest[0] != xv && lex_lt(xv, rest[0]));
            assert(insert_sorted(rest, xv) == seq![xv] + rest);
            v.insert(k, x);
            assert(v@ == before.insert(k as int, x));
            assert(vecs_view(v@) =~= whole.take(k as int) + (seq![xv] + rest));
            assert(vecs_view(v@) == insert_sorted(whole, xv));
            return;
        }
        assert(whole.take(k + 1) =~= whole.take(k as int) + seq![rest[0]]);
        k += 1;
    }
    let ghost before = v@;
    v.push(x);
    assert(whole.skip(k as int) =~= Seq::<Seq<char>>::empty());
    assert(vecs_view(v@) =~= whole.take(k as int) + seq![x@]);
}

// ------------------------------------------------------------ spelling out

/// The single node a glued run spells out to, when it can be enumerated.
pub open spec fn spelled_node(run: Seq<NodeView>) -> Option<NodeView> {
    match run_forms_of(run) {
        None => None,
        Some(forms) => {
            let kept = sorted_forms(forms);
            if kept.len() == 0 {
                None
            } else {
                let node = if kept.len() == 1 {
                    NodeView::Literal(kept[0])
                } else {
                    NodeView::Choice(kept.map_values(|form: Seq<char>| seq![NodeView::Literal(form)]))
                };
                if forms.contains(Seq::empty()) {
                    Some(NodeView::Optional(seq![node]))
                } else {
                    Some(node)
                }
            }
        },
    }
}

/// Every whole-word string a glued run can produce, as a single node.
fn spell_out(run: &Vec<Node>) -> (r: Option<Node>)
    ensures
        match spelled_node(nodes_view(run@)) {
            Some(n) => r matches Some(x) && node_view(x) == n,
            None => r is None,
        },
{
    let forms = match run_forms(run, true) {
        Some(f) => f,
        None => {
            return None;
        },
    };
    let ghost fv = vecs_view(forms@);
    let mut optional = false;
    let mut kept: Vec<Vec<char>> = Vec::new();
    let mut i: usize = 0;
    assert(vecs_view(kept@) =~= Seq::<Seq<char>>::empty());
    while i < forms.len()
        invariant
            i <= forms@.len(),
            fv == vecs_view(forms@),
            vecs_view(kept@) == sorted_forms(fv.take(i as int)),
            optional == (exists|w: int| 0 <= w < i && #[trigger] fv[w] == Seq::<char>::empty()),
        decreases forms@.len() - i,
    {
        assert(fv.take(i + 1).drop_last() =~= fv.take(i as int));
        assert(fv.take(i + 1).last() == forms@[i as int]@);
        assert(fv[i as int] == forms@[i as int]@);
        if forms[i].len() == 0 {
            assert(fv[i as int] =~= Seq::<char>::empty());
            optional = true;
        } else {
            insert_form(&mut kept, copy_chars(&forms[i]));
        }
        i += 1;
    }
    assert(optional == fv.contains(Seq::<char>::empty()));
    assert(fv.take(fv.len() as int) =~= fv);
    if kept.len() == 0 {
        return None;
    }
    let ghost kv = vecs_view(kept@);
    let node = if kept.len() == 1 {
        let only = string_of(&kept[0]);
        Node::Literal(only)
    } else {
        let mut branches: Vec<Vec<Node>> = Vec::new();
        let mut j: usize = 0;
        while j < kept.len()
            invariant
                j <= kept@.len(),
                kv == vecs_view(kept@),
                branches_view(branches@) == kv.take(j as int).map_values(
                    |form: Seq<char>| seq![NodeView::Literal(form)],
                ),
            decreases kept@.len() - j,
        {
            let text = string_of(&kept[j]);
            assert(text@ == kv[j as int]);
            let lit = Node::Literal(text);
            assert(node_view(lit) == NodeView::Literal(kv[j as int]));
            let branch = vec![lit];
            proof {
                assert(branch@ =~= seq![lit]);
                assert(branch@.drop_last() =~= Seq::<Node>::empty());
                assert(nodes_view(Seq::<Node>::empty()) == Seq::<NodeView>::empty());
                assert(branch@.last() == lit);
                assert(nodes_view(branch@) =~= seq![NodeView::Literal(kv[j as int])]);
                lemma_branches_view_push(branches@, branch);
                assert(kv.take(j + 1).map_values(|form: Seq<char>| seq![NodeView::Literal(form)]) =~= kv.take(
                    j as int,
                ).map_values(|form: Seq<char>| seq![NodeView::Literal(form)]).push(seq![NodeView::Literal(kv[j as int])]));
            }
            branches.push(branch);
            j += 1;
        }
        assert(kv.take(kv.len() as int) =~= kv);
        Node::Choice(branches)
    };
    if optional {
        let inner = vec![node];
        proof {
            assert(inner@ =~= seq![node]);
            assert(inner@.drop_last() =~= Seq::<Node>::empty());
            assert(nodes_view(Seq::<Node>::empty()) == Seq::<NodeView>::empty());
            assert(inner@.last() == node);
            assert(nodes_view(inner@) =~= seq![node_view(node)]);
        }
        Some(Node::Optional(inner))
    } else {
        Some(node)
    }
}

// ------------------------------------------------------------ fusing

/// A node with a spelled-out form: a literal, an optional or a choice.
pub open spec fn fusable(n: NodeView) -> bool {
    n is Literal || n is Optional || n is Choice
}

/// A pending glued run, collapsed into one node when it can be spelled out.
pub open spec fn flushed(run: Seq<NodeView>) -> Seq<NodeView> {
    if run.len() < 2 {
        run
    } else {
        match spelled_node(run) {
            Some(n) => seq![n],
            None => run,
        }
    }
}

pub struct FuseState {
    pub out: Seq<NodeView>,
    pub run: Seq<NodeView>,
}

pub open spec fn fuse_run(nodes: Seq<NodeView>, glued: Seq<bool>, i: int) -> FuseState
    decreases i,
{
    if i <= 0 {
        FuseState { out: Seq::empty(), run: Seq::empty() }
    } else {
        let st = fuse_run(nodes, glued, i - 1);
        let n = nodes[i - 1];
        let breaks = !glued[i - 1] || !fusable(n);
        let out1 = if breaks {
            st.out + flushed(st.run)
        } else {
            st.out
        };
        let run1 = if breaks {
            Seq::empty()
        } else {
            st.run
        };
        if fusable(n) {
            FuseState { out: out1, run: run1.push(n) }
        } else {
            FuseState { out: out1.push(n), run: run1 }
        }
    }
}

/// Nodes written flush against each other joined into whole words:
/// `glued[i]` says node `i` is written with no space before it.
pub open spec fn fused(nodes: Seq<NodeView>, glued: Seq<bool>) -> Seq<NodeView> {
    if nodes.len() < 2 || glued.len() != nodes.len() {
        nodes
    } else {
        let st = fuse_run(nodes, glued, nodes.len() as int);
        st.out + flushed(st.run)
    }
}

fn is_fusable(node: &Node) -> (b: bool)
    ensures
        b == fusable(node_view(*node)),
{
    match node {
        Node::Literal(_) => true,
        Node::Optional(_) => true,
        Node::Choice(_) => true,
        _ => false,
    }
}

/// Collapses a pending glued run into one node, or returns it untouched.
fn flush_run(run: &mut Vec<Node>) -> (out: Vec<Node>)
    ensures
        nodes_view(out@) == flushed(nodes_view(old(run)@)),
        final(run)@.len() == 0,
{
    let mut taken: Vec<Node> = Vec::new();
    std::mem::swap(&mut taken, run);
    proof {
        lemma_nodes_view_len(taken@);
    }
    if taken.len() < 2 {
        return taken;
    }
    match spell_out(&taken) {
        Some(node) => {
            let out = vec![node];
            proof {
                assert(out@ =~= seq![node]);
                assert(out@.drop_last() =~= Seq::<Node>::empty());
                assert(nodes_view(Seq::<Node>::empty()) == Seq::<NodeView>::empty());
                assert(out@.last() == node);
                assert(nodes_view(out@) =~= seq![node_view(node)]);
            }
            out
        },
        None => taken,
    }
}

fn append_nodes(out: &mut Vec<Node>, more: Vec<Node>)
    ensures
        nodes_view(final(out)@) == nodes_view(old(out)@) + nodes_view(more@),
{
    let mut more = more;
    let ghost start = nodes_view(out@);
    let ghost all = nodes_view(more@);
    proof {
        lemma_nodes_view_len(more@);
        assert(more@.skip(0) =~= more@);
        assert(start + all.take(0) =~= start);
    }
    let mut done: usize = 0;
    let total = more.len();
    while more.len() > 0
        invariant
            done + more@.len() == total,
            total == all.len(),
            nodes_view(more@) == all.skip(done as int),
            nodes_view(out@) == start + all.take(done as int),
        decreases more@.len(),
    {
        let ghost before = more@;
        let node = more.remove(0);
        proof {
            lemma_nodes_view_len(before);
            lemma_nodes_view_len(more@);
            assert(before =~= seq![node] + more@);
            assert(node_view(node) == nodes_view(before)[0]);
            assert(nodes_view(more@) =~= nodes_view(before).skip(1)) by {
                assert forall|i: int| 0 <= i < more@.len() implies nodes_view(more@)[i] == nodes_view(before).skip(1)[i] by {
                    assert(more@[i] == before[i + 1]);
                }
            }
            lemma_nodes_view_push(out@, node);
        }
        out.push(node);
        done += 1;
        proof {
            assert(all.skip((done - 1) as int)[0] == all[(done - 1) as int]);
            assert(all.take(done as int) =~= all.take((done - 1) as int).push(all[(done - 1) as int]));
            assert(all.skip(done as int) =~= all.skip((done - 1) as int).skip(1));
        }
    }
    assert(all.take(total as int) =~= all);
}

/// Joins nodes that are written with no space between them into whole words,
/// so `cancel[l]ed` becomes the choice of `cancelled` and `canceled`.
pub fn fuse_glued(nodes: Vec<Node>, glued: &Vec<bool>) -> (out: Vec<Node>)
    ensures
        nodes_view(out@) == fused(nodes_view(nodes@), glued@),
{
    let ghost nv = nodes_view(nodes@);
    proof {
        lemma_nodes_view_len(nodes@);
    }
    if nodes.len() < 2 || glued.len() != nodes.len() {
        return nodes;
    }
    let total = nodes.len();
    let mut rest = nodes;
    let mut out: Vec<Node> = Vec::new();
    let mut run: Vec<Node> = Vec::new();
    let mut i: usize = 0;
    proof {
        assert(rest@.skip(0) =~= rest@);
    }
    while i < total
        invariant
            total == nv.len(),
            glued@.len() == total,
            i <= total,
            i + rest@.len() == total,
            nodes_view(rest@) == nv.skip(i as int),
            fuse_run(nv, glued@, i as int) == (FuseState { out: nodes_view(out@), run: nodes_view(run@) }),
        decreases total - i,
    {
        let ghost before = rest@;
        let node = rest.remove(0);
        proof {
            lemma_nodes_view_len(before);
            lemma_nodes_view_len(rest@);
            assert(before =~= seq![node] + rest@);
            assert(node_view(node) == nodes_view(before)[0]);
            assert(nv.skip(i as int)[0] == nv[i as int]);
            assert(nodes_view(rest@) =~= nv.skip(i + 1)) by {
                assert forall|k: int| 0 <= k < rest@.len() implies nodes_view(rest@)[k] == nv.skip(i + 1)[k] by {
                    assert(rest@[k] == before[k + 1]);
                    assert(nodes_view(before)[k + 1] == nv.skip(i as int)[k + 1]);
                }
            }
        }
        let fusable_here = is_fusable(&node);
        if !glued[i] || !fusable_here {
            let flushed_run = flush_run(&mut run);
            append_nodes(&mut out, flushed_run);
            assert(nodes_view(run@) =~= Seq::<NodeView>::empty());
        }
        if fusable_here {
            proof {
                lemma_nodes_view_push(run@, node);
            }
            run.push(node);
        } else {
            proof {
                lemma_nodes_view_push(out@, node);
            }
            out.push(node);
        }
        i += 1;
    }
    let last = flush_run(&mut run);
    append_nodes(&mut out, last);
    out
}

} // verus!
