//! Reading a pattern string into its nodes.
//!
//! The parser walks the characters once. A `[` or `(` starts a nested group,
//! read by the same procedure up to its closing bracket; a bare `|` closes the
//! branch being read; `%...%` and `<...>` are read whole. Literal text is
//! gathered until something else comes along, then collapsed and kept, and the
//! nodes of each branch written flush against each other are fused into whole
//! words.
use vstd::prelude::*;

use crate::pattern::{
    accepts_anything,
    branches_view, collapse, collapsed, fuse_glued, fused, lemma_branches_view_len,
    lemma_branches_view_take, lemma_nodes_view_take,
    lemma_branches_view_push, lemma_nodes_view_len, lemma_nodes_view_push, node_view, nodes_view,
    opening, opening_for, slot_view, vecs_view, Node, NodeView, Slot, SlotView,
};
use crate::strings::{
    byte_len, byte_offset, chars_of, is_digit, is_white, is_white_char, lead_by, lower_chars,
    lower_seq, slice, split_chars, split_on, string_of, trail_by, trim, trim_chars,
};

verus! {

// ------------------------------------------------------------ the model

/// Where the reading of one group stands: the branches already closed, the
/// nodes of the branch being read, the literal text not yet kept, whether
/// whitespace separates the last node from what comes next, which nodes were
/// written flush against the one before, and whether a parse mark's colon may
/// come next.
pub struct ParseState {
    pub branches: Seq<Seq<NodeView>>,
    pub current: Seq<NodeView>,
    pub literal: Seq<char>,
    pub gap: bool,
    pub glued: Seq<bool>,
    pub at_start: bool,
}

pub open spec fn fresh_state() -> ParseState {
    ParseState {
        branches: Seq::empty(),
        current: Seq::empty(),
        literal: Seq::empty(),
        gap: true,
        glued: Seq::empty(),
        at_start: true,
    }
}

/// The pending literal text, collapsed, becomes a node of the current branch
/// (when anything is left of it).
pub open spec fn flushed_literal(st: ParseState) -> ParseState {
    let text = collapsed(st.literal);
    let base = ParseState { literal: Seq::empty(), ..st };
    if text.len() > 0 {
        ParseState {
            current: st.current.push(NodeView::Literal(text)),
            glued: st.glued.push(!st.gap && !(st.literal.len() > 0 && is_white(st.literal[0]))),
            gap: st.literal.len() > 0 && is_white(st.literal.last()),
            ..base
        }
    } else if st.literal.len() > 0 {
        ParseState { gap: true, ..base }
    } else {
        base
    }
}

/// A group, slot or regex joins the current branch.
pub open spec fn with_group(st: ParseState, n: NodeView) -> ParseState {
    ParseState { glued: st.glued.push(!st.gap), current: st.current.push(n), gap: false, ..st }
}

/// The branches once the one being read is closed and fused.
pub open spec fn closed_branches(st: ParseState) -> Seq<Seq<NodeView>> {
    st.branches.push(fused(st.current, st.glued))
}

/// One branch stands for itself; several make a choice.
pub open spec fn finished(branches: Seq<Seq<NodeView>>) -> Seq<NodeView> {
    if branches.len() == 1 {
        branches[0]
    } else {
        seq![NodeView::Choice(branches)]
    }
}

/// Whether a parse mark's colon may follow `ch`: a `|` opens an alternative,
/// a space or tab keeps whatever held before, anything else ends the start.
pub open spec fn still_at_start(at_start: bool, ch: char) -> bool {
    if ch == '|' {
        true
    } else if ch == ' ' || ch == '\t' {
        at_start
    } else {
        false
    }
}

pub open spec fn after(st: ParseState, ch: char) -> ParseState {
    ParseState { at_start: still_at_start(st.at_start, ch), ..st }
}

pub open spec fn unclosed_message(open: char) -> Seq<char> {
    "unclosed `"@ + seq![open, '`']
}

/// The first index at or after `k` that holds `c`.
pub open spec fn find_from(s: Seq<char>, k: int, c: char) -> Option<int>
    decreases s.len() - k,
{
    if k < 0 || k >= s.len() {
        None
    } else if s[k] == c {
        Some(k)
    } else {
        find_from(s, k + 1, c)
    }
}

pub proof fn lemma_find_from(s: Seq<char>, k: int, c: char)
    requires
        0 <= k,
    ensures
        find_from(s, k, c) matches Some(e) ==> k <= e < s.len() && s[e] == c,
    decreases s.len() - k,
{
    if k < s.len() && s[k] != c {
        lemma_find_from(s, k + 1, c);
    }
}

/// Whether a `<` just before index `k` opens a regex: a `>` comes before any
/// `|`, `)`, `]` or `%`. Otherwise it is the less-than sign.
pub open spec fn regex_closes(s: Seq<char>, k: int) -> bool
    decreases s.len() - k,
{
    if k < 0 || k >= s.len() {
        false
    } else if s[k] == '>' {
        true
    } else if s[k] == '|' || s[k] == ')' || s[k] == ']' || s[k] == '%' {
        false
    } else {
        regex_closes(s, k + 1)
    }
}

pub open spec fn is_flag(c: char) -> bool {
    c == '~' || c == '-' || c == '*'
}

pub open spec fn flag() -> spec_fn(char) -> bool {
    |c: char| is_flag(c)
}

pub open spec fn digit() -> spec_fn(char) -> bool {
    |c: char| is_digit(c)
}

/// The type names of a slot: each piece trimmed and lowercased, empty ones
/// dropped.
pub open spec fn slot_types(parts: Seq<Seq<char>>) -> Seq<Seq<char>>
    decreases parts.len(),
{
    if parts.len() == 0 {
        Seq::empty()
    } else {
        let name = lower_seq(trim(parts.last()));
        if name.len() > 0 {
            slot_types(parts.drop_last()).push(name)
        } else {
            slot_types(parts.drop_last())
        }
    }
}

/// The slot that `%body%` declares: its leading `~`, `-` and `*` set the
/// modifiers, and the rest is split on `/` into type names.
pub open spec fn slot_of(body: Seq<char>) -> SlotView {
    let n = lead_by(body, flag()) as int;
    SlotView {
        types: slot_types(split_on(body.skip(n), '/')),
        by_reference: exists|j: int| 0 <= j < n && body[j] == '~',
        nullable: exists|j: int| 0 <= j < n && body[j] == '-',
        literal_only: exists|j: int| 0 <= j < n && body[j] == '*',
    }
}

/// A parenthesised group: a lone choice stands for itself, anything else is
/// a choice of one branch.
pub open spec fn choice_of(inner: Seq<NodeView>) -> NodeView {
    if inner.len() == 1 && inner[0] is Choice {
        inner[0]
    } else {
        NodeView::Choice(seq![inner])
    }
}

/// Reads `s` from index `pos` with the group state `st`, up to `term` (or the
/// end when there is none). The result is the group's nodes or an error
/// message with its byte offset, and the index just past what was read.
pub open spec fn parse_from(s: Seq<char>, pos: int, term: Option<char>, st: ParseState) -> (
    Result<Seq<NodeView>, (Seq<char>, int)>,
    int,
)
    decreases s.len() - pos,
{
    if pos < 0 || pos >= s.len() {
        match term {
            Some(t) => (Err((unclosed_message(opening(t)), byte_len(s) as int)), pos),
            None => (Ok(finished(closed_branches(flushed_literal(st)))), pos),
        }
    } else {
        let ch = s[pos];
        if term == Some(ch) {
            (Ok(finished(closed_branches(flushed_literal(st)))), pos + 1)
        } else if ch == '\\' {
            if pos + 1 < s.len() {
                parse_from(
                    s,
                    pos + 2,
                    term,
                    after(ParseState { literal: st.literal.push(s[pos + 1]), ..st }, ch),
                )
            } else {
                parse_from(s, pos + 1, term, after(st, ch))
            }
        } else if ch == '|' {
            let f = flushed_literal(st);
            parse_from(
                s,
                pos + 1,
                term,
                after(
                    ParseState {
                        branches: closed_branches(f),
                        current: Seq::empty(),
                        glued: Seq::empty(),
                        gap: true,
                        ..f
                    },
                    ch,
                ),
            )
        } else if ch == '[' || ch == '(' {
            let f = flushed_literal(st);
            let close = if ch == '[' {
                ']'
            } else {
                ')'
            };
            let (inner, end) = parse_from(s, pos + 1, Some(close), fresh_state());
            match inner {
                Err(e) => (Err(e), end),
                Ok(nodes) => if pos < end <= s.len() {
                    let group = if ch == '[' {
                        NodeView::Optional(nodes)
                    } else {
                        choice_of(nodes)
                    };
                    parse_from(s, end, term, after(with_group(f, group), ch))
                } else {
                    (Err((Seq::empty(), end)), end)
                },
            }
        } else if ch == '%' || (ch == '<' && regex_closes(s, pos + 1)) {
            let f = flushed_literal(st);
            let close = if ch == '%' {
                '%'
            } else {
                '>'
            };
            proof {
                lemma_find_from(s, pos + 1, close);
            }
            match find_from(s, pos + 1, close) {
                None => (
                    Err((unclosed_message(opening(close)), byte_len(s.take(pos)) as int)),
                    s.len() as int,
                ),
                Some(end) => {
                    let body = s.subrange(pos + 1, end);
                    let node = if ch == '%' {
                        NodeView::Slot(slot_of(body))
                    } else {
                        NodeView::Regex(body)
                    };
                    parse_from(s, end + 1, term, after(with_group(f, node), ch))
                },
            }
        } else if ch == ':' && st.at_start {
            parse_from(s, pos + 1, term, after(st, ch))
        } else if ch == '¦' {
            let lit = st.literal.take(st.literal.len() - trail_by(st.literal, digit()));
            parse_from(s, pos + 1, term, after(ParseState { literal: lit, ..st }, ch))
        } else {
            parse_from(s, pos + 1, term, after(ParseState { literal: st.literal.push(ch), ..st }, ch))
        }
    }
}

/// The nodes that a whole pattern string parses to, or the error.
pub open spec fn parsed(s: Seq<char>) -> Result<Seq<NodeView>, (Seq<char>, int)> {
    parse_from(s, 0, None, fresh_state()).0
}

/// What a parse result stands for.
pub open spec fn outcome_view(r: (Result<Vec<Node>, ParseError>, usize)) -> (
    Result<Seq<NodeView>, (Seq<char>, int)>,
    int,
) {
    (
        match r.0 {
            Ok(nodes) => Ok(nodes_view(nodes@)),
            Err(e) => Err((e.message@, e.offset as int)),
        },
        r.1 as int,
    )
}

// ------------------------------------------------------------ errors

/// A pattern that could not be read.
#[derive(Debug, Clone, PartialEq, Eq)]
pub struct ParseError {
    pub message: String,
    /// Byte offset into the pattern source.
    pub offset: usize,
}

fn unclosed(open: char) -> (m: String)
    ensures
        m@ == unclosed_message(open),
{
    let mut text = chars_of("unclosed `");
    text.push(open);
    text.push('`');
    string_of(&text)
}

// ------------------------------------------------------------ scanning

pub(crate) fn find_index_from(s: &Vec<char>, k: usize, c: char) -> (r: Option<usize>)
    requires
        k <= s@.len(),
    ensures
        match find_from(s@, k as int, c) {
            Some(e) => r == Some(e as usize),
            None => r is None,
        },
{
    let mut i = k;
    while i < s.len()
        invariant
            k <= i <= s@.len(),
            find_from(s@, k as int, c) == find_from(s@, i as int, c),
        decreases s@.len() - i,
    {
        if s[i] == c {
            return Some(i);
        }
        i += 1;
    }
    None
}

fn closes_as_regex(s: &Vec<char>, k: usize) -> (b: bool)
    requires
        k <= s@.len(),
    ensures
        b == regex_closes(s@, k as int),
{
    let mut i = k;
    while i < s.len()
        invariant
            k <= i <= s@.len(),
            regex_closes(s@, k as int) == regex_closes(s@, i as int),
        decreases s@.len() - i,
    {
        let c = s[i];
        if c == '>' {
            return true;
        }
        if c == '|' || c == ')' || c == ']' || c == '%' {
            return false;
        }
        i += 1;
    }
    false
}

/// Reads the body of a `%...%` slot.
fn parse_slot(body: &Vec<char>) -> (slot: Slot)
    ensures
        slot_view(slot) == slot_of(body@),
{
    let mut n: usize = 0;
    let mut by_reference = false;
    let mut nullable = false;
    let mut literal_only = false;
    while n < body.len() && (body[n] == '~' || body[n] == '-' || body[n] == '*')
        invariant
            n <= body@.len(),
            forall|j: int| 0 <= j < n ==> flag()(#[trigger] body@[j]),
            by_reference == exists|j: int| 0 <= j < n && body@[j] == '~',
            nullable == exists|j: int| 0 <= j < n && body@[j] == '-',
            literal_only == exists|j: int| 0 <= j < n && body@[j] == '*',
        decreases body@.len() - n,
    {
        let c = body[n];
        if c == '~' {
            by_reference = true;
        } else if c == '-' {
            nullable = true;
        } else {
            literal_only = true;
        }
        n += 1;
    }
    proof {
        crate::strings::lemma_lead_by_is(body@, flag(), n as int);
    }
    let rest = slice(body, n, body.len());
    let parts = split_chars(&rest, '/');
    let ghost pv = vecs_view(parts@);
    assert(pv =~= split_on(rest@, '/'));
    let mut types: Vec<String> = Vec::new();
    let mut i: usize = 0;
    while i < parts.len()
        invariant
            i <= parts@.len(),
            pv == vecs_view(parts@),
            types@.map_values(|t: String| t@) == slot_types(pv.take(i as int)),
        decreases parts@.len() - i,
    {
        let name = lower_chars(&trim_chars(&parts[i]));
        assert(pv.take(i + 1).drop_last() =~= pv.take(i as int));
        assert(pv.take(i + 1).last() == parts@[i as int]@);
        if name.len() > 0 {
            let text = string_of(&name);
            let ghost before = types@;
            types.push(text);
            assert(types@.map_values(|t: String| t@) =~= before.map_values(|t: String| t@).push(
                name@,
            ));
        }
        i += 1;
    }
    assert(pv.take(pv.len() as int) =~= pv);
    Slot { types, by_reference, nullable, literal_only }
}

// ------------------------------------------------------------ one group

/// The exec counterpart of `ParseState`.
struct GroupParser {
    branches: Vec<Vec<Node>>,
    current: Vec<Node>,
    literal: Vec<char>,
    gap: bool,
    glued: Vec<bool>,
    at_start: bool,
}

impl GroupParser {
    spec fn state(&self) -> ParseState {
        ParseState {
            branches: branches_view(self.branches@),
            current: nodes_view(self.current@),
            literal: self.literal@,
            gap: self.gap,
            glued: self.glued@,
            at_start: self.at_start,
        }
    }

    fn new() -> (p: Self)
        ensures
            p.state() == fresh_state(),
    {
        let p = GroupParser {
            branches: Vec::new(),
            current: Vec::new(),
            literal: Vec::new(),
            gap: true,
            glued: Vec::new(),
            at_start: true,
        };
        assert(p.state().branches =~= Seq::<Seq<NodeView>>::empty());
        assert(p.state().current =~= Seq::<NodeView>::empty());
        p
    }

    fn flush_literal(&mut self)
        ensures
            final(self).state() == flushed_literal(old(self).state()),
            final(self).branches@ == old(self).branches@,
    {
        let text = collapse(&self.literal);
        if text.len() > 0 {
            let n = self.literal.len();
            let starts_white = n > 0 && is_white_char(self.literal[0]);
            let ends_white = n > 0 && is_white_char(self.literal[n - 1]);
            self.glued.push(!self.gap && !starts_white);
            let node = Node::Literal(string_of(&text));
            proof {
                lemma_nodes_view_push(self.current@, node);
            }
            self.current.push(node);
            self.gap = ends_white;
        } else if self.literal.len() > 0 {
            self.gap = true;
        }
        self.literal = Vec::new();
        assert(self.literal@ =~= Seq::<char>::empty());
    }

    fn push_group(&mut self, node: Node)
        ensures
            final(self).state() == with_group(old(self).state(), node_view(node)),
            final(self).branches@ == old(self).branches@,
    {
        self.glued.push(!self.gap);
        proof {
            lemma_nodes_view_push(self.current@, node);
        }
        self.current.push(node);
        self.gap = false;
    }

    /// Fuses the branch being read and adds it to the closed ones.
    fn close_branch(&mut self)
        ensures
            final(self).state() == (ParseState {
                branches: closed_branches(old(self).state()),
                current: Seq::empty(),
                glued: Seq::empty(),
                ..old(self).state()
            }),
    {
        let mut taken: Vec<Node> = Vec::new();
        std::mem::swap(&mut taken, &mut self.current);
        let branch = fuse_glued(taken, &self.glued);
        proof {
            lemma_branches_view_push(self.branches@, branch);
        }
        self.branches.push(branch);
        self.glued = Vec::new();
        assert(self.glued@ =~= Seq::<bool>::empty());
        assert(nodes_view(self.current@) =~= Seq::<NodeView>::empty());
    }

    fn finish(self) -> (nodes: Vec<Node>)
        ensures
            nodes_view(nodes@) == finished(self.state().branches),
    {
        let mut branches = self.branches;
        proof {
            lemma_branches_view_len(branches@);
        }
        if branches.len() == 1 {
            let ghost all = branches@;
            let only = branches.remove(0);
            assert(all =~= seq![only]);
            assert(all.drop_last() =~= Seq::<Vec<Node>>::empty());
            only
        } else {
            let node = Node::Choice(branches);
            let out = vec![node];
            proof {
                assert(out@ =~= seq![node]);
                assert(out@.drop_last() =~= Seq::<Node>::empty());
                assert(nodes_view(Seq::<Node>::empty()) == Seq::<NodeView>::empty());
                assert(out@.last() == node);
                assert(nodes_view(out@) =~= seq![node_view(node)]);
            }
            out
        }
    }
}

fn is_choice(node: &Node) -> (b: bool)
    ensures
        b == node_view(*node) is Choice,
{
    match node {
        Node::Choice(_) => true,
        _ => false,
    }
}

/// A parenthesised group as one node.
fn choice_node(nodes: Vec<Node>) -> (node: Node)
    ensures
        node_view(node) == choice_of(nodes_view(nodes@)),
{
    proof {
        lemma_nodes_view_len(nodes@);
    }
    if nodes.len() == 1 && is_choice(&nodes[0]) {
        let mut nodes = nodes;
        nodes.remove(0)
    } else {
        let ghost inner = nodes@;
        let branches = vec![nodes];
        proof {
            assert(branches@ =~= seq![nodes]);
            assert(branches@.drop_last() =~= Seq::<Vec<Node>>::empty());
            assert(branches_view(Seq::<Vec<Node>>::empty()) == Seq::<Seq<NodeView>>::empty());
            assert(branches@.last()@ == inner);
            assert(branches_view(branches@) =~= seq![nodes_view(inner)]);
        }
        Node::Choice(branches)
    }
}

fn next_at_start(at_start: bool, ch: char) -> (b: bool)
    ensures
        b == still_at_start(at_start, ch),
{
    if ch == '|' {
        true
    } else if ch == ' ' || ch == '\t' {
        at_start
    } else {
        false
    }
}

/// Reads one group of `s` from `start` up to `term`, or to the end when there
/// is none; returns its nodes and the index just past what was read.
fn parse_sequence(s: &Vec<char>, start: usize, term: Option<char>) -> (r: (
    Result<Vec<Node>, ParseError>,
    usize,
))
    requires
        start <= s@.len(),
        byte_len(s@) <= usize::MAX,
    ensures
        outcome_view(r) == parse_from(s@, start as int, term, fresh_state()),
        r.0 is Ok ==> start <= r.1 <= s@.len(),
    decreases s@.len() - start,
{
    let mut p = GroupParser::new();
    let mut pos = start;
    while pos < s.len()
        invariant
            start <= pos <= s@.len(),
            byte_len(s@) <= usize::MAX,
            parse_from(s@, start as int, term, fresh_state()) == parse_from(
                s@,
                pos as int,
                term,
                p.state(),
            ),
        decreases s@.len() - pos,
    {
        let ghost st = p.state();
        let ch = s[pos];
        let ends_group = match term {
            Some(t) => t == ch,
            None => false,
        };
        if ends_group {
            p.flush_literal();
            p.close_branch();
            return (Ok(p.finish()), pos + 1);
        }
        if ch == '\\' {
            if pos + 1 < s.len() {
                p.literal.push(s[pos + 1]);
                pos += 2;
            } else {
                pos += 1;
            }
        } else if ch == '|' {
            p.flush_literal();
            p.close_branch();
            p.gap = true;
            pos += 1;
        } else if ch == '[' || ch == '(' {
            p.flush_literal();
            let close = if ch == '[' {
                ']'
            } else {
                ')'
            };
            let (inner, end) = parse_sequence(s, pos + 1, Some(close));
            match inner {
                Err(e) => {
                    return (Err(e), end);
                },
                Ok(nodes) => {
                    let group = if ch == '[' {
                        Node::Optional(nodes)
                    } else {
                        choice_node(nodes)
                    };
                    p.push_group(group);
                    pos = end;
                },
            }
        } else if ch == '%' || (ch == '<' && closes_as_regex(s, pos + 1)) {
            p.flush_literal();
            let close = if ch == '%' {
                '%'
            } else {
                '>'
            };
            proof {
                lemma_find_from(s@, pos + 1, close);
            }
            match find_index_from(s, pos + 1, close) {
                None => {
                    let offset = byte_offset(s, pos);
                    let message = unclosed(opening_for(close));
                    return (Err(ParseError { message, offset }), s.len());
                },
                Some(end) => {
                    let body = slice(s, pos + 1, end);
                    let node = if ch == '%' {
                        Node::Slot(parse_slot(&body))
                    } else {
                        Node::Regex(string_of(&body))
                    };
                    p.push_group(node);
                    pos = end + 1;
                },
            }
        } else if ch == ':' && p.at_start {
            pos += 1;
        } else if ch == '¦' {
            let ghost lit = p.literal@;
            while p.literal.len() > 0 && '0' <= p.literal[p.literal.len() - 1]
                && p.literal[p.literal.len() - 1] <= '9'
                invariant
                    p.literal@.len() <= lit.len(),
                    p.literal@ == lit.take(p.literal@.len() as int),
                    forall|j: int| p.literal@.len() <= j < lit.len() ==> digit()(#[trigger] lit[j]),
                    p.state().branches == st.branches,
                    p.state().current == st.current,
                    p.gap == st.gap,
                    p.glued@ == st.glued,
                    p.at_start == st.at_start,
                decreases p.literal@.len(),
            {
                p.literal.pop();
            }
            proof {
                let k = lit.len() - p.literal@.len();
                if p.literal@.len() > 0 {
                    assert(lit[lit.len() - k - 1] == p.literal@.last());
                }
                crate::strings::lemma_trail_by_is(lit, digit(), k);
            }
            pos += 1;
        } else {
            p.literal.push(ch);
            pos += 1;
        }
        p.at_start = next_at_start(p.at_start, ch);
    }
    p.flush_literal();
    match term {
        Some(t) => {
            let message = unclosed(opening_for(t));
            let offset = byte_offset(s, s.len());
            assert(s@.take(s@.len() as int) =~= s@);
            (Err(ParseError { message, offset }), pos)
        },
        None => {
            p.close_branch();
            (Ok(p.finish()), pos)
        },
    }
}

// ------------------------------------------------------------ patterns

/// A parsed Skript syntax pattern.
#[derive(Debug, PartialEq, Eq)]
pub struct Pattern {
    pub nodes: Vec<Node>,
    /// The text the pattern was read from.
    pub source: String,
}

/// `str::split_whitespace`: the maximal runs of non-whitespace characters.
pub struct WordsState {
    pub done: Seq<Seq<char>>,
    pub current: Seq<char>,
}

pub open spec fn words_run(s: Seq<char>) -> WordsState
    decreases s.len(),
{
    if s.len() == 0 {
        WordsState { done: Seq::empty(), current: Seq::empty() }
    } else {
        let st = words_run(s.drop_last());
        if is_white(s.last()) {
            if st.current.len() > 0 {
                WordsState { done: st.done.push(st.current), current: Seq::empty() }
            } else {
                st
            }
        } else {
            WordsState { done: st.done, current: st.current.push(s.last()) }
        }
    }
}

pub open spec fn words_of(s: Seq<char>) -> Seq<Seq<char>> {
    let st = words_run(s);
    if st.current.len() > 0 {
        st.done.push(st.current)
    } else {
        st.done
    }
}

/// The words of the literal nodes of a sequence, in order.
pub open spec fn literal_words(ns: Seq<NodeView>) -> Seq<Seq<char>>
    decreases ns.len(),
{
    if ns.len() == 0 {
        Seq::empty()
    } else {
        literal_words(ns.drop_last()) + match ns.last() {
            NodeView::Literal(t) => words_of(t),
            _ => Seq::empty(),
        }
    }
}

/// The words of `ws` that `keep` also holds, in the order of `ws`.
pub open spec fn retained(ws: Seq<Seq<char>>, keep: Seq<Seq<char>>) -> Seq<Seq<char>>
    decreases ws.len(),
{
    if ws.len() == 0 {
        Seq::empty()
    } else if keep.contains(ws.last()) {
        retained(ws.drop_last(), keep).push(ws.last())
    } else {
        retained(ws.drop_last(), keep)
    }
}

/// The literal words of `first` that every branch of `rest` also has.
pub open spec fn common_words(first: Seq<NodeView>, rest: Seq<Seq<NodeView>>) -> Seq<Seq<char>>
    decreases rest.len(),
{
    if rest.len() == 0 {
        literal_words(first)
    } else {
        retained(common_words(first, rest.drop_last()), literal_words(rest.last()))
    }
}

/// The words every match must contain, in order: those of the top-level
/// literals, and of a top-level choice those that every branch has.
pub open spec fn required_of(ns: Seq<NodeView>) -> Seq<Seq<char>>
    decreases ns.len(),
{
    if ns.len() == 0 {
        Seq::empty()
    } else {
        required_of(ns.drop_last()) + match ns.last() {
            NodeView::Literal(t) => words_of(t),
            NodeView::Choice(bs) => if bs.len() > 0 {
                common_words(bs[0], bs.skip(1))
            } else {
                Seq::empty()
            },
            _ => Seq::empty(),
        }
    }
}

/// Every slot of a sequence, nested ones included, in source order.
pub open spec fn slots_in(ns: Seq<NodeView>) -> Seq<SlotView>
    decreases ns,
{
    if ns.len() == 0 {
        Seq::empty()
    } else {
        proof {
            assert(decreases_to!(ns => ns.last()));
        }
        slots_in(ns.drop_last()) + slots_of_node(ns.last())
    }
}

pub open spec fn slots_of_node(n: NodeView) -> Seq<SlotView>
    decreases n,
{
    match n {
        NodeView::Slot(s) => seq![s],
        NodeView::Optional(inner) => slots_in(inner),
        NodeView::Choice(bs) => slots_in_branches(bs),
        _ => Seq::empty(),
    }
}

pub open spec fn slots_in_branches(bs: Seq<Seq<NodeView>>) -> Seq<SlotView>
    decreases bs,
{
    if bs.len() == 0 {
        Seq::empty()
    } else {
        proof {
            assert(decreases_to!(bs => bs.last()));
        }
        slots_in_branches(bs.drop_last()) + slots_in(bs.last())
    }
}

/// Branches that are each non-empty and all literal.
pub open spec fn fixed_words(bs: Seq<Seq<NodeView>>) -> bool {
    forall|i: int|
        0 <= i < bs.len() ==> (#[trigger] bs[i]).len() > 0 && forall|j: int|
            0 <= j < bs[i].len() ==> bs[i][j] is Literal
}

/// A choice between fixed words.
pub open spec fn literal_choice(n: NodeView) -> bool {
    match n {
        NodeView::Choice(bs) => fixed_words(bs),
        _ => false,
    }
}

/// The number of top-level choices between fixed words.
pub open spec fn literal_choices(ns: Seq<NodeView>) -> int
    decreases ns.len(),
{
    if ns.len() == 0 {
        0
    } else {
        literal_choices(ns.drop_last()) + if literal_choice(ns.last()) {
            1int
        } else {
            0int
        }
    }
}

/// One point for each slot of a definite type, minus two for each that
/// accepts anything.
pub open spec fn slot_score(ss: Seq<SlotView>) -> int
    decreases ss.len(),
{
    if ss.len() == 0 {
        0
    } else {
        slot_score(ss.drop_last()) + if accepts_anything(ss.last()) {
            -2int
        } else {
            1int
        }
    }
}

/// How specific a pattern is: ten for each required word, eight for each
/// top-level choice between fixed words, and the slots' score.
pub open spec fn specificity_of(ns: Seq<NodeView>) -> int {
    10 * required_of(ns).len() + 8 * literal_choices(ns) + slot_score(slots_in(ns))
}

/// The whitespace-separated words of `text`.
pub(crate) fn words(text: &Vec<char>) -> (out: Vec<Vec<char>>)
    ensures
        vecs_view(out@) == words_of(text@),
{
    let mut done: Vec<Vec<char>> = Vec::new();
    let mut current: Vec<char> = Vec::new();
    let mut i: usize = 0;
    assert(vecs_view(done@) =~= Seq::<Seq<char>>::empty());
    assert(current@ =~= Seq::<char>::empty());
    assert(text@.take(0) =~= Seq::<char>::empty());
    while i < text.len()
        invariant
            i <= text@.len(),
            words_run(text@.take(i as int)) == (WordsState { done: vecs_view(done@), current: current@ }),
        decreases text@.len() - i,
    {
        assert(text@.take(i + 1).drop_last() =~= text@.take(i as int));
        let c = text[i];
        if is_white_char(c) {
            if current.len() > 0 {
                let ghost before = done@;
                let ghost word = current@;
                done.push(current);
                assert(vecs_view(done@) =~= vecs_view(before).push(word));
                current = Vec::new();
                assert(current@ =~= Seq::<char>::empty());
            }
        } else {
            current.push(c);
        }
        i += 1;
    }
    assert(text@.take(text@.len() as int) =~= text@);
    if current.len() > 0 {
        let ghost before = done@;
        let ghost word = current@;
        done.push(current);
        assert(vecs_view(done@) =~= vecs_view(before).push(word));
    }
    done
}

fn append_words(out: &mut Vec<Vec<char>>, more: Vec<Vec<char>>)
    ensures
        vecs_view(final(out)@) == vecs_view(old(out)@) + vecs_view(more@),
{
    let ghost start = vecs_view(out@);
    let mut i: usize = 0;
    let mut more = more;
    let ghost all = vecs_view(more@);
    let total = more.len();
    while more.len() > 0
        invariant
            i + more@.len() == total,
            total == all.len(),
            vecs_view(more@) == all.skip(i as int),
            vecs_view(out@) == start + all.take(i as int),
        decreases more@.len(),
    {
        let ghost before = more@;
        let w = more.remove(0);
        assert(vecs_view(more@) =~= vecs_view(before).skip(1));
        assert(vecs_view(before)[0] == before[0]@);
        assert(all.skip(i as int)[0] == all[i as int]);
        assert(w@ == all[i as int]);
        let ghost prev = out@;
        out.push(w);
        assert(vecs_view(out@) =~= vecs_view(prev).push(all[i as int]));
        assert(all.take(i + 1) =~= all.take(i as int).push(all[i as int]));
        assert(all.skip(i + 1) =~= all.skip(i as int).skip(1));
        i += 1;
    }
    assert(all.take(total as int) =~= all);
}

/// The words of the literal nodes of `nodes`, in order.
fn literal_words_in(nodes: &Vec<Node>) -> (out: Vec<Vec<char>>)
    ensures
        vecs_view(out@) == literal_words(nodes_view(nodes@)),
{
    let mut out: Vec<Vec<char>> = Vec::new();
    let mut i: usize = 0;
    assert(vecs_view(out@) =~= Seq::<Seq<char>>::empty());
    while i < nodes.len()
        invariant
            i <= nodes@.len(),
            vecs_view(out@) == literal_words(nodes_view(nodes@.take(i as int))),
        decreases nodes@.len() - i,
    {
        proof {
            lemma_nodes_view_push(nodes@.take(i as int), nodes@[i as int]);
            assert(nodes@.take(i + 1) =~= nodes@.take(i as int).push(nodes@[i as int]));
            let step = nodes_view(nodes@.take(i + 1));
            assert(step.drop_last() =~= nodes_view(nodes@.take(i as int)));
            assert(step.last() == node_view(nodes@[i as int]));
        }
        match &nodes[i] {
            Node::Literal(text) => {
                let ws = words(&chars_of(text.as_str()));
                append_words(&mut out, ws);
            },
            _ => {
                assert(vecs_view(out@) + Seq::<Seq<char>>::empty() =~= vecs_view(out@));
            },
        }
        i += 1;
    }
    assert(nodes@.take(nodes@.len() as int) =~= nodes@);
    out
}

pub(crate) fn contains_word(keep: &Vec<Vec<char>>, w: &Vec<char>) -> (b: bool)
    ensures
        b == vecs_view(keep@).contains(w@),
{
    let mut i: usize = 0;
    while i < keep.len()
        invariant
            i <= keep@.len(),
            forall|j: int| 0 <= j < i ==> keep@[j]@ != w@,
        decreases keep@.len() - i,
    {
        if crate::strings::chars_eq(&keep[i], w) {
            assert(vecs_view(keep@)[i as int] == w@);
            return true;
        }
        i += 1;
    }
    assert forall|j: int| 0 <= j < vecs_view(keep@).len() implies vecs_view(keep@)[j] != w@ by {
        assert(keep@[j]@ != w@);
    }
    false
}

/// The words of `ws` that `keep` also holds.
fn retain_words(ws: &Vec<Vec<char>>, keep: &Vec<Vec<char>>) -> (out: Vec<Vec<char>>)
    ensures
        vecs_view(out@) == retained(vecs_view(ws@), vecs_view(keep@)),
{
    let ghost wv = vecs_view(ws@);
    let mut out: Vec<Vec<char>> = Vec::new();
    let mut i: usize = 0;
    assert(vecs_view(out@) =~= Seq::<Seq<char>>::empty());
    while i < ws.len()
        invariant
            i <= ws@.len(),
            wv == vecs_view(ws@),
            vecs_view(out@) == retained(wv.take(i as int), vecs_view(keep@)),
        decreases ws@.len() - i,
    {
        assert(wv.take(i + 1).drop_last() =~= wv.take(i as int));
        assert(wv.take(i + 1).last() == ws@[i as int]@);
        if contains_word(keep, &ws[i]) {
            let ghost prev = out@;
            out.push(crate::strings::slice(&ws[i], 0, ws[i].len()));
            assert(ws@[i as int]@.subrange(0, ws@[i as int]@.len() as int) =~= ws@[i as int]@);
            assert(vecs_view(out@) =~= vecs_view(prev).push(ws@[i as int]@));
        }
        i += 1;
    }
    assert(wv.take(wv.len() as int) =~= wv);
    out
}

/// The literal words of the first branch that every other branch has.
fn common_in(branches: &Vec<Vec<Node>>) -> (out: Vec<Vec<char>>)
    requires
        branches@.len() > 0,
    ensures
        vecs_view(out@) == ({
            let bs = branches_view(branches@);
            common_words(bs[0], bs.skip(1))
        }),
{
    let ghost bs = branches_view(branches@);
    proof {
        lemma_branches_view_len(branches@);
        lemma_branches_view_take(branches@, 1);
        assert(branches@.take(1) =~= seq![branches@[0]]);
        assert(seq![branches@[0]].drop_last() =~= Seq::<Vec<Node>>::empty());
        assert(branches_view(Seq::<Vec<Node>>::empty()) == Seq::<Seq<NodeView>>::empty());
        assert(seq![branches@[0]].last() == branches@[0]);
        assert(branches_view(seq![branches@[0]]) =~= seq![nodes_view(branches@[0]@)]);
        assert(bs.take(1)[0] == bs[0]);
        assert(bs[0] == nodes_view(branches@[0]@));
    }
    let mut common = literal_words_in(&branches[0]);
    let mut i: usize = 1;
    assert(bs.skip(1).take(0) =~= Seq::<Seq<NodeView>>::empty());
    while i < branches.len()
        invariant
            1 <= i <= branches@.len(),
            bs == branches_view(branches@),
            bs.len() == branches@.len(),
            vecs_view(common@) == common_words(bs[0], bs.skip(1).take(i - 1)),
        decreases branches@.len() - i,
    {
        proof {
            lemma_branches_view_take(branches@, i + 1);
            let step = branches_view(branches@.take(i + 1));
            assert(step.drop_last() =~= branches_view(branches@.take(i as int))) by {
                lemma_branches_view_take(branches@, i as int);
                assert(step.drop_last() =~= bs.take(i as int));
            }
            assert(bs[i as int] == nodes_view(branches@[i as int]@)) by {
                assert(branches@.take(i + 1).drop_last() =~= branches@.take(i as int));
                assert(step.last() == nodes_view(branches@[i as int]@));
            }
            assert(bs.skip(1).take(i as int).drop_last() =~= bs.skip(1).take(i - 1));
            assert(bs.skip(1).take(i as int).last() == bs[i as int]);
        }
        let words_here = literal_words_in(&branches[i]);
        common = retain_words(&common, &words_here);
        i += 1;
    }
    assert(bs.skip(1).take(bs.len() - 1) =~= bs.skip(1));
    common
}

pub proof fn lemma_branches_view_at(bs: Seq<Vec<Node>>)
    ensures
        branches_view(bs).len() == bs.len(),
        forall|i: int| 0 <= i < bs.len() ==> #[trigger] branches_view(bs)[i] == nodes_view(bs[i]@),
    decreases bs.len(),
{
    if bs.len() > 0 {
        lemma_branches_view_at(bs.drop_last());
        assert forall|i: int| 0 <= i < bs.len() implies #[trigger] branches_view(bs)[i] == nodes_view(bs[i]@) by {
            if i < bs.len() - 1 {
                assert(bs.drop_last()[i] == bs[i]);
            }
        }
    }
}

/// The strings of a list, as character sequences.
pub open spec fn strings_view(v: Seq<String>) -> Seq<Seq<char>> {
    v.map_values(|s: String| s@)
}

pub open spec fn slots_view(v: Seq<Slot>) -> Seq<SlotView> {
    v.map_values(|s: Slot| slot_view(s))
}

fn to_strings(words: &Vec<Vec<char>>) -> (out: Vec<String>)
    ensures
        strings_view(out@) == vecs_view(words@),
{
    let mut out: Vec<String> = Vec::new();
    let mut i: usize = 0;
    while i < words.len()
        invariant
            i <= words@.len(),
            strings_view(out@) == vecs_view(words@).take(i as int),
        decreases words@.len() - i,
    {
        let ghost prev = out@;
        out.push(string_of(&words[i]));
        assert(strings_view(out@) =~= strings_view(prev).push(words@[i as int]@));
        assert(vecs_view(words@).take(i + 1) =~= vecs_view(words@).take(i as int).push(words@[i as int]@));
        i += 1;
    }
    assert(vecs_view(words@).take(words@.len() as int) =~= vecs_view(words@));
    out
}

pub(crate) fn copy_slot(slot: &Slot) -> (out: Slot)
    ensures
        slot_view(out) == slot_view(*slot),
{
    let mut types: Vec<String> = Vec::new();
    let mut i: usize = 0;
    while i < slot.types.len()
        invariant
            i <= slot.types@.len(),
            strings_view(types@) == strings_view(slot.types@).take(i as int),
        decreases slot.types@.len() - i,
    {
        let ghost prev = types@;
        types.push(slot.types[i].clone());
        assert(strings_view(types@) =~= strings_view(prev).push(slot.types@[i as int]@));
        assert(strings_view(slot.types@).take(i + 1) =~= strings_view(slot.types@).take(i as int).push(
            slot.types@[i as int]@,
        ));
        i += 1;
    }
    assert(strings_view(slot.types@).take(slot.types@.len() as int) =~= strings_view(slot.types@));
    Slot {
        types,
        by_reference: slot.by_reference,
        nullable: slot.nullable,
        literal_only: slot.literal_only,
    }
}

/// Appends copies of every slot of `nodes`, nested ones included.
fn collect_slots(nodes: &Vec<Node>, out: &mut Vec<Slot>)
    ensures
        slots_view(final(out)@) == slots_view(old(out)@) + slots_in(nodes_view(nodes@)),
    decreases nodes@, 1nat,
{
    let ghost start = slots_view(out@);
    let mut i: usize = 0;
    assert(nodes@.take(0) =~= Seq::<Node>::empty());
    assert(start + Seq::<SlotView>::empty() =~= start);
    while i < nodes.len()
        invariant
            i <= nodes@.len(),
            slots_view(out@) == start + slots_in(nodes_view(nodes@.take(i as int))),
        decreases nodes@.len() - i,
    {
        proof {
            assert(decreases_to!(nodes@ => nodes@[i as int]));
            lemma_nodes_view_push(nodes@.take(i as int), nodes@[i as int]);
            assert(nodes@.take(i + 1) =~= nodes@.take(i as int).push(nodes@[i as int]));
            let step = nodes_view(nodes@.take(i + 1));
            assert(step.drop_last() =~= nodes_view(nodes@.take(i as int)));
            assert(step.last() == node_view(nodes@[i as int]));
        }
        let ghost before = slots_view(out@);
        collect_node_slots(&nodes[i], out);
        assert(slots_view(out@) =~= start + slots_in(nodes_view(nodes@.take(i + 1))));
        i += 1;
    }
    assert(nodes@.take(nodes@.len() as int) =~= nodes@);
}

fn collect_node_slots(node: &Node, out: &mut Vec<Slot>)
    ensures
        slots_view(final(out)@) == slots_view(old(out)@) + slots_of_node(node_view(*node)),
    decreases *node, 0nat,
{
    match node {
        Node::Slot(slot) => {
            let ghost prev = out@;
            out.push(copy_slot(slot));
            assert(slots_view(out@) =~= slots_view(prev) + seq![slot_view(*slot)]);
        },
        Node::Optional(inner) => {
            proof {
                assert(decreases_to!(*node => *inner));
                assert(decreases_to!(*inner => inner@));
            }
            collect_slots(inner, out);
        },
        Node::Choice(branches) => {
            let ghost start = slots_view(out@);
            let ghost bv = branches_view(branches@);
            proof {
                assert(decreases_to!(*node => *branches));
                assert(decreases_to!(*branches => branches@));
                lemma_branches_view_at(branches@);
            }
            let mut i: usize = 0;
            assert(bv.take(0) =~= Seq::<Seq<NodeView>>::empty());
            assert(start + Seq::<SlotView>::empty() =~= start);
            while i < branches.len()
                invariant
                    i <= branches@.len(),
                    decreases_to!(*node => branches@),
                    bv == branches_view(branches@),
                    bv.len() == branches@.len(),
                    forall|k: int| 0 <= k < branches@.len() ==> #[trigger] bv[k] == nodes_view(branches@[k]@),
                    slots_view(out@) == start + slots_in_branches(bv.take(i as int)),
                decreases branches@.len() - i,
            {
                proof {
                    assert(decreases_to!(branches@ => branches@[i as int]));
                    assert(decreases_to!(branches@[i as int] => branches@[i as int]@));
                    assert(bv.take(i + 1).drop_last() =~= bv.take(i as int));
                    assert(bv.take(i + 1).last() == nodes_view(branches@[i as int]@));
                }
                collect_slots(&branches[i], out);
                assert(slots_view(out@) =~= start + slots_in_branches(bv.take(i + 1)));
                i += 1;
            }
            assert(bv.take(bv.len() as int) =~= bv);
        },
        _ => {
            assert(slots_view(out@) + Seq::<SlotView>::empty() =~= slots_view(out@));
        },
    }
}

fn is_literal_choice(node: &Node) -> (b: bool)
    ensures
        b == literal_choice(node_view(*node)),
{
    match node {
        Node::Choice(branches) => {
            let ghost bv = branches_view(branches@);
            proof {
                lemma_branches_view_at(branches@);
            }
            assert(node_view(*node) == NodeView::Choice(bv));
            let mut i: usize = 0;
            while i < branches.len()
                invariant
                    i <= branches@.len(),
                    node_view(*node) == NodeView::Choice(bv),
                    bv == branches_view(branches@),
                    bv.len() == branches@.len(),
                    forall|k: int| 0 <= k < branches@.len() ==> #[trigger] bv[k] == nodes_view(branches@[k]@),
                    forall|k: int|
                        0 <= k < i ==> (#[trigger] bv[k]).len() > 0 && forall|j: int|
                            0 <= j < bv[k].len() ==> bv[k][j] is Literal,
                decreases branches@.len() - i,
            {
                let branch = &branches[i];
                proof {
                    lemma_nodes_view_len(branch@);
                }
                if branch.len() == 0 {
                    assert(bv[i as int].len() == 0);
                    assert(!fixed_words(bv));
                    return false;
                }
                let mut j: usize = 0;
                while j < branch.len()
                    invariant
                        j <= branch@.len(),
                        i < bv.len(),
                        node_view(*node) == NodeView::Choice(bv),
                        bv[i as int] == nodes_view(branch@),
                        nodes_view(branch@).len() == branch@.len(),
                        forall|m: int| 0 <= m < branch@.len() ==> #[trigger] nodes_view(branch@)[m] == node_view(branch@[m]),
                        forall|m: int| 0 <= m < j ==> (#[trigger] bv[i as int][m]) is Literal,
                    decreases branch@.len() - j,
                {
                    match &branch[j] {
                        Node::Literal(_) => {},
                        _ => {
                            assert(!(node_view(branch@[j as int]) is Literal));
                            assert(!(bv[i as int][j as int] is Literal));
                            assert(!fixed_words(bv));
                            return false;
                        },
                    }
                    j += 1;
                }
                i += 1;
            }
            true
        },
        _ => false,
    }
}

pub proof fn lemma_literal_choices_bounds(ns: Seq<NodeView>, k: int)
    requires
        0 <= k <= ns.len(),
    ensures
        0 <= literal_choices(ns.take(k)) <= literal_choices(ns),
    decreases ns.len(),
{
    if ns.len() > 0 {
        if k == ns.len() {
            assert(ns.take(k) =~= ns);
            lemma_literal_choices_bounds(ns.drop_last(), k - 1);
        } else {
            assert(ns.drop_last().take(k) =~= ns.take(k));
            lemma_literal_choices_bounds(ns.drop_last(), k);
        }
    }
}

pub proof fn lemma_slot_score_bounds(ss: Seq<SlotView>)
    ensures
        -2 * ss.len() <= slot_score(ss) <= ss.len(),
    decreases ss.len(),
{
    if ss.len() > 0 {
        lemma_slot_score_bounds(ss.drop_last());
    }
}

/// Whether a regex appears anywhere in a sequence of nodes.
pub open spec fn has_regex_in(ns: Seq<NodeView>) -> bool
    decreases ns,
{
    if ns.len() == 0 {
        false
    } else {
        proof {
            assert(decreases_to!(ns => ns.last()));
        }
        has_regex_in(ns.drop_last()) || node_has_regex(ns.last())
    }
}

pub open spec fn node_has_regex(n: NodeView) -> bool
    decreases n,
{
    match n {
        NodeView::Regex(_) => true,
        NodeView::Optional(inner) => has_regex_in(inner),
        NodeView::Choice(bs) => branches_have_regex(bs),
        _ => false,
    }
}

pub open spec fn branches_have_regex(bs: Seq<Seq<NodeView>>) -> bool
    decreases bs,
{
    if bs.len() == 0 {
        false
    } else {
        proof {
            assert(decreases_to!(bs => bs.last()));
        }
        branches_have_regex(bs.drop_last()) || has_regex_in(bs.last())
    }
}

fn nodes_have_regex(nodes: &Vec<Node>) -> (b: bool)
    ensures
        b == has_regex_in(nodes_view(nodes@)),
    decreases nodes@, 1nat,
{
    let mut i: usize = 0;
    assert(nodes@.take(0) =~= Seq::<Node>::empty());
    while i < nodes.len()
        invariant
            i <= nodes@.len(),
            !has_regex_in(nodes_view(nodes@.take(i as int))),
        decreases nodes@.len() - i,
    {
        proof {
            assert(decreases_to!(nodes@ => nodes@[i as int]));
            lemma_nodes_view_push(nodes@.take(i as int), nodes@[i as int]);
            assert(nodes@.take(i + 1) =~= nodes@.take(i as int).push(nodes@[i as int]));
            let step = nodes_view(nodes@.take(i + 1));
            assert(step.drop_last() =~= nodes_view(nodes@.take(i as int)));
            assert(step.last() == node_view(nodes@[i as int]));
        }
        if node_has_regex_in(&nodes[i]) {
            proof {
                lemma_nodes_view_len(nodes@);
                lemma_nodes_view_take(nodes@, i + 1);
                lemma_regex_extends(nodes_view(nodes@), i + 1);
            }
            return true;
        }
        i += 1;
    }
    assert(nodes@.take(nodes@.len() as int) =~= nodes@);
    false
}

/// A regex in a prefix is a regex in the whole.
proof fn lemma_regex_extends(ns: Seq<NodeView>, k: int)
    requires
        0 <= k <= ns.len(),
        has_regex_in(ns.take(k)),
    ensures
        has_regex_in(ns),
    decreases ns.len() - k,
{
    if k < ns.len() {
        assert(ns.take(k + 1).drop_last() =~= ns.take(k));
        lemma_regex_extends(ns, k + 1);
    } else {
        assert(ns.take(k) =~= ns);
    }
}

fn node_has_regex_in(node: &Node) -> (b: bool)
    ensures
        b == node_has_regex(node_view(*node)),
    decreases *node, 0nat,
{
    match node {
        Node::Regex(_) => true,
        Node::Optional(inner) => {
            proof {
                assert(decreases_to!(*node => *inner));
                assert(decreases_to!(*inner => inner@));
            }
            nodes_have_regex(inner)
        },
        Node::Choice(branches) => {
            let ghost bv = branches_view(branches@);
            proof {
                assert(decreases_to!(*node => *branches));
                assert(decreases_to!(*branches => branches@));
                lemma_branches_view_at(branches@);
            }
            let mut i: usize = 0;
            assert(bv.take(0) =~= Seq::<Seq<NodeView>>::empty());
            while i < branches.len()
                invariant
                    i <= branches@.len(),
                    decreases_to!(*node => branches@),
                    node_view(*node) == NodeView::Choice(bv),
                    bv == branches_view(branches@),
                    bv.len() == branches@.len(),
                    forall|k: int| 0 <= k < branches@.len() ==> #[trigger] bv[k] == nodes_view(branches@[k]@),
                    !branches_have_regex(bv.take(i as int)),
                decreases branches@.len() - i,
            {
                proof {
                    assert(decreases_to!(branches@ => branches@[i as int]));
                    assert(decreases_to!(branches@[i as int] => branches@[i as int]@));
                    assert(bv.take(i + 1).drop_last() =~= bv.take(i as int));
                    assert(bv.take(i + 1).last() == bv[i as int]);
                }
                if nodes_have_regex(&branches[i]) {
                    proof {
                        lemma_branch_regex_extends(bv, i + 1);
                    }
                    return true;
                }
                i += 1;
            }
            assert(bv.take(bv.len() as int) =~= bv);
            false
        },
        _ => false,
    }
}

proof fn lemma_branch_regex_extends(bs: Seq<Seq<NodeView>>, k: int)
    requires
        0 <= k <= bs.len(),
        branches_have_regex(bs.take(k)),
    ensures
        branches_have_regex(bs),
    decreases bs.len() - k,
{
    if k < bs.len() {
        assert(bs.take(k + 1).drop_last() =~= bs.take(k));
        lemma_branch_regex_extends(bs, k + 1);
    } else {
        assert(bs.take(k) =~= bs);
    }
}

impl Pattern {
    /// Whether the pattern holds a `<regex>` anywhere.
    pub fn has_regex(&self) -> (b: bool)
        ensures
            b == has_regex_in(nodes_view(self.nodes@)),
    {
        nodes_have_regex(&self.nodes)
    }

    /// Parses a pattern string; fails only on a group, slot or regex that is
    /// never closed.
    pub fn parse(source: &str) -> (r: Result<Pattern, ParseError>)
        requires
            byte_len(source@) <= usize::MAX,
        ensures
            match parsed(source@) {
                Ok(nodes) => r matches Ok(p) && nodes_view(p.nodes@) == nodes && p.source@ == source@,
                Err((message, offset)) => r matches Err(e) && e.message@ == message && e.offset
                    == offset,
            },
    {
        let chars = chars_of(source);
        let (result, _) = parse_sequence(&chars, 0, None);
        match result {
            Ok(nodes) => Ok(Pattern { nodes, source: string_of(&chars) }),
            Err(e) => Err(e),
        }
    }

    pub fn source(&self) -> (s: &str)
        ensures
            s@ == self.source@,
    {
        self.source.as_str()
    }

    /// Words that any successful match must contain, in order: those of the
    /// top-level literals, and of a top-level choice those every branch has.
    pub fn required_literals(&self) -> (r: Vec<String>)
        ensures
            strings_view(r@) == required_of(nodes_view(self.nodes@)),
    {
        let nodes = &self.nodes;
        let mut out: Vec<Vec<char>> = Vec::new();
        let mut i: usize = 0;
        assert(vecs_view(out@) =~= Seq::<Seq<char>>::empty());
        assert(nodes@.take(0) =~= Seq::<Node>::empty());
        while i < nodes.len()
            invariant
                i <= nodes@.len(),
                vecs_view(out@) == required_of(nodes_view(nodes@.take(i as int))),
            decreases nodes@.len() - i,
        {
            proof {
                lemma_nodes_view_push(nodes@.take(i as int), nodes@[i as int]);
                assert(nodes@.take(i + 1) =~= nodes@.take(i as int).push(nodes@[i as int]));
                let step = nodes_view(nodes@.take(i + 1));
                assert(step.drop_last() =~= nodes_view(nodes@.take(i as int)));
                assert(step.last() == node_view(nodes@[i as int]));
            }
            match &nodes[i] {
                Node::Literal(text) => {
                    let ws = words(&chars_of(text.as_str()));
                    append_words(&mut out, ws);
                },
                Node::Choice(branches) => {
                    proof {
                        lemma_branches_view_len(branches@);
                    }
                    if branches.len() > 0 {
                        let common = common_in(branches);
                        append_words(&mut out, common);
                    } else {
                        assert(vecs_view(out@) + Seq::<Seq<char>>::empty() =~= vecs_view(out@));
                    }
                },
                _ => {
                    assert(vecs_view(out@) + Seq::<Seq<char>>::empty() =~= vecs_view(out@));
                },
            }
            i += 1;
        }
        assert(nodes@.take(nodes@.len() as int) =~= nodes@);
        to_strings(&out)
    }

    /// Every `%...%` slot in the pattern, nested ones included, in source order.
    pub fn slots(&self) -> (r: Vec<Slot>)
        ensures
            slots_view(r@) == slots_in(nodes_view(self.nodes@)),
    {
        let mut out: Vec<Slot> = Vec::new();
        collect_slots(&self.nodes, &mut out);
        assert(slots_view(Seq::<Slot>::empty()) + slots_in(nodes_view(self.nodes@)) =~= slots_in(
            nodes_view(self.nodes@),
        ));
        out
    }

    /// How specific this pattern is, to rank competing matches: more required
    /// words is more specific, and a slot that accepts anything is penalised.
    pub fn specificity(&self) -> (score: i32)
        requires
            ({
                let nv = nodes_view(self.nodes@);
                10 * required_of(nv).len() + 8 * literal_choices(nv) + 2 * slots_in(nv).len()
                    <= i32::MAX
            }),
        ensures
            score == specificity_of(nodes_view(self.nodes@)),
    {
        let ghost nv = nodes_view(self.nodes@);
        let required = self.required_literals();
        assert(strings_view(required@).len() == required@.len());
        proof {
            lemma_literal_choices_bounds(nv, 0);
            assert(nv.take(0) =~= Seq::<NodeView>::empty());
        }
        let mut score: i32 = (required.len() as i32) * 10;
        let nodes = &self.nodes;
        let mut i: usize = 0;
        proof {
            lemma_literal_choices_bounds(nv, 0);
            lemma_nodes_view_len(nodes@);
        }
        assert(nodes@.take(0) =~= Seq::<Node>::empty());
        while i < nodes.len()
            invariant
                i <= nodes@.len(),
                nv == nodes_view(nodes@),
                nv.len() == nodes@.len(),
                10 * required_of(nv).len() + 8 * literal_choices(nv) + 2 * slots_in(nv).len()
                    <= i32::MAX,
                score == 10 * required_of(nv).len() + 8 * literal_choices(nodes_view(nodes@.take(i as int))),
            decreases nodes@.len() - i,
        {
            proof {
                lemma_nodes_view_push(nodes@.take(i as int), nodes@[i as int]);
                assert(nodes@.take(i + 1) =~= nodes@.take(i as int).push(nodes@[i as int]));
                let step = nodes_view(nodes@.take(i + 1));
                assert(step.drop_last() =~= nodes_view(nodes@.take(i as int)));
                assert(step.last() == node_view(nodes@[i as int]));
                lemma_nodes_view_take(nodes@, i + 1);
                lemma_literal_choices_bounds(nv, i + 1);
            }
            if is_literal_choice(&nodes[i]) {
                score = score + 8;
            }
            i += 1;
        }
        assert(nodes@.take(nodes@.len() as int) =~= nodes@);
        let slots = self.slots();
        let ghost sv = slots_view(slots@);
        let ghost base = score as int;
        let mut j: usize = 0;
        assert(sv.take(0) =~= Seq::<SlotView>::empty());
        while j < slots.len()
            invariant
                j <= slots@.len(),
                sv == slots_view(slots@),
                sv.len() == slots@.len(),
                sv == slots_in(nv),
                base + 2 * sv.len() <= i32::MAX,
                base >= 0,
                score == base + slot_score(sv.take(j as int)),
            decreases slots@.len() - j,
        {
            proof {
                lemma_slot_score_bounds(sv.take(j as int));
                assert(sv.take(j + 1).drop_last() =~= sv.take(j as int));
                assert(sv.take(j + 1).last() == slot_view(slots@[j as int]));
            }
            if slots[j].is_object() {
                score = score - 2;
            } else {
                score = score + 1;
            }
            j += 1;
        }
        assert(sv.take(sv.len() as int) =~= sv);
        score
    }
}


// ------------------------------------------------------------ literals are collapsed

/// A literal's text: non-empty, and the collapsed (lowercased,
/// whitespace-folded) form of some text.
pub open spec fn collapsed_text(t: Seq<char>) -> bool {
    t.len() > 0 && is_collapsed(t)
}

/// Some text collapses to exactly `t`.
pub open spec fn is_collapsed(t: Seq<char>) -> bool {
    exists|raw: Seq<char>| t == #[trigger] collapsed(raw)
}

/// Every literal in a node, at any depth, is collapsed text.
pub open spec fn literals_collapsed(n: NodeView) -> bool
    decreases n,
{
    match n {
        NodeView::Literal(t) => collapsed_text(t),
        NodeView::Optional(inner) => forall|i: int|
            0 <= i < inner.len() ==> literals_collapsed(#[trigger] inner[i]),
        NodeView::Choice(bs) => forall|i: int, j: int|
            0 <= i < bs.len() && 0 <= j < bs[i].len() ==> literals_collapsed(#[trigger] bs[i][j]),
        _ => true,
    }
}

pub open spec fn all_collapsed(ns: Seq<NodeView>) -> bool {
    forall|i: int| 0 <= i < ns.len() ==> literals_collapsed(#[trigger] ns[i])
}

pub open spec fn state_collapsed(st: ParseState) -> bool {
    &&& all_collapsed(st.current)
    &&& forall|i: int| 0 <= i < st.branches.len() ==> all_collapsed(#[trigger] st.branches[i])
}

proof fn lemma_all_collapsed_push(ns: Seq<NodeView>, n: NodeView)
    requires
        all_collapsed(ns),
        literals_collapsed(n),
    ensures
        all_collapsed(ns.push(n)),
{
    assert forall|i: int| 0 <= i < ns.push(n).len() implies literals_collapsed(#[trigger] ns.push(n)[i]) by {
        if i < ns.len() {
            assert(ns.push(n)[i] == ns[i]);
        }
    }
}

proof fn lemma_all_collapsed_concat(a: Seq<NodeView>, b: Seq<NodeView>)
    requires
        all_collapsed(a),
        all_collapsed(b),
    ensures
        all_collapsed(a + b),
{
    assert forall|i: int| 0 <= i < (a + b).len() implies literals_collapsed(#[trigger] (a + b)[i]) by {
        if i < a.len() {
            assert((a + b)[i] == a[i]);
        } else {
            assert((a + b)[i] == b[i - a.len()]);
        }
    }
}

proof fn lemma_cross_collapsed_forms(prefixes: Seq<Seq<char>>, endings: Seq<Seq<char>>)
    ensures
        forall|k: int|
            0 <= k < crate::pattern::cross_collapsed(prefixes, endings).len() ==> is_collapsed(
                #[trigger] crate::pattern::cross_collapsed(prefixes, endings)[k],
            ),
    decreases prefixes.len(),
{
    if prefixes.len() > 0 {
        lemma_cross_collapsed_forms(prefixes.drop_last(), endings);
        let prev = crate::pattern::cross_collapsed(prefixes.drop_last(), endings);
        let here = endings.map_values(|e: Seq<char>| collapsed(prefixes.last() + e));
        let all = crate::pattern::cross_collapsed(prefixes, endings);
        assert(all == prev + here);
        assert forall|k: int| 0 <= k < all.len() implies is_collapsed(#[trigger] all[k]) by {
            if k < prev.len() {
                assert(all[k] == prev[k]);
            } else {
                let raw = prefixes.last() + endings[k - prev.len()];
                assert(all[k] == here[k - prev.len()]);
                assert(all[k] == collapsed(raw));
            }
        }
    }
}

proof fn lemma_run_forms_collapsed(ns: Seq<NodeView>)
    requires
        ns.len() > 0,
    ensures
        crate::pattern::run_forms_of(ns) matches Some(f) ==> forall|k: int|
            0 <= k < f.len() ==> is_collapsed(#[trigger] f[k]),
{
    match crate::pattern::run_forms_of(ns.drop_last()) {
        Some(f) => match crate::pattern::forms_of(ns.last()) {
            Some(e) => {
                lemma_cross_collapsed_forms(f, e);
            },
            None => {},
        },
        None => {},
    }
}

proof fn lemma_insert_sorted_within(v: Seq<Seq<char>>, x: Seq<char>)
    ensures
        forall|k: int|
            0 <= k < crate::pattern::insert_sorted(v, x).len() ==> (#[trigger] crate::pattern::insert_sorted(v, x)[k] == x
                || v.contains(crate::pattern::insert_sorted(v, x)[k])),
    decreases v.len(),
{
    let r = crate::pattern::insert_sorted(v, x);
    if v.len() == 0 {
    } else if v[0] == x {
        assert forall|k: int| 0 <= k < r.len() implies (#[trigger] r[k] == x || v.contains(r[k])) by {
            assert(v[k] == r[k]);
        }
    } else if crate::pattern::lex_lt(x, v[0]) {
        assert forall|k: int| 0 <= k < r.len() implies (#[trigger] r[k] == x || v.contains(r[k])) by {
            if k > 0 {
                assert(r[k] == v[k - 1]);
            }
        }
    } else {
        lemma_insert_sorted_within(v.skip(1), x);
        let tail = crate::pattern::insert_sorted(v.skip(1), x);
        assert forall|k: int| 0 <= k < r.len() implies (#[trigger] r[k] == x || v.contains(r[k])) by {
            if k == 0 {
                assert(r[0] == v[0]);
            } else {
                assert(r[k] == tail[k - 1]);
                if tail[k - 1] != x {
                    let m = choose|m: int| 0 <= m < v.skip(1).len() && v.skip(1)[m] == tail[k - 1];
                    assert(v[m + 1] == tail[k - 1]);
                }
            }
        }
    }
}

proof fn lemma_sorted_forms_within(forms: Seq<Seq<char>>)
    ensures
        forall|k: int|
            0 <= k < crate::pattern::sorted_forms(forms).len() ==> (#[trigger] crate::pattern::sorted_forms(forms)[k]).len() > 0
                && forms.contains(crate::pattern::sorted_forms(forms)[k]),
    decreases forms.len(),
{
    if forms.len() > 0 {
        lemma_sorted_forms_within(forms.drop_last());
        let rest = crate::pattern::sorted_forms(forms.drop_last());
        let r = crate::pattern::sorted_forms(forms);
        if forms.last().len() > 0 {
            lemma_insert_sorted_within(rest, forms.last());
        }
        assert forall|k: int| 0 <= k < r.len() implies (#[trigger] r[k]).len() > 0 && forms.contains(r[k]) by {
            if forms.last().len() == 0 {
                let m = choose|m: int| 0 <= m < forms.drop_last().len() && forms.drop_last()[m] == r[k];
                assert(forms[m] == r[k]);
            } else if r[k] == forms.last() {
                assert(forms[forms.len() - 1] == r[k]);
            } else {
                let q = choose|q: int| 0 <= q < rest.len() && rest[q] == r[k];
                let m = choose|m: int| 0 <= m < forms.drop_last().len() && forms.drop_last()[m] == rest[q];
                assert(forms[m] == r[k]);
            }
        }
    }
}

proof fn lemma_spelled_collapsed(run: Seq<NodeView>)
    requires
        run.len() > 0,
    ensures
        crate::pattern::spelled_node(run) matches Some(n) ==> literals_collapsed(n),
{
    match crate::pattern::run_forms_of(run) {
        Some(forms) => {
            lemma_run_forms_collapsed(run);
            lemma_sorted_forms_within(forms);
            let kept = crate::pattern::sorted_forms(forms);
            assert forall|k: int| 0 <= k < kept.len() implies collapsed_text(#[trigger] kept[k]) by {
                let m = choose|m: int| 0 <= m < forms.len() && forms[m] == kept[k];
                assert(is_collapsed(forms[m]));
            }
            if kept.len() > 0 {
                let node = if kept.len() == 1 {
                    NodeView::Literal(kept[0])
                } else {
                    NodeView::Choice(kept.map_values(|form: Seq<char>| seq![NodeView::Literal(form)]))
                };
                if kept.len() > 1 {
                    let bs = kept.map_values(|form: Seq<char>| seq![NodeView::Literal(form)]);
                    assert forall|i: int, j: int| 0 <= i < bs.len() && 0 <= j < bs[i].len() implies literals_collapsed(
                        #[trigger] bs[i][j],
                    ) by {
                        assert(bs[i][j] == NodeView::Literal(kept[i]));
                    }
                }
                assert(literals_collapsed(node));
                let wrapped = seq![node];
                assert(wrapped[0] == node);
                assert(literals_collapsed(NodeView::Optional(wrapped)));
            }
        },
        None => {},
    }
}

proof fn lemma_flushed_collapsed(run: Seq<NodeView>)
    requires
        all_collapsed(run),
    ensures
        all_collapsed(crate::pattern::flushed(run)),
{
    if run.len() >= 2 {
        lemma_spelled_collapsed(run);
        match crate::pattern::spelled_node(run) {
            Some(n) => {
                assert(seq![n][0] == n);
            },
            None => {},
        }
    }
}

proof fn lemma_fuse_run_collapsed(nodes: Seq<NodeView>, glued: Seq<bool>, i: int)
    requires
        all_collapsed(nodes),
        0 <= i <= nodes.len(),
    ensures
        all_collapsed(crate::pattern::fuse_run(nodes, glued, i).out),
        all_collapsed(crate::pattern::fuse_run(nodes, glued, i).run),
    decreases i,
{
    if i > 0 {
        lemma_fuse_run_collapsed(nodes, glued, i - 1);
        let st = crate::pattern::fuse_run(nodes, glued, i - 1);
        lemma_flushed_collapsed(st.run);
        lemma_all_collapsed_concat(st.out, crate::pattern::flushed(st.run));
        assert(literals_collapsed(nodes[i - 1]));
        let n = nodes[i - 1];
        let breaks = !glued[i - 1] || !crate::pattern::fusable(n);
        let out1 = if breaks {
            st.out + crate::pattern::flushed(st.run)
        } else {
            st.out
        };
        let run1 = if breaks {
            Seq::<NodeView>::empty()
        } else {
            st.run
        };
        lemma_all_collapsed_push(out1, n);
        lemma_all_collapsed_push(run1, n);
    }
}

proof fn lemma_fused_collapsed(nodes: Seq<NodeView>, glued: Seq<bool>)
    requires
        all_collapsed(nodes),
    ensures
        all_collapsed(crate::pattern::fused(nodes, glued)),
{
    if !(nodes.len() < 2 || glued.len() != nodes.len()) {
        lemma_fuse_run_collapsed(nodes, glued, nodes.len() as int);
        let st = crate::pattern::fuse_run(nodes, glued, nodes.len() as int);
        lemma_flushed_collapsed(st.run);
        lemma_all_collapsed_concat(st.out, crate::pattern::flushed(st.run));
    }
}

proof fn lemma_flush_collapsed(st: ParseState)
    requires
        state_collapsed(st),
    ensures
        state_collapsed(flushed_literal(st)),
{
    let text = collapsed(st.literal);
    if text.len() > 0 {
        assert(is_collapsed(text));
        lemma_all_collapsed_push(st.current, NodeView::Literal(text));
    }
}

proof fn lemma_close_collapsed(st: ParseState)
    requires
        state_collapsed(st),
    ensures
        forall|i: int| 0 <= i < closed_branches(st).len() ==> all_collapsed(#[trigger] closed_branches(st)[i]),
{
    lemma_fused_collapsed(st.current, st.glued);
    assert forall|i: int| 0 <= i < closed_branches(st).len() implies all_collapsed(#[trigger] closed_branches(st)[i]) by {
        if i < st.branches.len() {
            assert(closed_branches(st)[i] == st.branches[i]);
        }
    }
}

proof fn lemma_finished_collapsed(bs: Seq<Seq<NodeView>>)
    requires
        forall|i: int| 0 <= i < bs.len() ==> all_collapsed(#[trigger] bs[i]),
    ensures
        all_collapsed(finished(bs)),
{
    if bs.len() != 1 {
        let c = NodeView::Choice(bs);
        assert forall|i: int, j: int| 0 <= i < bs.len() && 0 <= j < bs[i].len() implies literals_collapsed(
            #[trigger] bs[i][j],
        ) by {
            assert(all_collapsed(bs[i]));
        }
        assert(literals_collapsed(c));
        assert(seq![c][0] == c);
    }
}

proof fn lemma_parse_collapsed(s: Seq<char>, pos: int, term: Option<char>, st: ParseState)
    requires
        state_collapsed(st),
    ensures
        parse_from(s, pos, term, st).0 matches Ok(nodes) ==> all_collapsed(nodes),
    decreases s.len() - pos,
{
    if pos < 0 || pos >= s.len() {
        if term is None {
            lemma_flush_collapsed(st);
            lemma_close_collapsed(flushed_literal(st));
            lemma_finished_collapsed(closed_branches(flushed_literal(st)));
        }
    } else {
        let ch = s[pos];
        if term == Some(ch) {
            lemma_flush_collapsed(st);
            lemma_close_collapsed(flushed_literal(st));
            lemma_finished_collapsed(closed_branches(flushed_literal(st)));
        } else if ch == '\\' {
            if pos + 1 < s.len() {
                lemma_parse_collapsed(s, pos + 2, term, after(ParseState { literal: st.literal.push(s[pos + 1]), ..st }, ch));
            } else {
                lemma_parse_collapsed(s, pos + 1, term, after(st, ch));
            }
        } else if ch == '|' {
            let f = flushed_literal(st);
            lemma_flush_collapsed(st);
            lemma_close_collapsed(f);
            let next = ParseState { branches: closed_branches(f), current: Seq::empty(), glued: Seq::empty(), gap: true, ..f };
            assert(state_collapsed(after(next, ch)));
            lemma_parse_collapsed(s, pos + 1, term, after(next, ch));
        } else if ch == '[' || ch == '(' {
            let f = flushed_literal(st);
            lemma_flush_collapsed(st);
            let close = if ch == '[' {
                ']'
            } else {
                ')'
            };
            lemma_parse_collapsed(s, pos + 1, Some(close), fresh_state());
            let (inner, end) = parse_from(s, pos + 1, Some(close), fresh_state());
            if let Ok(nodes) = inner {
                if pos < end <= s.len() {
                    let group = if ch == '[' {
                        NodeView::Optional(nodes)
                    } else {
                        choice_of(nodes)
                    };
                    if ch == '(' && !(nodes.len() == 1 && nodes[0] is Choice) {
                        let bs = seq![nodes];
                        assert forall|i: int, j: int| 0 <= i < bs.len() && 0 <= j < bs[i].len() implies literals_collapsed(
                            #[trigger] bs[i][j],
                        ) by {
                            assert(bs[i] == nodes);
                        }
                    }
                    assert(literals_collapsed(group));
                    lemma_all_collapsed_push(f.current, group);
                    lemma_parse_collapsed(s, end, term, after(with_group(f, group), ch));
                }
            }
        } else if ch == '%' || (ch == '<' && regex_closes(s, pos + 1)) {
            let f = flushed_literal(st);
            lemma_flush_collapsed(st);
            let close = if ch == '%' {
                '%'
            } else {
                '>'
            };
            lemma_find_from(s, pos + 1, close);
            match find_from(s, pos + 1, close) {
                Some(end) => {
                    let body = s.subrange(pos + 1, end);
                    let node = if ch == '%' {
                        NodeView::Slot(slot_of(body))
                    } else {
                        NodeView::Regex(body)
                    };
                    lemma_all_collapsed_push(f.current, node);
                    lemma_parse_collapsed(s, end + 1, term, after(with_group(f, node), ch));
                },
                None => {},
            }
        } else if ch == ':' && st.at_start {
            lemma_parse_collapsed(s, pos + 1, term, after(st, ch));
        } else if ch == '¦' {
            let lit = st.literal.take(st.literal.len() - trail_by(st.literal, digit()));
            lemma_parse_collapsed(s, pos + 1, term, after(ParseState { literal: lit, ..st }, ch));
        } else {
            lemma_parse_collapsed(s, pos + 1, term, after(ParseState { literal: st.literal.push(ch), ..st }, ch));
        }
    }
}

/// Every literal of a parsed pattern, at any depth, is non-empty and in
/// collapsed form (lowercased, whitespace folded to single spaces), so that
/// comparing it with a line's text is plain equality.
pub proof fn lemma_parsed_literals_are_collapsed(s: Seq<char>)
    ensures
        parsed(s) matches Ok(nodes) ==> all_collapsed(nodes),
{
    lemma_parse_collapsed(s, 0, None, fresh_state());
}

} // verus!
