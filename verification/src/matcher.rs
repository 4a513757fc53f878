//! Splitting a line of Skript into the tokens patterns are matched against.
//!
//! A token is not a word: `"hello world"`, `{my::var}` and `%player's tool%`
//! each stay whole, or the literal `to` inside a message would be mistaken
//! for pattern syntax. Positions are byte offsets into the line.
use vstd::prelude::*;

use crate::parser::{common_words, literal_words, required_of, retained, words_of};
use crate::parser::{lemma_branches_view_at, Pattern};
use crate::pattern::{
    branches_view, lemma_nodes_view_len, node_view, nodes_view, slot_view, vecs_view, Node,
    NodeView, Slot, SlotView,
};
use crate::strings::{byte_len, chars_of, char_len_utf8, is_ascii_white, is_ascii_white_char, lower_chars, lower_seq, slice, string_of};

verus! {

/// One token of a line, with its byte span in the line.
#[derive(Debug, Clone, PartialEq, Eq)]
pub struct Token {
    /// ASCII-lowercased, so comparisons against pattern literals are plain
    /// equality.
    pub text: String,
    pub start: usize,
    pub end: usize,
}

/// Where a delimited run that opens at `i` ends (one past its close), with
/// `depth` opens still unclosed: `{}` nest, and inside `""` or `%%` a doubled
/// delimiter is an escape.
pub open spec fn delimited_end(s: Seq<char>, i: int, open: char, close: char, depth: nat) -> int
    decreases s.len() - i,
{
    if i < 0 || i >= s.len() {
        s.len() as int
    } else if open == close {
        if s[i] == close {
            if i + 1 < s.len() && s[i + 1] == close {
                delimited_end(s, i + 2, open, close, depth)
            } else {
                i + 1
            }
        } else {
            delimited_end(s, i + 1, open, close, depth)
        }
    } else if s[i] == open {
        delimited_end(s, i + 1, open, close, depth + 1)
    } else if s[i] == close {
        if depth <= 1 {
            i + 1
        } else {
            delimited_end(s, i + 1, open, close, (depth - 1) as nat)
        }
    } else {
        delimited_end(s, i + 1, open, close, depth)
    }
}

pub proof fn lemma_delimited_end_bounds(s: Seq<char>, i: int, open: char, close: char, depth: nat)
    requires
        0 <= i <= s.len(),
    ensures
        i <= delimited_end(s, i, open, close, depth) <= s.len(),
        i < s.len() ==> i < delimited_end(s, i, open, close, depth),
    decreases s.len() - i,
{
    if i < s.len() {
        if open == close {
            if s[i] == close {
                if i + 1 < s.len() && s[i + 1] == close {
                    lemma_delimited_end_bounds(s, i + 2, open, close, depth);
                }
            } else {
                lemma_delimited_end_bounds(s, i + 1, open, close, depth);
            }
        } else if s[i] == open {
            lemma_delimited_end_bounds(s, i + 1, open, close, depth + 1);
        } else if s[i] == close {
            if depth > 1 {
                lemma_delimited_end_bounds(s, i + 1, open, close, (depth - 1) as nat);
            }
        } else {
            lemma_delimited_end_bounds(s, i + 1, open, close, depth);
        }
    }
}

/// Consumes a delimited run that opens at `index`, tolerating nesting for
/// `{}` and the doubled-quote escape Skript uses inside strings. Returns the
/// character index one past the run.
pub fn skip_delimited(chars: &Vec<char>, index: usize, open: char, close: char) -> (end: usize)
    requires
        index < chars@.len(),
    ensures
        end == delimited_end(chars@, index + 1, open, close, 1),
        index < end <= chars@.len(),
{
    let nests = open != close;
    let mut depth: usize = 1;
    let n = chars.len();
    let mut i = index + 1;
    proof {
        lemma_delimited_end_bounds(chars@, i as int, open, close, 1);
    }
    while i < chars.len()
        invariant
            index < i <= chars@.len(),
            nests == (open != close),
            depth >= 1,
            depth <= i,
            delimited_end(chars@, index + 1, open, close, 1) == delimited_end(chars@, i as int, open, close, depth as nat),
        decreases chars@.len() - i,
    {
        let c = chars[i];
        if !nests && c == close {
            if i + 1 < chars.len() && chars[i + 1] == close {
                i += 2;
                continue;
            }
            return i + 1;
        }
        if nests {
            if c == open {
                depth += 1;
            } else if c == close {
                if depth <= 1 {
                    return i + 1;
                }
                depth -= 1;
            }
        }
        i += 1;
    }
    i
}

/// A character that begins a delimited run.
pub open spec fn opens_run(c: char) -> bool {
    c == '"' || c == '{' || c == '%'
}

/// Where the token that starts at `i` ends.
pub open spec fn token_end(s: Seq<char>, i: int) -> int {
    let c = s[i];
    if c == '"' {
        delimited_end(s, i + 1, '"', '"', 1)
    } else if c == '{' {
        delimited_end(s, i + 1, '{', '}', 1)
    } else if c == '%' {
        delimited_end(s, i + 1, '%', '%', 1)
    } else {
        word_end(s, i)
    }
}

/// Where a plain word starting at `i` ends: at ASCII whitespace or the start
/// of a delimited run.
pub open spec fn word_end(s: Seq<char>, i: int) -> int
    decreases s.len() - i,
{
    if i < 0 || i >= s.len() || is_ascii_white(s[i]) || opens_run(s[i]) {
        if i < 0 {
            0
        } else {
            i
        }
    } else {
        word_end(s, i + 1)
    }
}

pub proof fn lemma_word_end_bounds(s: Seq<char>, i: int)
    requires
        0 <= i <= s.len(),
    ensures
        i <= word_end(s, i) <= s.len(),
    decreases s.len() - i,
{
    if i < s.len() && !is_ascii_white(s[i]) && !opens_run(s[i]) {
        lemma_word_end_bounds(s, i + 1);
    }
}

/// A token as plain values: its characters (lowercased) and its byte span.
pub struct TokenView {
    pub text: Seq<char>,
    pub start: int,
    pub end: int,
}

/// The tokens of `s` from character `i` on, counted in characters.
pub open spec fn tokens_from(s: Seq<char>, i: int) -> Seq<(int, int)>
    decreases s.len() - i,
{
    if i < 0 || i >= s.len() {
        Seq::empty()
    } else if is_ascii_white(s[i]) {
        tokens_from(s, i + 1)
    } else {
        let e = token_end(s, i);
        let e2 = if e <= i || e > s.len() {
            i + 1
        } else {
            e
        };
        seq![(i, e2)] + tokens_from(s, e2)
    }
}

/// The tokens of a line: each run's text, ASCII-lowercased, with its byte
/// span.
pub open spec fn tokens_of(s: Seq<char>) -> Seq<TokenView> {
    tokens_from(s, 0).map_values(
        |t: (int, int)|
            TokenView {
                text: lower_seq(s.subrange(t.0, t.1)),
                start: byte_len(s.take(t.0)) as int,
                end: byte_len(s.take(t.1)) as int,
            },
    )
}

pub open spec fn token_view(t: Token) -> TokenView {
    TokenView { text: t.text@, start: t.start as int, end: t.end as int }
}

pub open spec fn tokens_view(v: Seq<Token>) -> Seq<TokenView> {
    v.map_values(|t: Token| token_view(t))
}

pub proof fn lemma_tokens_from_bounds(s: Seq<char>, i: int)
    requires
        0 <= i <= s.len(),
    ensures
        forall|k: int|
            0 <= k < tokens_from(s, i).len() ==> i <= (#[trigger] tokens_from(s, i)[k]).0
                < tokens_from(s, i)[k].1 <= s.len(),
        forall|j: int, k: int|
            0 <= j < k < tokens_from(s, i).len() ==> (#[trigger] tokens_from(s, i)[j]).1
                <= (#[trigger] tokens_from(s, i)[k]).0,
    decreases s.len() - i,
{
    if i < s.len() {
        if is_ascii_white(s[i]) {
            lemma_tokens_from_bounds(s, i + 1);
            assert(tokens_from(s, i) == tokens_from(s, i + 1));
        } else {
            let e = token_end(s, i);
            let e2 = if e <= i || e > s.len() {
                i + 1
            } else {
                e
            };
            lemma_tokens_from_bounds(s, e2);
            let rest = tokens_from(s, e2);
            let all = tokens_from(s, i);
            assert(all == seq![(i, e2)] + rest);
            assert forall|k: int| 0 <= k < all.len() implies i <= (#[trigger] all[k]).0 < all[k].1 <= s.len() by {
                if k > 0 {
                    assert(all[k] == rest[k - 1]);
                }
            }
            assert forall|j: int, k: int| 0 <= j < k < all.len() implies (#[trigger] all[j]).1 <= (#[trigger] all[k]).0 by {
                assert(all[k] == rest[k - 1]);
                if j > 0 {
                    assert(all[j] == rest[j - 1]);
                }
            }
        }
    }
}

pub open spec fn spans_view(v: Seq<(usize, usize)>) -> Seq<(int, int)> {
    v.map_values(|p: (usize, usize)| (p.0 as int, p.1 as int))
}

/// The character spans of the tokens of `chars`.
pub fn token_spans(chars: &Vec<char>) -> (spans: Vec<(usize, usize)>)
    ensures
        spans_view(spans@) == tokens_from(chars@, 0),
{
    let ghost s = chars@;
    let mut spans: Vec<(usize, usize)> = Vec::new();
    let mut index: usize = 0;
    assert(tokens_from(s, 0) == spans_view(spans@) + tokens_from(s, 0));
    while index < chars.len()
        invariant
            s == chars@,
            index <= s.len(),
            tokens_from(s, 0) == spans_view(spans@) + tokens_from(s, index as int),
        decreases s.len() - index,
    {
        let c = chars[index];
        if is_ascii_white_char(c) {
            index += 1;
            continue;
        }
        let start = index;
        let end = if c == '"' {
            skip_delimited(chars, index, '"', '"')
        } else if c == '{' {
            skip_delimited(chars, index, '{', '}')
        } else if c == '%' {
            skip_delimited(chars, index, '%', '%')
        } else {
            let mut k = index;
            while k < chars.len() && !is_ascii_white_char(chars[k]) && !(chars[k] == '"' || chars[k]
                == '{' || chars[k] == '%')
                invariant
                    index <= k <= s.len(),
                    s == chars@,
                    word_end(s, index as int) == word_end(s, k as int),
                decreases s.len() - k,
            {
                k += 1;
            }
            k
        };
        proof {
            lemma_word_end_bounds(s, index as int);
        }
        // An unterminated run still makes progress.
        let end = if end == start {
            start + 1
        } else {
            end
        };
        let ghost before = spans@;
        spans.push((start, end));
        proof {
            let t = (start as int, end as int);
            assert(tokens_from(s, index as int) == seq![t] + tokens_from(s, end as int));
            assert(spans_view(spans@) =~= spans_view(before) + seq![t]);
            assert(spans_view(before) + (seq![t] + tokens_from(s, end as int)) =~= spans_view(spans@)
                + tokens_from(s, end as int));
        }
        index = end;
    }
    assert(spans_view(spans@) + Seq::<(int, int)>::empty() =~= spans_view(spans@));
    spans
}

/// Splits a line into tokens, keeping strings, variables and interpolations
/// whole.
pub fn tokenize(line: &str) -> (tokens: Vec<Token>)
    requires
        byte_len(line@) <= usize::MAX,
    ensures
        tokens_view(tokens@) == tokens_of(line@),
{
    let chars = chars_of(line);
    let spans = token_spans(&chars);
    tokens_at(&chars, &spans)
}

/// The tokens with the given character spans: their lowercased text and
/// their byte spans.
fn tokens_at(chars: &Vec<char>, spans: &Vec<(usize, usize)>) -> (tokens: Vec<Token>)
    requires
        byte_len(chars@) <= usize::MAX,
        spans_view(spans@) == tokens_from(chars@, 0),
    ensures
        tokens_view(tokens@) == tokens_of(chars@),
{
    let ghost s = chars@;
    let ghost all = tokens_from(s, 0);
    proof {
        lemma_tokens_from_bounds(s, 0);
    }
    let mut tokens: Vec<Token> = Vec::new();
    let mut at: usize = 0;
    let mut bytes: usize = 0;
    let mut k: usize = 0;
    while k < spans.len()
        invariant
            s == chars@,
            byte_len(s) <= usize::MAX,
            all == tokens_from(s, 0),
            spans_view(spans@) == all,
            k <= spans@.len(),
            forall|j: int| 0 <= j < all.len() ==> 0 <= (#[trigger] all[j]).0 < all[j].1 <= s.len(),
            forall|j: int, m: int| 0 <= j < m < all.len() ==> (#[trigger] all[j]).1 <= (#[trigger] all[m]).0,
            k < spans@.len() ==> at <= spans@[k as int].0,
            at <= s.len(),
            bytes == byte_len(s.take(at as int)),
            tokens_view(tokens@) == tokens_of(s).take(k as int),
        decreases spans@.len() - k,
    {
        let (a, e) = spans[k];
        assert(all[k as int] == (a as int, e as int));
        let mut start_byte = bytes;
        while at < a
            invariant
                at <= a <= s.len(),
                s == chars@,
                byte_len(s) <= usize::MAX,
                start_byte == byte_len(s.take(at as int)),
            decreases a - at,
        {
            proof {
                assert(s.take(at + 1).drop_last() =~= s.take(at as int));
                crate::strings::lemma_byte_len_prefix(s, at + 1);
            }
            start_byte = start_byte + char_len_utf8(chars[at]);
            at += 1;
        }
        let mut end_byte = start_byte;
        while at < e
            invariant
                a <= at <= e <= s.len(),
                s == chars@,
                byte_len(s) <= usize::MAX,
                end_byte == byte_len(s.take(at as int)),
            decreases e - at,
        {
            proof {
                assert(s.take(at + 1).drop_last() =~= s.take(at as int));
                crate::strings::lemma_byte_len_prefix(s, at + 1);
            }
            end_byte = end_byte + char_len_utf8(chars[at]);
            at += 1;
        }
        let text = lower_chars(&slice(chars, a, e));
        let ghost before = tokens@;
        tokens.push(Token { text: string_of(&text), start: start_byte, end: end_byte });
        proof {
            assert(tokens_of(s)[k as int] == TokenView {
                text: lower_seq(s.subrange(a as int, e as int)),
                start: byte_len(s.take(a as int)) as int,
                end: byte_len(s.take(e as int)) as int,
            });
            assert(tokens_view(tokens@) =~= tokens_view(before).push(tokens_of(s)[k as int]));
            assert(tokens_of(s).take(k + 1) =~= tokens_of(s).take(k as int).push(tokens_of(s)[k as int]));
            if k + 1 < spans@.len() {
                assert(all[k as int].1 <= all[k + 1].0);
            }
        }
        bytes = end_byte;
        k += 1;
    }
    assert(tokens_of(s).take(spans@.len() as int) =~= tokens_of(s));
    tokens
}

// ------------------------------------------------------------ matching

/// Upper bound on matcher steps for one pattern and line: real patterns have a
/// handful of slots, and a pathological line must not hang the editor.
pub const STEP_BUDGET: u32 = 20000;

/// What a `%...%` slot captured.
#[derive(Debug, PartialEq, Eq)]
pub struct SlotCapture {
    pub slot: Slot,
    /// The captured text, exactly as it appears in the line.
    pub text: String,
    /// Byte span in the line.
    pub start: usize,
    pub end: usize,
}

/// A successful match.
#[derive(Debug, PartialEq, Eq)]
pub struct Match {
    pub captures: Vec<SlotCapture>,
}

/// A capture as plain values.
pub struct CaptureView {
    pub slot: SlotView,
    pub text: Seq<char>,
    pub start: int,
    pub end: int,
}

pub open spec fn capture_view(c: SlotCapture) -> CaptureView {
    CaptureView { slot: slot_view(c.slot), text: c.text@, start: c.start as int, end: c.end as int }
}

pub open spec fn captures_view(v: Seq<SlotCapture>) -> Seq<CaptureView> {
    v.map_values(|c: SlotCapture| capture_view(c))
}

/// The number of tokens of a line.
pub open spec fn token_count(s: Seq<char>) -> int {
    tokens_from(s, 0).len() as int
}

/// Whether the tokens from `pos` on begin with the words `ws`.
pub open spec fn fits(s: Seq<char>, pos: int, ws: Seq<Seq<char>>) -> bool {
    &&& pos + ws.len() <= token_count(s)
    &&& forall|k: int| 0 <= k < ws.len() ==> tokens_of(s)[pos + k].text == #[trigger] ws[k]
}

/// What a slot captures when it takes the tokens `pos..end`: the line's text
/// from the first of them to the last, and its byte span.
pub open spec fn capture_at(s: Seq<char>, slot: SlotView, pos: int, end: int) -> CaptureView {
    CaptureView {
        slot,
        text: s.subrange(tokens_from(s, 0)[pos].0, tokens_from(s, 0)[end - 1].1),
        start: tokens_of(s)[pos].start,
        end: tokens_of(s)[end - 1].end,
    }
}

/// The fewest tokens a sequence of nodes can consume: a literal its words, an
/// optional nothing, a choice its cheapest branch, a slot or regex one.
pub open spec fn seq_min(ns: Seq<NodeView>) -> int
    decreases ns,
{
    if ns.len() == 0 {
        0
    } else {
        proof {
            assert(decreases_to!(ns => ns.last()));
        }
        seq_min(ns.drop_last()) + node_min(ns.last())
    }
}

pub open spec fn node_min(n: NodeView) -> int
    decreases n,
{
    match n {
        NodeView::Literal(t) => words_of(t).len() as int,
        NodeView::Optional(_) => 0,
        NodeView::Choice(bs) => branches_min(bs),
        NodeView::Slot(_) => 1,
        NodeView::Regex(_) => 1,
    }
}

pub open spec fn branches_min(bs: Seq<Seq<NodeView>>) -> int
    decreases bs,
{
    if bs.len() == 0 {
        0
    } else if bs.len() == 1 {
        proof {
            assert(decreases_to!(bs => bs[0]));
        }
        seq_min(bs[0])
    } else {
        proof {
            assert(decreases_to!(bs => bs.last()));
        }
        let a = branches_min(bs.drop_last());
        let b = seq_min(bs.last());
        if b < a {
            b
        } else {
            a
        }
    }
}

/// The fewest tokens the node lists still to be resumed can consume.
pub open spec fn stack_min(cont: Seq<Seq<NodeView>>) -> int
    decreases cont.len(),
{
    if cont.len() == 0 {
        0
    } else {
        stack_min(cont.drop_last()) + seq_min(cont.last())
    }
}

/// Matches the tokens of `s` from `pos` against the nodes `ns`, then against
/// the node lists of `cont` (resumed last first), the step counter standing at
/// `steps`. A match must reach the end of the line. The result is the captures
/// made, in order, or none, and the step counter afterwards.
pub open spec fn search(s: Seq<char>, ns: Seq<NodeView>, cont: Seq<Seq<NodeView>>, pos: int, steps: int) -> (
    Option<Seq<CaptureView>>,
    int,
)
    decreases STEP_BUDGET - steps, 0int, 0int,
{
    let now = steps + 1;
    if now > STEP_BUDGET {
        (None, now)
    } else if ns.len() == 0 {
        if cont.len() > 0 {
            search(s, cont.last(), cont.drop_last(), pos, now)
        } else if pos == token_count(s) {
            (Some(Seq::empty()), now)
        } else {
            (None, now)
        }
    } else {
        let rest = ns.skip(1);
        match ns[0] {
            NodeView::Literal(t) => {
                let ws = words_of(t);
                if fits(s, pos, ws) {
                    search(s, rest, cont, pos + ws.len(), now)
                } else {
                    (None, now)
                }
            },
            NodeView::Optional(inner) => {
                // Present first: the longer match is the more informative one.
                let (r, after) = search(s, inner, cont.push(rest), pos, now);
                if r is Some {
                    (r, after)
                } else if now <= after <= STEP_BUDGET {
                    search(s, rest, cont, pos, after)
                } else {
                    (None, after)
                }
            },
            NodeView::Choice(bs) => choose_branch(s, bs, 0, cont.push(rest), pos, now),
            NodeView::Slot(slot) => take_tokens(s, Some(slot), rest, cont, pos, now),
            NodeView::Regex(_) => take_tokens(s, None, rest, cont, pos, now),
        }
    }
}

/// Tries the branches from `i` on, in order, each followed by `cont`.
pub open spec fn choose_branch(
    s: Seq<char>,
    bs: Seq<Seq<NodeView>>,
    i: int,
    cont: Seq<Seq<NodeView>>,
    pos: int,
    steps: int,
) -> (Option<Seq<CaptureView>>, int)
    decreases STEP_BUDGET - steps, 1int, bs.len() - i,
{
    if i < 0 || i >= bs.len() {
        (None, steps)
    } else {
        let (r, after) = search(s, bs[i], cont, pos, steps);
        if r is Some {
            (r, after)
        } else if steps <= after <= STEP_BUDGET {
            choose_branch(s, bs, i + 1, cont, pos, after)
        } else {
            (None, after)
        }
    }
}

/// A slot or regex takes one or more tokens, as few as it can: no more than
/// leaves enough for the nodes that must still match.
pub open spec fn take_tokens(
    s: Seq<char>,
    slot: Option<SlotView>,
    rest: Seq<NodeView>,
    cont: Seq<Seq<NodeView>>,
    pos: int,
    steps: int,
) -> (Option<Seq<CaptureView>>, int)
    decreases STEP_BUDGET - steps, 2int, 0int,
{
    let available = if token_count(s) > pos {
        token_count(s) - pos
    } else {
        0
    };
    let most = available - (seq_min(rest) + stack_min(cont));
    if most < 1 {
        (None, steps)
    } else {
        widths(s, slot, rest, cont, pos, 1, most, steps)
    }
}

/// Tries taking `take`, `take + 1`, ... up to `most` tokens.
pub open spec fn widths(
    s: Seq<char>,
    slot: Option<SlotView>,
    rest: Seq<NodeView>,
    cont: Seq<Seq<NodeView>>,
    pos: int,
    take: int,
    most: int,
    steps: int,
) -> (Option<Seq<CaptureView>>, int)
    decreases STEP_BUDGET - steps, 1int, 0int,
{
    if take > most {
        (None, steps)
    } else {
        let now = steps + 1;
        if now > STEP_BUDGET {
            (None, now)
        } else {
            let end = pos + take;
            let caught = match slot {
                Some(sl) => seq![capture_at(s, sl, pos, end)],
                None => Seq::empty(),
            };
            let (r, after) = search(s, rest, cont, end, now);
            match r {
                Some(more) => (Some(caught + more), after),
                None => if now <= after <= STEP_BUDGET {
                    widths(s, slot, rest, cont, pos, take + 1, most, after)
                } else {
                    (None, after)
                },
            }
        }
    }
}

/// What matching a whole pattern against a line gives.
pub open spec fn matched(s: Seq<char>, ns: Seq<NodeView>) -> Option<Seq<CaptureView>> {
    search(s, ns, Seq::empty(), 0, 0).0
}


pub proof fn lemma_seq_min_nonneg(ns: Seq<NodeView>)
    ensures
        seq_min(ns) >= 0,
    decreases ns,
{
    if ns.len() > 0 {
        assert(decreases_to!(ns => ns.last()));
        lemma_seq_min_nonneg(ns.drop_last());
        lemma_node_min_nonneg(ns.last());
    }
}

pub proof fn lemma_node_min_nonneg(n: NodeView)
    ensures
        node_min(n) >= 0,
    decreases n,
{
    if let NodeView::Choice(bs) = n {
        lemma_branches_min_nonneg(bs);
    }
}

pub proof fn lemma_branches_min_nonneg(bs: Seq<Seq<NodeView>>)
    ensures
        branches_min(bs) >= 0,
    decreases bs,
{
    if bs.len() == 1 {
        assert(decreases_to!(bs => bs[0]));
        lemma_seq_min_nonneg(bs[0]);
    } else if bs.len() > 1 {
        assert(decreases_to!(bs => bs.last()));
        lemma_branches_min_nonneg(bs.drop_last());
        lemma_seq_min_nonneg(bs.last());
    }
}

pub proof fn lemma_stack_min_nonneg(cont: Seq<Seq<NodeView>>)
    ensures
        stack_min(cont) >= 0,
    decreases cont.len(),
{
    if cont.len() > 0 {
        lemma_stack_min_nonneg(cont.drop_last());
        lemma_seq_min_nonneg(cont.last());
    }
}

/// `x`, or `cap` when `x` is larger.
pub open spec fn at_most(x: int, cap: int) -> int {
    if x < cap {
        x
    } else {
        cap
    }
}

fn add_capped(a: usize, b: usize, cap: usize) -> (r: usize)
    requires
        a <= cap,
        b <= cap,
    ensures
        r == at_most(a + b, cap as int),
{
    if a >= cap - b {
        cap
    } else {
        a + b
    }
}

/// The fewest tokens `nodes[from..]` can consume, or `cap` if that is less.
fn min_tokens(nodes: &Vec<Node>, from: usize, cap: usize) -> (m: usize)
    requires
        from <= nodes@.len(),
    ensures
        m == at_most(seq_min(nodes_view(nodes@).skip(from as int)), cap as int),
    decreases nodes@, 1nat,
{
    let ghost nv = nodes_view(nodes@);
    proof {
        lemma_nodes_view_len(nodes@);
    }
    let mut acc: usize = 0;
    let mut i = from;
    assert(nv.subrange(from as int, from as int) =~= Seq::<NodeView>::empty());
    while i < nodes.len()
        invariant
            from <= i <= nodes@.len(),
            nv == nodes_view(nodes@),
            nv.len() == nodes@.len(),
            forall|k: int| 0 <= k < nodes@.len() ==> #[trigger] nv[k] == node_view(nodes@[k]),
            acc <= cap,
            acc == at_most(seq_min(nv.subrange(from as int, i as int)), cap as int),
        decreases nodes@.len() - i,
    {
        proof {
            assert(decreases_to!(nodes@ => nodes@[i as int]));
            let step = nv.subrange(from as int, i + 1);
            assert(step.drop_last() =~= nv.subrange(from as int, i as int));
            assert(step.last() == node_view(nodes@[i as int]));
            lemma_seq_min_nonneg(nv.subrange(from as int, i as int));
            lemma_node_min_nonneg(node_view(nodes@[i as int]));
        }
        let v = capped_node_min(&nodes[i], cap);
        acc = add_capped(acc, v, cap);
        i += 1;
    }
    assert(nv.subrange(from as int, nodes@.len() as int) =~= nv.skip(from as int));
    acc
}

fn capped_node_min(node: &Node, cap: usize) -> (m: usize)
    ensures
        m == at_most(node_min(node_view(*node)), cap as int),
        m <= cap,
    decreases *node, 0nat,
{
    proof {
        lemma_node_min_nonneg(node_view(*node));
    }
    match node {
        Node::Literal(text) => {
            let count = crate::parser::words(&chars_of(text.as_str())).len();
            if count < cap {
                count
            } else {
                cap
            }
        },
        Node::Optional(_) => 0,
        Node::Choice(branches) => {
            let ghost bv = branches_view(branches@);
            proof {
                assert(decreases_to!(*node => *branches));
                assert(decreases_to!(*branches => branches@));
                lemma_branches_view_at(branches@);
            }
            if branches.len() == 0 {
                return 0;
            }
            proof {
                assert(decreases_to!(branches@ => branches@[0]));
                assert(decreases_to!(branches@[0] => branches@[0]@));
                assert(nodes_view(branches@[0]@).skip(0) =~= nodes_view(branches@[0]@));
                assert(bv.take(1).drop_last() =~= Seq::<Seq<NodeView>>::empty());
            }
            let mut best = min_tokens(&branches[0], 0, cap);
            let mut i: usize = 1;
            while i < branches.len()
                invariant
                    1 <= i <= branches@.len(),
                    decreases_to!(*node => branches@),
                    bv == branches_view(branches@),
                    bv.len() == branches@.len(),
                    forall|k: int| 0 <= k < branches@.len() ==> #[trigger] bv[k] == nodes_view(branches@[k]@),
                    best <= cap,
                    best == at_most(branches_min(bv.take(i as int)), cap as int),
                decreases branches@.len() - i,
            {
                proof {
                    assert(decreases_to!(branches@ => branches@[i as int]));
                    assert(decreases_to!(branches@[i as int] => branches@[i as int]@));
                    assert(nodes_view(branches@[i as int]@).skip(0) =~= nodes_view(branches@[i as int]@));
                    let step = bv.take(i + 1);
                    assert(step.drop_last() =~= bv.take(i as int));
                    assert(step.last() == bv[i as int]);
                }
                let here = min_tokens(&branches[i], 0, cap);
                if here < best {
                    best = here;
                }
                i += 1;
            }
            assert(bv.take(bv.len() as int) =~= bv);
            best
        },
        _ => {
            if 1 < cap {
                1
            } else {
                cap
            }
        },
    }
}


/// A node list still to be resumed: the nodes of `.0` from index `.1` on.
pub open spec fn cont_view(c: Seq<(&Vec<Node>, usize)>) -> Seq<Seq<NodeView>> {
    c.map_values(|f: (&Vec<Node>, usize)| nodes_view(f.0@).skip(f.1 as int))
}

pub open spec fn frames_ok(c: Seq<(&Vec<Node>, usize)>) -> bool {
    forall|k: int| 0 <= k < c.len() ==> (#[trigger] c[k]).1 <= c[k].0@.len()
}

/// A line prepared for matching: its characters, the character and byte
/// spans of its tokens, and their lowercased texts.
struct Line {
    chars: Vec<char>,
    spans: Vec<(usize, usize)>,
    tokens: Vec<Token>,
    texts: Vec<Vec<char>>,
}

impl Line {
    spec fn wf(&self) -> bool {
        let s = self.chars@;
        let all = tokens_from(s, 0);
        &&& byte_len(s) <= usize::MAX
        &&& spans_view(self.spans@) == all
        &&& tokens_view(self.tokens@) == tokens_of(s)
        &&& self.tokens@.len() == all.len()
        &&& self.spans@.len() == all.len()
        &&& self.texts@.len() == all.len()
        &&& forall|k: int| 0 <= k < all.len() ==> (#[trigger] self.texts@[k])@ == tokens_of(s)[k].text
        &&& forall|j: int| 0 <= j < all.len() ==> 0 <= (#[trigger] all[j]).0 < all[j].1 <= s.len()
        &&& forall|j: int, m: int| 0 <= j < m < all.len() ==> (#[trigger] all[j]).1 <= (#[trigger] all[m]).0
    }

    fn new(line: &str) -> (l: Line)
        requires
            byte_len(line@) <= usize::MAX,
        ensures
            l.wf(),
            l.chars@ == line@,
    {
        let chars = chars_of(line);
        let spans = token_spans(&chars);
        let tokens = tokens_at(&chars, &spans);
        proof {
            lemma_tokens_from_bounds(chars@, 0);
            assert(tokens_view(tokens@).len() == tokens@.len());
            assert(tokens_of(chars@).len() == tokens_from(chars@, 0).len());
            assert(spans_view(spans@).len() == spans@.len());
        }
        let mut texts: Vec<Vec<char>> = Vec::new();
        let mut k: usize = 0;
        while k < tokens.len()
            invariant
                k <= tokens@.len(),
                tokens_view(tokens@) == tokens_of(chars@),
                texts@.len() == k,
                forall|j: int| 0 <= j < k ==> (#[trigger] texts@[j])@ == tokens_of(chars@)[j].text,
            decreases tokens@.len() - k,
        {
            assert(token_view(tokens@[k as int]) == tokens_of(chars@)[k as int]);
            texts.push(chars_of(tokens[k].text.as_str()));
            k += 1;
        }
        Line { chars, spans, tokens, texts }
    }

    /// Whether the tokens from `pos` on begin with `words`.
    fn fits(&self, pos: usize, words: &Vec<Vec<char>>) -> (b: bool)
        requires
            self.wf(),
        ensures
            b == fits(self.chars@, pos as int, vecs_view(words@)),
    {
        let n = self.texts.len();
        if pos > n || words.len() > n - pos {
            return false;
        }
        let mut k: usize = 0;
        while k < words.len()
            invariant
                self.wf(),
                n == self.texts@.len(),
                pos + words@.len() <= n,
                k <= words@.len(),
                forall|j: int| 0 <= j < k ==> tokens_of(self.chars@)[pos + j].text == #[trigger] vecs_view(words@)[j],
            decreases words@.len() - k,
        {
            if !crate::strings::chars_eq(&self.texts[pos + k], &words[k]) {
                assert(self.texts@[pos + k]@ == tokens_of(self.chars@)[pos + k].text);
                assert(vecs_view(words@)[k as int] == words@[k as int]@);
                return false;
            }
            assert(vecs_view(words@)[k as int] == words@[k as int]@);
            k += 1;
        }
        true
    }

    /// What `slot` captures when it takes the tokens `pos..end`.
    fn capture(&self, slot: &Slot, pos: usize, end: usize) -> (c: SlotCapture)
        requires
            self.wf(),
            pos < end <= tokens_from(self.chars@, 0).len(),
        ensures
            capture_view(c) == capture_at(self.chars@, slot_view(*slot), pos as int, end as int),
    {
        let ghost all = tokens_from(self.chars@, 0);
        let a = self.spans[pos].0;
        let b = self.spans[end - 1].1;
        assert(spans_view(self.spans@)[pos as int] == all[pos as int]);
        assert(spans_view(self.spans@)[end - 1] == all[end - 1]);
        if pos < end - 1 {
            assert(all[pos as int].1 <= all[end - 1].0);
        }
        let text = string_of(&slice(&self.chars, a, b));
        assert(token_view(self.tokens@[pos as int]) == tokens_of(self.chars@)[pos as int]);
        assert(token_view(self.tokens@[end - 1]) == tokens_of(self.chars@)[end - 1]);
        SlotCapture {
            slot: crate::parser::copy_slot(slot),
            text,
            start: self.tokens[pos].start,
            end: self.tokens[end - 1].end,
        }
    }
}


/// Whether a search result agrees with what the model gives: the same step
/// counter afterwards, and on success the captures appended in order; on
/// failure the captures untouched.
pub open spec fn agrees(
    found: bool,
    steps: u32,
    before: Seq<SlotCapture>,
    after: Seq<SlotCapture>,
    model: (Option<Seq<CaptureView>>, int),
) -> bool {
    &&& steps as int == model.1
    &&& match model.0 {
        Some(c) => found && captures_view(after) == captures_view(before) + c,
        None => !found && after == before,
    }
}

impl Line {
    /// Matches `nodes[at..]` and then the frames of `cont` from token `pos`.
    fn match_nodes<'p>(
        &self,
        nodes: &'p Vec<Node>,
        at: usize,
        cont: &mut Vec<(&'p Vec<Node>, usize)>,
        pos: usize,
        steps: u32,
        captures: &mut Vec<SlotCapture>,
    ) -> (r: (bool, u32))
        requires
            self.wf(),
            at <= nodes@.len(),
            pos <= token_count(self.chars@),
            frames_ok(old(cont)@),
            steps <= STEP_BUDGET,
        ensures
            final(cont)@ == old(cont)@,
            steps < r.1 <= STEP_BUDGET + 1,
            agrees(
                r.0,
                r.1,
                old(captures)@,
                final(captures)@,
                search(
                    self.chars@,
                    nodes_view(nodes@).skip(at as int),
                    cont_view(old(cont)@),
                    pos as int,
                    steps as int,
                ),
            ),
        decreases STEP_BUDGET - steps, 0int, 0int,
    {
        let ghost ns = nodes_view(nodes@).skip(at as int);
        let ghost cv = cont_view(cont@);
        proof {
            lemma_nodes_view_len(nodes@);
        }
        let now = steps + 1;
        if now > STEP_BUDGET {
            return (false, now);
        }
        if at >= nodes.len() {
            assert(ns.len() == 0);
            if cont.len() > 0 {
                let ghost whole = cont@;
                let frame = cont.pop().unwrap();
                proof {
                    assert(cont@ == whole.drop_last());
                    assert(cont_view(cont@) =~= cv.drop_last());
                    assert(cv.last() == nodes_view(frame.0@).skip(frame.1 as int));
                    assert(frame == whole[whole.len() - 1]);
                }
                let r = self.match_nodes(frame.0, frame.1, cont, pos, now, captures);
                cont.push(frame);
                assert(cont@ =~= whole);
                return r;
            }
            return (pos == self.tokens.len(), now);
        }
        proof {
            assert(ns[0] == node_view(nodes@[at as int]));
            assert(ns.skip(1) =~= nodes_view(nodes@).skip(at + 1));
        }
        match &nodes[at] {
            Node::Literal(text) => {
                let ws = crate::parser::words(&chars_of(text.as_str()));
                assert(vecs_view(ws@).len() == ws@.len());
                if self.fits(pos, &ws) {
                    let total = self.tokens.len();
                    assert(pos + ws@.len() <= total);
                    self.match_nodes(nodes, at + 1, cont, pos + ws.len(), now, captures)
                } else {
                    (false, now)
                }
            },
            Node::Optional(inner) => {
                let ghost whole = cont@;
                cont.push((nodes, at + 1));
                proof {
                    assert(cont_view(cont@) =~= cv.push(ns.skip(1)));
                    assert(nodes_view(inner@).skip(0) =~= nodes_view(inner@));
                }
                let (found, after) = self.match_nodes(inner, 0, cont, pos, now, captures);
                cont.pop();
                assert(cont@ =~= whole);
                if found {
                    return (true, after);
                }
                if after > STEP_BUDGET {
                    return (false, after);
                }
                self.match_nodes(nodes, at + 1, cont, pos, after, captures)
            },
            Node::Choice(branches) => {
                let ghost whole = cont@;
                cont.push((nodes, at + 1));
                proof {
                    assert(cont_view(cont@) =~= cv.push(ns.skip(1)));
                }
                let r = self.choose_branch(branches, cont, pos, now, captures);
                cont.pop();
                assert(cont@ =~= whole);
                r
            },
            Node::Slot(slot) => self.match_variable_width(Some(slot), nodes, at + 1, cont, pos, now, captures),
            Node::Regex(_) => self.match_variable_width(None, nodes, at + 1, cont, pos, now, captures),
        }
    }

    /// Tries each branch in turn, followed by `cont`.
    fn choose_branch<'p>(
        &self,
        branches: &'p Vec<Vec<Node>>,
        cont: &mut Vec<(&'p Vec<Node>, usize)>,
        pos: usize,
        steps: u32,
        captures: &mut Vec<SlotCapture>,
    ) -> (r: (bool, u32))
        requires
            self.wf(),
            pos <= token_count(self.chars@),
            frames_ok(old(cont)@),
            steps <= STEP_BUDGET,
        ensures
            final(cont)@ == old(cont)@,
            steps <= r.1 <= STEP_BUDGET + 1,
            agrees(
                r.0,
                r.1,
                old(captures)@,
                final(captures)@,
                choose_branch(
                    self.chars@,
                    branches_view(branches@),
                    0,
                    cont_view(old(cont)@),
                    pos as int,
                    steps as int,
                ),
            ),
        decreases STEP_BUDGET - steps, 1int, 0int,
    {
        let ghost bv = branches_view(branches@);
        let ghost cv = cont_view(cont@);
        let ghost start = steps;
        proof {
            lemma_branches_view_at(branches@);
        }
        let mut now = steps;
        let mut i: usize = 0;
        while i < branches.len()
            invariant
                self.wf(),
                pos <= token_count(self.chars@),
                frames_ok(cont@),
                cv == cont_view(cont@),
                bv == branches_view(branches@),
                bv.len() == branches@.len(),
                forall|k: int| 0 <= k < branches@.len() ==> #[trigger] bv[k] == nodes_view(branches@[k]@),
                i <= branches@.len(),
                start == steps,
                start <= now <= STEP_BUDGET,
                captures@ == old(captures)@,
                cont@ == old(cont)@,
                choose_branch(self.chars@, bv, 0, cv, pos as int, start as int) == choose_branch(
                    self.chars@,
                    bv,
                    i as int,
                    cv,
                    pos as int,
                    now as int,
                ),
            decreases branches@.len() - i,
        {
            assert(nodes_view(branches@[i as int]@).skip(0) =~= bv[i as int]);
            let (found, after) = self.match_nodes(&branches[i], 0, cont, pos, now, captures);
            if found {
                return (true, after);
            }
            if after > STEP_BUDGET {
                return (false, after);
            }
            now = after;
            i += 1;
        }
        (false, now)
    }

    /// A slot or regex takes as few tokens as it can, and at most as many as
    /// leave enough for what must still match.
    fn match_variable_width<'p>(
        &self,
        slot: Option<&Slot>,
        nodes: &'p Vec<Node>,
        from: usize,
        cont: &mut Vec<(&'p Vec<Node>, usize)>,
        pos: usize,
        steps: u32,
        captures: &mut Vec<SlotCapture>,
    ) -> (r: (bool, u32))
        requires
            self.wf(),
            from <= nodes@.len(),
            pos <= token_count(self.chars@),
            frames_ok(old(cont)@),
            steps <= STEP_BUDGET,
        ensures
            final(cont)@ == old(cont)@,
            steps <= r.1 <= STEP_BUDGET + 1,
            agrees(
                r.0,
                r.1,
                old(captures)@,
                final(captures)@,
                take_tokens(
                    self.chars@,
                    match slot {
                        Some(sl) => Some(slot_view(*sl)),
                        None => None,
                    },
                    nodes_view(nodes@).skip(from as int),
                    cont_view(old(cont)@),
                    pos as int,
                    steps as int,
                ),
            ),
        decreases STEP_BUDGET - steps, 2int, 0int,
    {
        let ghost sv = match slot {
            Some(sl) => Some(slot_view(*sl)),
            None => None,
        };
        let ghost rest = nodes_view(nodes@).skip(from as int);
        let ghost cv = cont_view(cont@);
        let available = self.tokens.len() - pos;
        let mut reserved = min_tokens(nodes, from, available);
        let mut k: usize = 0;
        proof {
            lemma_seq_min_nonneg(rest);
            assert(cv.take(0) =~= Seq::<Seq<NodeView>>::empty());
        }
        while k < cont.len()
            invariant
                k <= cont@.len(),
                cv == cont_view(cont@),
                frames_ok(cont@),
                reserved <= available,
                reserved == at_most(seq_min(rest) + stack_min(cv.take(k as int)), available as int),
            decreases cont@.len() - k,
        {
            let (list, index) = cont[k];
            proof {
                assert(cv.take(k + 1).drop_last() =~= cv.take(k as int));
                assert(cv.take(k + 1).last() == nodes_view(list@).skip(index as int));
                lemma_stack_min_nonneg(cv.take(k as int));
                lemma_seq_min_nonneg(nodes_view(list@).skip(index as int));
            }
            let here = min_tokens(list, index, available);
            reserved = add_capped(reserved, here, available);
            k += 1;
        }
        assert(cv.take(cv.len() as int) =~= cv);
        if reserved >= available {
            return (false, steps);
        }
        let most = available - reserved;
        let total = self.tokens.len();
        let ghost first = steps;
        assert(take_tokens(self.chars@, sv, rest, cv, pos as int, steps as int) == widths(
            self.chars@,
            sv,
            rest,
            cv,
            pos as int,
            1,
            most as int,
            steps as int,
        ));
        let mut now = steps;
        let mut taken: usize = 0;
        while taken < most
            invariant
                self.wf(),
                from <= nodes@.len(),
                pos <= token_count(self.chars@),
                pos + most <= token_count(self.chars@),
                frames_ok(cont@),
                cv == cont_view(cont@),
                cont@ == old(cont)@,
                captures@ == old(captures)@,
                taken <= most,
                first == steps,
                rest == nodes_view(nodes@).skip(from as int),
                sv == match slot {
                    Some(sl) => Some(slot_view(*sl)),
                    None => None,
                },
                token_count(self.chars@) == total,
                take_tokens(self.chars@, sv, rest, cv, pos as int, first as int) == widths(
                    self.chars@,
                    sv,
                    rest,
                    cv,
                    pos as int,
                    1,
                    most as int,
                    first as int,
                ),
                first <= now <= STEP_BUDGET,
                widths(self.chars@, sv, rest, cv, pos as int, 1, most as int, first as int) == widths(
                    self.chars@,
                    sv,
                    rest,
                    cv,
                    pos as int,
                    taken + 1,
                    most as int,
                    now as int,
                ),
            decreases most - taken,
        {
            let take = taken + 1;
            let next = now + 1;
            if next > STEP_BUDGET {
                return (false, next);
            }
            let end = pos + take;
            let mark = captures.len();
            let ghost caught: Seq<CaptureView>;
            match slot {
                Some(sl) => {
                    let c = self.capture(sl, pos, end);
                    captures.push(c);
                    proof {
                        caught = seq![capture_at(self.chars@, slot_view(*sl), pos as int, end as int)];
                    }
                },
                None => {
                    proof {
                        caught = Seq::empty();
                    }
                },
            }
            let ghost pushed = captures@;
            assert(captures_view(pushed) =~= captures_view(old(captures)@) + caught);
            let ghost model = search(self.chars@, rest, cv, end as int, next as int);
            let (found, after) = self.match_nodes(nodes, from, cont, end, next, captures);
            if found {
                let ghost more = model.0.unwrap();
                assert(captures_view(captures@) == captures_view(pushed) + more);
                assert(captures_view(captures@) =~= captures_view(old(captures)@) + (caught + more));
                return (true, after);
            }
            captures.truncate(mark);
            assert(captures@ =~= old(captures)@);
            if after > STEP_BUDGET {
                return (false, after);
            }
            now = after;
            taken = take;
        }
        (false, now)
    }
}

/// Matches `line` against `pattern`. A match must take in the whole line;
/// the search gives up, reporting no match, once its step budget is spent.
pub fn match_pattern(pattern: &Pattern, line: &str) -> (r: Option<Match>)
    requires
        byte_len(line@) <= usize::MAX,
    ensures
        match matched(line@, nodes_view(pattern.nodes@)) {
            Some(c) => r matches Some(m) && captures_view(m.captures@) == c,
            None => r is None,
        },
{
    let text = Line::new(line);
    let mut cont: Vec<(&Vec<Node>, usize)> = Vec::new();
    let mut captures: Vec<SlotCapture> = Vec::new();
    proof {
        lemma_nodes_view_len(pattern.nodes@);
        assert(nodes_view(pattern.nodes@).skip(0) =~= nodes_view(pattern.nodes@));
        assert(cont_view(cont@) =~= Seq::<Seq<NodeView>>::empty());
        assert(captures_view(captures@) =~= Seq::<CaptureView>::empty());
    }
    let (found, _) = text.match_nodes(&pattern.nodes, 0, &mut cont, 0, 0, &mut captures);
    if found {
        assert(captures_view(captures@) =~= Seq::<CaptureView>::empty() + captures_view(captures@));
        Some(Match { captures })
    } else {
        None
    }
}


// ------------------------------------------------------------ required words

/// Whether `w` is the text of one of the line's tokens.
pub open spec fn appears(s: Seq<char>, w: Seq<char>) -> bool {
    exists|k: int| 0 <= k < token_count(s) && #[trigger] tokens_of(s)[k].text == w
}

pub open spec fn all_appear(s: Seq<char>, ws: Seq<Seq<char>>) -> bool {
    forall|j: int| 0 <= j < ws.len() ==> appears(s, #[trigger] ws[j])
}

/// Every node list still to be resumed has its required words in the line.
pub open spec fn stack_appears(s: Seq<char>, cont: Seq<Seq<NodeView>>) -> bool {
    forall|k: int| 0 <= k < cont.len() ==> all_appear(s, required_of(#[trigger] cont[k]))
}

/// The words one top-level node requires.
pub open spec fn node_required(n: NodeView) -> Seq<Seq<char>> {
    match n {
        NodeView::Literal(t) => words_of(t),
        NodeView::Choice(bs) => if bs.len() > 0 {
            common_words(bs[0], bs.skip(1))
        } else {
            Seq::empty()
        },
        _ => Seq::empty(),
    }
}

proof fn lemma_all_appear_concat(s: Seq<char>, a: Seq<Seq<char>>, b: Seq<Seq<char>>)
    ensures
        all_appear(s, a + b) == (all_appear(s, a) && all_appear(s, b)),
{
    if all_appear(s, a) && all_appear(s, b) {
        assert forall|j: int| 0 <= j < (a + b).len() implies appears(s, #[trigger] (a + b)[j]) by {
            if j < a.len() {
                assert((a + b)[j] == a[j]);
            } else {
                assert((a + b)[j] == b[j - a.len()]);
            }
        }
    }
    if all_appear(s, a + b) {
        assert forall|j: int| 0 <= j < a.len() implies appears(s, #[trigger] a[j]) by {
            assert((a + b)[j] == a[j]);
        }
        assert forall|j: int| 0 <= j < b.len() implies appears(s, #[trigger] b[j]) by {
            assert((a + b)[a.len() + j] == b[j]);
        }
    }
}

proof fn lemma_required_concat(a: Seq<NodeView>, b: Seq<NodeView>)
    ensures
        required_of(a + b) == required_of(a) + required_of(b),
    decreases b.len(),
{
    if b.len() == 0 {
        assert(a + b =~= a);
        assert(required_of(a) + required_of(b) =~= required_of(a));
    } else {
        assert((a + b).drop_last() =~= a + b.drop_last());
        assert((a + b).last() == b.last());
        lemma_required_concat(a, b.drop_last());
        assert(required_of(a + b) =~= required_of(a) + required_of(b));
    }
}

proof fn lemma_required_front(ns: Seq<NodeView>)
    requires
        ns.len() > 0,
    ensures
        required_of(ns) == node_required(ns[0]) + required_of(ns.skip(1)),
{
    let one = seq![ns[0]];
    assert(ns =~= one + ns.skip(1));
    lemma_required_concat(one, ns.skip(1));
    assert(one.drop_last() =~= Seq::<NodeView>::empty());
    assert(one.last() == ns[0]);
    assert(required_of(Seq::<NodeView>::empty()) == Seq::<Seq<char>>::empty());
    assert(required_of(one) =~= node_required(ns[0]));
}

/// The literal words of a sequence are among its required words.
proof fn lemma_literal_words_required(s: Seq<char>, b: Seq<NodeView>)
    requires
        all_appear(s, required_of(b)),
    ensures
        all_appear(s, literal_words(b)),
    decreases b.len(),
{
    if b.len() > 0 {
        lemma_all_appear_concat(s, required_of(b.drop_last()), node_required(b.last()));
        lemma_literal_words_required(s, b.drop_last());
        let here = match b.last() {
            NodeView::Literal(t) => words_of(t),
            _ => Seq::<Seq<char>>::empty(),
        };
        lemma_all_appear_concat(s, literal_words(b.drop_last()), here);
    }
}

proof fn lemma_retained_within(ws: Seq<Seq<char>>, keep: Seq<Seq<char>>)
    ensures
        forall|j: int|
            0 <= j < retained(ws, keep).len() ==> ws.contains(#[trigger] retained(ws, keep)[j])
                && keep.contains(retained(ws, keep)[j]),
    decreases ws.len(),
{
    if ws.len() > 0 {
        lemma_retained_within(ws.drop_last(), keep);
        let r = retained(ws, keep);
        let prev = retained(ws.drop_last(), keep);
        assert forall|j: int| 0 <= j < r.len() implies ws.contains(#[trigger] r[j]) && keep.contains(r[j]) by {
            if j < prev.len() {
                assert(r[j] == prev[j]);
                let m = choose|m: int| 0 <= m < ws.drop_last().len() && ws.drop_last()[m] == prev[j];
                assert(ws[m] == prev[j]);
            } else {
                assert(r[j] == ws.last());
                assert(ws[ws.len() - 1] == ws.last());
            }
        }
    }
}

/// The words common to every branch are literal words of each branch.
proof fn lemma_common_within(first: Seq<NodeView>, rest: Seq<Seq<NodeView>>)
    ensures
        forall|j: int|
            0 <= j < common_words(first, rest).len() ==> literal_words(first).contains(
                #[trigger] common_words(first, rest)[j],
            ),
        forall|j: int, k: int|
            0 <= j < common_words(first, rest).len() && 0 <= k < rest.len() ==> literal_words(
                #[trigger] rest[k],
            ).contains(#[trigger] common_words(first, rest)[j]),
    decreases rest.len(),
{
    if rest.len() > 0 {
        lemma_common_within(first, rest.drop_last());
        let prev = common_words(first, rest.drop_last());
        let c = common_words(first, rest);
        lemma_retained_within(prev, literal_words(rest.last()));
        assert forall|j: int| 0 <= j < c.len() implies literal_words(first).contains(#[trigger] c[j]) by {
            let m = choose|m: int| 0 <= m < prev.len() && prev[m] == c[j];
            assert(literal_words(first).contains(prev[m]));
        }
        assert forall|j: int, k: int| 0 <= j < c.len() && 0 <= k < rest.len() implies literal_words(
            #[trigger] rest[k],
        ).contains(#[trigger] c[j]) by {
            if k < rest.len() - 1 {
                let m = choose|m: int| 0 <= m < prev.len() && prev[m] == c[j];
                assert(rest.drop_last()[k] == rest[k]);
                assert(literal_words(rest.drop_last()[k]).contains(prev[m]));
            } else {
                assert(rest[k] == rest.last());
            }
        }
    }
}

/// Everything in `ws` is in `from`, and every word of `from` appears.
proof fn lemma_appear_subset(s: Seq<char>, ws: Seq<Seq<char>>, from: Seq<Seq<char>>)
    requires
        all_appear(s, from),
        forall|j: int| 0 <= j < ws.len() ==> from.contains(#[trigger] ws[j]),
    ensures
        all_appear(s, ws),
{
    assert forall|j: int| 0 <= j < ws.len() implies appears(s, #[trigger] ws[j]) by {
        assert(from.contains(ws[j]));
        let m = choose|m: int| 0 <= m < from.len() && from[m] == ws[j];
        assert(appears(s, from[m]));
    }
}

proof fn lemma_stack_push(s: Seq<char>, cont: Seq<Seq<NodeView>>, ns: Seq<NodeView>)
    requires
        stack_appears(s, cont.push(ns)),
    ensures
        stack_appears(s, cont),
        all_appear(s, required_of(ns)),
{
    assert(cont.push(ns)[cont.len() as int] == ns);
    assert forall|k: int| 0 <= k < cont.len() implies all_appear(s, required_of(#[trigger] cont[k])) by {
        assert(cont.push(ns)[k] == cont[k]);
    }
}

/// Whatever a successful search passes through: the required words of the
/// nodes, and of the node lists still to be resumed, all appear in the line.
proof fn lemma_search_required(s: Seq<char>, ns: Seq<NodeView>, cont: Seq<Seq<NodeView>>, pos: int, steps: int)
    requires
        0 <= pos,
        search(s, ns, cont, pos, steps).0 is Some,
    ensures
        all_appear(s, required_of(ns)),
        stack_appears(s, cont),
    decreases STEP_BUDGET - steps, 0int, 0int,
{
    let now = steps + 1;
    if ns.len() == 0 {
        if cont.len() > 0 {
            lemma_search_required(s, cont.last(), cont.drop_last(), pos, now);
            assert(cont =~= cont.drop_last().push(cont.last()));
            assert forall|k: int| 0 <= k < cont.len() implies all_appear(s, required_of(#[trigger] cont[k])) by {
                if k < cont.len() - 1 {
                    assert(cont.drop_last()[k] == cont[k]);
                }
            }
        }
    } else {
        let rest = ns.skip(1);
        lemma_required_front(ns);
        lemma_all_appear_concat(s, node_required(ns[0]), required_of(rest));
        match ns[0] {
            NodeView::Literal(t) => {
                let ws = words_of(t);
                lemma_search_required(s, rest, cont, pos + ws.len(), now);
                assert forall|j: int| 0 <= j < ws.len() implies appears(s, #[trigger] ws[j]) by {
                    assert(tokens_of(s)[pos + j].text == ws[j]);
                }
            },
            NodeView::Optional(inner) => {
                let (r, after) = search(s, inner, cont.push(rest), pos, now);
                if r is Some {
                    lemma_search_required(s, inner, cont.push(rest), pos, now);
                    lemma_stack_push(s, cont, rest);
                } else {
                    lemma_search_required(s, rest, cont, pos, after);
                }
            },
            NodeView::Choice(bs) => {
                lemma_choose_required(s, bs, 0, cont.push(rest), pos, now);
                lemma_stack_push(s, cont, rest);
                let j = choose|j: int| 0 <= j < bs.len() && all_appear(s, required_of(#[trigger] bs[j]));
                lemma_literal_words_required(s, bs[j]);
                lemma_common_within(bs[0], bs.skip(1));
                let common = common_words(bs[0], bs.skip(1));
                if j == 0 {
                    lemma_appear_subset(s, common, literal_words(bs[0]));
                } else {
                    assert(bs.skip(1)[j - 1] == bs[j]);
                    assert forall|m: int| 0 <= m < common.len() implies literal_words(bs[j]).contains(
                        #[trigger] common[m],
                    ) by {
                        assert(literal_words(bs.skip(1)[j - 1]).contains(common[m]));
                    }
                    lemma_appear_subset(s, common, literal_words(bs[j]));
                }
            },
            NodeView::Slot(slot) => {
                lemma_take_required(s, Some(slot), rest, cont, pos, now);
            },
            NodeView::Regex(_) => {
                lemma_take_required(s, None, rest, cont, pos, now);
            },
        }
    }
}

proof fn lemma_choose_required(
    s: Seq<char>,
    bs: Seq<Seq<NodeView>>,
    i: int,
    cont: Seq<Seq<NodeView>>,
    pos: int,
    steps: int,
)
    requires
        0 <= pos,
        choose_branch(s, bs, i, cont, pos, steps).0 is Some,
    ensures
        exists|j: int| i <= j < bs.len() && all_appear(s, required_of(#[trigger] bs[j])),
        stack_appears(s, cont),
    decreases STEP_BUDGET - steps, 1int, bs.len() - i,
{
    let (r, after) = search(s, bs[i], cont, pos, steps);
    if r is Some {
        lemma_search_required(s, bs[i], cont, pos, steps);
    } else {
        lemma_choose_required(s, bs, i + 1, cont, pos, after);
    }
}

proof fn lemma_take_required(
    s: Seq<char>,
    slot: Option<SlotView>,
    rest: Seq<NodeView>,
    cont: Seq<Seq<NodeView>>,
    pos: int,
    steps: int,
)
    requires
        0 <= pos,
        take_tokens(s, slot, rest, cont, pos, steps).0 is Some,
    ensures
        all_appear(s, required_of(rest)),
        stack_appears(s, cont),
    decreases STEP_BUDGET - steps, 2int, 0int,
{
    let available = if token_count(s) > pos {
        token_count(s) - pos
    } else {
        0
    };
    let most = available - (seq_min(rest) + stack_min(cont));
    lemma_widths_required(s, slot, rest, cont, pos, 1, most, steps);
}

proof fn lemma_widths_required(
    s: Seq<char>,
    slot: Option<SlotView>,
    rest: Seq<NodeView>,
    cont: Seq<Seq<NodeView>>,
    pos: int,
    take: int,
    most: int,
    steps: int,
)
    requires
        0 <= pos,
        1 <= take,
        widths(s, slot, rest, cont, pos, take, most, steps).0 is Some,
    ensures
        all_appear(s, required_of(rest)),
        stack_appears(s, cont),
    decreases STEP_BUDGET - steps, 1int, 0int,
{
    let now = steps + 1;
    let end = pos + take;
    let (r, after) = search(s, rest, cont, end, now);
    if r is Some {
        lemma_search_required(s, rest, cont, end, now);
    } else {
        lemma_widths_required(s, slot, rest, cont, pos, take + 1, most, after);
    }
}

/// Every word a pattern requires is a token of any line it matches: the
/// words of its top-level literals, and of a top-level choice those that
/// every branch has.
pub proof fn lemma_matched_lines_hold_the_required_words(s: Seq<char>, ns: Seq<NodeView>)
    requires
        matched(s, ns) is Some,
    ensures
        all_appear(s, required_of(ns)),
{
    lemma_search_required(s, ns, Seq::empty(), 0, 0);
}


// ------------------------------------------------------------ captures

/// A capture's text is the line's own text between its byte offsets.
pub open spec fn points_into(s: Seq<char>, c: CaptureView) -> bool {
    exists|a: int, b: int|
        0 <= a <= b <= s.len() && c.text == #[trigger] s.subrange(a, b) && c.start == byte_len(s.take(a))
            && c.end == byte_len(s.take(b))
}

pub open spec fn all_point_into(s: Seq<char>, caps: Seq<CaptureView>) -> bool {
    forall|j: int| 0 <= j < caps.len() ==> points_into(s, #[trigger] caps[j])
}

proof fn lemma_capture_at_points_into(s: Seq<char>, slot: SlotView, pos: int, end: int)
    requires
        0 <= pos < end <= token_count(s),
    ensures
        points_into(s, capture_at(s, slot, pos, end)),
{
    lemma_tokens_from_bounds(s, 0);
    let all = tokens_from(s, 0);
    let a = all[pos].0;
    let b = all[end - 1].1;
    if pos < end - 1 {
        assert(all[pos].1 <= all[end - 1].0);
    }
    let c = capture_at(s, slot, pos, end);
    assert(c.start == byte_len(s.take(a)));
    assert(c.end == byte_len(s.take(b)));
    assert(0 <= a <= b <= s.len() && c.text == s.subrange(a, b) && c.start == byte_len(s.take(a))
        && c.end == byte_len(s.take(b)));
}

proof fn lemma_all_point_into_concat(s: Seq<char>, a: Seq<CaptureView>, b: Seq<CaptureView>)
    requires
        all_point_into(s, a),
        all_point_into(s, b),
    ensures
        all_point_into(s, a + b),
{
    assert forall|j: int| 0 <= j < (a + b).len() implies points_into(s, #[trigger] (a + b)[j]) by {
        if j < a.len() {
            assert((a + b)[j] == a[j]);
        } else {
            assert((a + b)[j] == b[j - a.len()]);
        }
    }
}

proof fn lemma_search_captures(s: Seq<char>, ns: Seq<NodeView>, cont: Seq<Seq<NodeView>>, pos: int, steps: int)
    requires
        0 <= pos,
    ensures
        search(s, ns, cont, pos, steps).0 matches Some(caps) ==> all_point_into(s, caps),
    decreases STEP_BUDGET - steps, 0int, 0int,
{
    let now = steps + 1;
    if now <= STEP_BUDGET {
        if ns.len() == 0 {
            if cont.len() > 0 {
                lemma_search_captures(s, cont.last(), cont.drop_last(), pos, now);
            }
        } else {
            let rest = ns.skip(1);
            match ns[0] {
                NodeView::Literal(t) => {
                    lemma_search_captures(s, rest, cont, pos + words_of(t).len(), now);
                },
                NodeView::Optional(inner) => {
                    let (r, after) = search(s, inner, cont.push(rest), pos, now);
                    lemma_search_captures(s, inner, cont.push(rest), pos, now);
                    if r is None && now <= after <= STEP_BUDGET {
                        lemma_search_captures(s, rest, cont, pos, after);
                    }
                },
                NodeView::Choice(bs) => {
                    lemma_choose_captures(s, bs, 0, cont.push(rest), pos, now);
                },
                NodeView::Slot(slot) => {
                    lemma_take_captures(s, Some(slot), rest, cont, pos, now);
                },
                NodeView::Regex(_) => {
                    lemma_take_captures(s, None, rest, cont, pos, now);
                },
            }
        }
    }
}

proof fn lemma_choose_captures(
    s: Seq<char>,
    bs: Seq<Seq<NodeView>>,
    i: int,
    cont: Seq<Seq<NodeView>>,
    pos: int,
    steps: int,
)
    requires
        0 <= pos,
    ensures
        choose_branch(s, bs, i, cont, pos, steps).0 matches Some(caps) ==> all_point_into(s, caps),
    decreases STEP_BUDGET - steps, 1int, bs.len() - i,
{
    if 0 <= i < bs.len() {
        let (r, after) = search(s, bs[i], cont, pos, steps);
        lemma_search_captures(s, bs[i], cont, pos, steps);
        if r is None && steps <= after <= STEP_BUDGET {
            lemma_choose_captures(s, bs, i + 1, cont, pos, after);
        }
    }
}

proof fn lemma_take_captures(
    s: Seq<char>,
    slot: Option<SlotView>,
    rest: Seq<NodeView>,
    cont: Seq<Seq<NodeView>>,
    pos: int,
    steps: int,
)
    requires
        0 <= pos,
    ensures
        take_tokens(s, slot, rest, cont, pos, steps).0 matches Some(caps) ==> all_point_into(s, caps),
    decreases STEP_BUDGET - steps, 2int, 0int,
{
    let available = if token_count(s) > pos {
        token_count(s) - pos
    } else {
        0
    };
    let most = available - (seq_min(rest) + stack_min(cont));
    lemma_seq_min_nonneg(rest);
    lemma_stack_min_nonneg(cont);
    if most >= 1 {
        lemma_widths_captures(s, slot, rest, cont, pos, 1, most, steps);
    }
}

proof fn lemma_widths_captures(
    s: Seq<char>,
    slot: Option<SlotView>,
    rest: Seq<NodeView>,
    cont: Seq<Seq<NodeView>>,
    pos: int,
    take: int,
    most: int,
    steps: int,
)
    requires
        0 <= pos,
        1 <= take,
        pos + most <= token_count(s),
    ensures
        widths(s, slot, rest, cont, pos, take, most, steps).0 matches Some(caps) ==> all_point_into(s, caps),
    decreases STEP_BUDGET - steps, 1int, 0int,
{
    let now = steps + 1;
    if take <= most && now <= STEP_BUDGET {
        let end = pos + take;
        let (r, after) = search(s, rest, cont, end, now);
        lemma_search_captures(s, rest, cont, end, now);
        match r {
            Some(more) => {
                let caught = match slot {
                    Some(sl) => seq![capture_at(s, sl, pos, end)],
                    None => Seq::<CaptureView>::empty(),
                };
                if let Some(sl) = slot {
                    lemma_capture_at_points_into(s, sl, pos, end);
                    assert(caught[0] == capture_at(s, sl, pos, end));
                }
                lemma_all_point_into_concat(s, caught, more);
            },
            None => {
                if now <= after <= STEP_BUDGET {
                    lemma_widths_captures(s, slot, rest, cont, pos, take + 1, most, after);
                }
            },
        }
    }
}

/// What a slot captures is exactly the line's text between the capture's
/// byte offsets.
pub proof fn lemma_captures_point_into_the_line(s: Seq<char>, ns: Seq<NodeView>)
    ensures
        matched(s, ns) matches Some(caps) ==> all_point_into(s, caps),
{
    lemma_search_captures(s, ns, Seq::empty(), 0, 0);
}

// ------------------------------------------------------------ capture order

/// The byte at which token `p` starts, or the end of the line past the last.
pub open spec fn token_byte(s: Seq<char>, p: int) -> int {
    if 0 <= p < token_count(s) {
        tokens_of(s)[p].start
    } else {
        byte_len(s) as int
    }
}

/// Captures that are non-empty, start no earlier than `lo`, and follow one
/// another without overlapping.
pub open spec fn ordered_from(caps: Seq<CaptureView>, lo: int) -> bool {
    &&& forall|j: int| 0 <= j < caps.len() ==> lo <= (#[trigger] caps[j]).start < caps[j].end
    &&& forall|j: int, k: int| 0 <= j < k < caps.len() ==> (#[trigger] caps[j]).end <= (#[trigger] caps[k]).start
}

pub proof fn lemma_byte_len_strict(s: Seq<char>, a: int, b: int)
    requires
        0 <= a < b <= s.len(),
    ensures
        byte_len(s.take(a)) < byte_len(s.take(b)),
    decreases b - a,
{
    assert(s.take(b).drop_last() =~= s.take(b - 1));
    if a < b - 1 {
        lemma_byte_len_strict(s, a, b - 1);
    }
}

pub proof fn lemma_byte_len_mono(s: Seq<char>, a: int, b: int)
    requires
        0 <= a <= b <= s.len(),
    ensures
        byte_len(s.take(a)) <= byte_len(s.take(b)),
{
    if a < b {
        lemma_byte_len_strict(s, a, b);
    }
}

/// Token `p` is not empty, and ends no later than where the next one starts.
proof fn lemma_token_span(s: Seq<char>, p: int)
    requires
        0 <= p < token_count(s),
    ensures
        tokens_of(s)[p].start < tokens_of(s)[p].end <= token_byte(s, p + 1),
        token_byte(s, p) == tokens_of(s)[p].start,
{
    lemma_tokens_from_bounds(s, 0);
    let all = tokens_from(s, 0);
    lemma_byte_len_strict(s, all[p].0, all[p].1);
    if p + 1 < token_count(s) {
        lemma_byte_len_mono(s, all[p].1, all[p + 1].0);
    } else {
        lemma_byte_len_mono(s, all[p].1, s.len() as int);
        assert(s.take(s.len() as int) =~= s);
    }
}

proof fn lemma_token_byte_mono(s: Seq<char>, p: int, q: int)
    requires
        0 <= p <= q,
    ensures
        token_byte(s, p) <= token_byte(s, q),
    decreases q - p,
{
    if p < q {
        lemma_token_byte_mono(s, p + 1, q);
        if p < token_count(s) {
            lemma_token_span(s, p);
        }
    }
}

proof fn lemma_order_search(s: Seq<char>, ns: Seq<NodeView>, cont: Seq<Seq<NodeView>>, pos: int, steps: int)
    requires
        0 <= pos,
    ensures
        search(s, ns, cont, pos, steps).0 matches Some(caps) ==> ordered_from(caps, token_byte(s, pos)),
    decreases STEP_BUDGET - steps, 0int, 0int,
{
    let now = steps + 1;
    if now <= STEP_BUDGET {
        if ns.len() == 0 {
            if cont.len() > 0 {
                lemma_order_search(s, cont.last(), cont.drop_last(), pos, now);
            }
        } else {
            let rest = ns.skip(1);
            match ns[0] {
                NodeView::Literal(t) => {
                    let n = words_of(t).len() as int;
                    lemma_order_search(s, rest, cont, pos + n, now);
                    lemma_token_byte_mono(s, pos, pos + n);
                },
                NodeView::Optional(inner) => {
                    let (r, after) = search(s, inner, cont.push(rest), pos, now);
                    lemma_order_search(s, inner, cont.push(rest), pos, now);
                    if r is None && now <= after <= STEP_BUDGET {
                        lemma_order_search(s, rest, cont, pos, after);
                    }
                },
                NodeView::Choice(bs) => {
                    lemma_order_choose(s, bs, 0, cont.push(rest), pos, now);
                },
                NodeView::Slot(slot) => {
                    lemma_order_take(s, Some(slot), rest, cont, pos, now);
                },
                NodeView::Regex(_) => {
                    lemma_order_take(s, None, rest, cont, pos, now);
                },
            }
        }
    }
}

proof fn lemma_order_choose(s: Seq<char>, bs: Seq<Seq<NodeView>>, i: int, cont: Seq<Seq<NodeView>>, pos: int, steps: int)
    requires
        0 <= pos,
    ensures
        choose_branch(s, bs, i, cont, pos, steps).0 matches Some(caps) ==> ordered_from(caps, token_byte(s, pos)),
    decreases STEP_BUDGET - steps, 1int, bs.len() - i,
{
    if 0 <= i < bs.len() {
        let (r, after) = search(s, bs[i], cont, pos, steps);
        lemma_order_search(s, bs[i], cont, pos, steps);
        if r is None && steps <= after <= STEP_BUDGET {
            lemma_order_choose(s, bs, i + 1, cont, pos, after);
        }
    }
}

proof fn lemma_order_take(
    s: Seq<char>,
    slot: Option<SlotView>,
    rest: Seq<NodeView>,
    cont: Seq<Seq<NodeView>>,
    pos: int,
    steps: int,
)
    requires
        0 <= pos,
    ensures
        take_tokens(s, slot, rest, cont, pos, steps).0 matches Some(caps) ==> ordered_from(caps, token_byte(s, pos)),
    decreases STEP_BUDGET - steps, 2int, 0int,
{
    let available = if token_count(s) > pos {
        token_count(s) - pos
    } else {
        0
    };
    let most = available - (seq_min(rest) + stack_min(cont));
    lemma_seq_min_nonneg(rest);
    lemma_stack_min_nonneg(cont);
    if most >= 1 {
        lemma_order_widths(s, slot, rest, cont, pos, 1, most, steps);
    }
}

proof fn lemma_order_widths(
    s: Seq<char>,
    slot: Option<SlotView>,
    rest: Seq<NodeView>,
    cont: Seq<Seq<NodeView>>,
    pos: int,
    take: int,
    most: int,
    steps: int,
)
    requires
        0 <= pos,
        1 <= take,
        pos + most <= token_count(s),
    ensures
        widths(s, slot, rest, cont, pos, take, most, steps).0 matches Some(caps) ==> ordered_from(caps, token_byte(s, pos)),
    decreases STEP_BUDGET - steps, 1int, 0int,
{
    let now = steps + 1;
    if take <= most && now <= STEP_BUDGET {
        let end = pos + take;
        let (r, after) = search(s, rest, cont, end, now);
        lemma_order_search(s, rest, cont, end, now);
        match r {
            Some(more) => {
                let caught = match slot {
                    Some(sl) => seq![capture_at(s, sl, pos, end)],
                    None => Seq::<CaptureView>::empty(),
                };
                lemma_token_byte_mono(s, pos, end);
                lemma_token_span(s, end - 1);
                lemma_token_byte_mono(s, pos, end - 1);
                let all = caught + more;
                assert forall|j: int| 0 <= j < all.len() implies token_byte(s, pos) <= (#[trigger] all[j]).start
                    < all[j].end by {
                    if j >= caught.len() {
                        assert(all[j] == more[j - caught.len()]);
                    } else {
                        lemma_token_span(s, pos);
                    }
                }
                assert forall|j: int, k: int| 0 <= j < k < all.len() implies (#[trigger] all[j]).end
                    <= (#[trigger] all[k]).start by {
                    if j >= caught.len() {
                        assert(all[j] == more[j - caught.len()]);
                        assert(all[k] == more[k - caught.len()]);
                    } else {
                        assert(all[k] == more[k - caught.len()]);
                    }
                }
            },
            None => {
                if now <= after <= STEP_BUDGET {
                    lemma_order_widths(s, slot, rest, cont, pos, take + 1, most, after);
                }
            },
        }
    }
}

/// What a match captures comes in the order of the line: every capture is
/// non-empty, and each ends no later than the next one starts.
pub proof fn lemma_captures_are_ordered(s: Seq<char>, ns: Seq<NodeView>)
    ensures
        matched(s, ns) matches Some(caps) ==> ordered_from(caps, 0),
{
    lemma_order_search(s, ns, Seq::empty(), 0, 0);
    if 0 < token_count(s) {
        lemma_token_span(s, 0);
        lemma_tokens_from_bounds(s, 0);
    }
    assert(token_byte(s, 0) >= 0);
}

} // verus!
