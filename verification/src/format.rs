//! A formatter for Skript that does only what is unambiguously safe: it
//! re-indents every line to its structural depth, trims trailing whitespace,
//! collapses runs of blank lines and ends the file with exactly one newline.
//! Nothing within a line is touched, and the interior of a `###` block comment
//! keeps its own indentation.
//!
//! The structural depth of each line, and whether it lies inside a block
//! comment, come from the parse tree; this module turns them into text.
use vstd::prelude::*;

use crate::source::append_chars;
use crate::syntax::{is_word, SyntaxTree, TreeNode};
use crate::strings::{chars_eq, chars_of, is_white, lead, lemma_lead_bounds, lemma_trail_bounds, lemma_trail_by_is, line_run, lines, lines_of, one_of, slice, string_of, strip_cr, trail, trail_by, trail_index, trim, trim_bounds, trim_end, trim_start};

verus! {

/// Formatting preferences.
#[derive(Debug, Clone, Copy, PartialEq, Eq, Structural)]
pub struct Options {
    /// Indent with a tab rather than spaces, as Skript's own scripts do.
    pub hard_tabs: bool,
    /// Spaces per level when `hard_tabs` is false.
    pub tab_size: usize,
    /// The most consecutive blank lines to keep.
    pub max_blank_lines: usize,
}

impl Default for Options {
    fn default() -> (o: Options)
        ensures
            o == (Options { hard_tabs: true, tab_size: 4, max_blank_lines: 1 }),
    {
        Options { hard_tabs: true, tab_size: 4, max_blank_lines: 1 }
    }
}

/// The indentation of a line `depth` levels deep.
pub open spec fn indent_of(o: Options, depth: nat) -> Seq<char> {
    if o.hard_tabs {
        Seq::new(depth, |i: int| '\t')
    } else {
        Seq::new(depth * (o.tab_size as nat), |i: int| ' ')
    }
}

impl Options {
    /// The indentation of a line `depth` levels deep.
    pub fn indent(&self, depth: usize) -> (s: String)
        requires
            !self.hard_tabs ==> depth * self.tab_size <= usize::MAX,
        ensures
            s@ == indent_of(*self, depth as nat),
    {
        let (n, c) = if self.hard_tabs {
            (depth, '\t')
        } else {
            (depth * self.tab_size, ' ')
        };
        let mut out: Vec<char> = Vec::new();
        let mut i: usize = 0;
        while i < n
            invariant
                i <= n,
                out@ == Seq::new(i as nat, |k: int| c),
            decreases n - i,
        {
            out.push(c);
            i += 1;
            assert(out@ =~= Seq::new(i as nat, |k: int| c));
        }
        assert(out@ =~= indent_of(*self, depth as nat));
        string_of(&out)
    }
}

/// The text built so far and the length of the current run of blank lines.
pub struct FormatState {
    pub out: Seq<char>,
    pub blank_run: nat,
}

/// One line of the input, `depth` levels deep, `verbatim` when it lies inside
/// a block comment.
pub open spec fn format_step(st: FormatState, raw: Seq<char>, depth: nat, verbatim: bool, o: Options) -> FormatState {
    if trim(raw).len() == 0 {
        FormatState {
            out: if st.blank_run + 1 <= o.max_blank_lines {
                st.out.push('\n')
            } else {
                st.out
            },
            blank_run: st.blank_run + 1,
        }
    } else {
        let body = if verbatim {
            trim_end(raw)
        } else {
            indent_of(o, depth) + trim(raw)
        };
        FormatState { out: (st.out + body).push('\n'), blank_run: 0 }
    }
}

pub open spec fn format_run(ls: Seq<Seq<char>>, depths: Seq<usize>, verbatim: Seq<bool>, o: Options) -> FormatState
    decreases ls.len(),
{
    if ls.len() == 0 {
        FormatState { out: Seq::empty(), blank_run: 0 }
    } else {
        let i = ls.len() - 1;
        format_step(format_run(ls.drop_last(), depths, verbatim, o), ls[i], depths[i] as nat, verbatim[i], o)
    }
}

/// Exactly one trailing newline: a run of them is cut to one, and a newline
/// is added where the text is not empty and has none.
pub open spec fn one_final_newline(out: Seq<char>) -> Seq<char> {
    let k = trail_by(out, one_of('\n', '\n'));
    let cut = if k >= 2 {
        out.take(out.len() - (k - 1))
    } else {
        out
    };
    if cut.len() > 0 && cut.last() != '\n' {
        cut.push('\n')
    } else {
        cut
    }
}

/// The formatted text, or `None` when there is nothing to change.
pub open spec fn formatted(text: Seq<char>, depths: Seq<usize>, verbatim: Seq<bool>, o: Options) -> Option<Seq<char>> {
    let ls = lines_of(text);
    if ls.len() == 0 {
        None
    } else {
        let out = one_final_newline(format_run(ls, depths, verbatim, o).out);
        if out == text {
            None
        } else {
            Some(out)
        }
    }
}

/// Lays out `text` given each line's structural depth and whether it lies
/// inside a block comment; `None` when there is nothing to change.
pub fn format_lines(text: &str, depths: &Vec<usize>, verbatim: &Vec<bool>, options: Options) -> (r: Option<String>)
    requires
        depths@.len() == lines_of(text@).len(),
        verbatim@.len() == lines_of(text@).len(),
        forall|i: int| 0 <= i < depths@.len() ==> !options.hard_tabs ==> #[trigger] depths@[i] * options.tab_size <= usize::MAX,
    ensures
        match r {
            Some(s) => formatted(text@, depths@, verbatim@, options) == Some(s@),
            None => formatted(text@, depths@, verbatim@, options) is None,
        },
{
    let chars = chars_of(text);
    let ls = lines(&chars);
    let ghost all = lines_of(chars@);
    if ls.len() == 0 {
        return None;
    }
    let mut out: Vec<char> = Vec::new();
    let mut blank_run: usize = 0;
    let mut i: usize = 0;
    while i < ls.len()
        invariant
            i <= ls@.len(),
            ls@.len() == all.len(),
            all == lines_of(text@),
            depths@.len() == all.len(),
            verbatim@.len() == all.len(),
            forall|j: int| 0 <= j < ls@.len() ==> #[trigger] ls@[j]@ == all[j],
            forall|j: int| 0 <= j < depths@.len() ==> !options.hard_tabs ==> #[trigger] depths@[j] * options.tab_size <= usize::MAX,
            blank_run <= i,
            format_run(all.take(i as int), depths@, verbatim@, options) == (FormatState {
                out: out@,
                blank_run: blank_run as nat,
            }),
        decreases ls@.len() - i,
    {
        proof {
            assert(all.take(i + 1).drop_last() =~= all.take(i as int));
            assert(all.take(i + 1)[i as int] == all[i as int]);
        }
        let raw = &ls[i];
        let (a, b) = trim_bounds(raw, 0, raw.len());
        assert(raw@.subrange(0, raw@.len() as int) == raw@);
        if a == b {
            blank_run = blank_run + 1;
            if blank_run <= options.max_blank_lines {
                out.push('\n');
            }
        } else {
            blank_run = 0;
            if verbatim[i] {
                let e = trail_index(raw, 0, raw.len());
                let kept = slice(raw, 0, e);
                assert(kept@ == trim_end(raw@));
                append_chars(&mut out, &kept);
            } else {
                let pad = chars_of(options.indent(depths[i]).as_str());
                append_chars(&mut out, &pad);
                let t = slice(raw, a, b);
                append_chars(&mut out, &t);
                assert(out@ == (format_run(all.take(i as int), depths@, verbatim@, options).out + (
                indent_of(options, depths@[i as int] as nat) + trim(raw@))));
            }
            out.push('\n');
        }
        i += 1;
    }
    assert(all.take(all.len() as int) =~= all);
    let ghost built = out@;
    // Cut a run of trailing newlines down to one.
    let mut k: usize = out.len();
    while k > 0 && out[k - 1] == '\n'
        invariant
            k <= out@.len(),
            out@ == built,
            forall|j: int| k <= j < out@.len() ==> one_of('\n', '\n')(#[trigger] out@[j]),
        decreases k,
    {
        k -= 1;
    }
    proof {
        if k > 0 {
            assert(out@[out@.len() - (out@.len() - k) - 1] == out@[k - 1]);
        }
        lemma_trail_by_is(out@, one_of('\n', '\n'), (out@.len() - k) as int);
    }
    let trailing = out.len() - k;
    if trailing >= 2 {
        let keep = out.len() - (trailing - 1);
        out = slice(&out, 0, keep);
    }
    if out.len() > 0 && out[out.len() - 1] != '\n' {
        out.push('\n');
    }
    assert(out@ == one_final_newline(built));
    if chars_eq(&out, &chars) {
        None
    } else {
        Some(string_of(&out))
    }
}


// ------------------------------------------------------------ laws

/// The characters of `s` that are not whitespace, in order.
pub open spec fn solid(s: Seq<char>) -> Seq<char>
    decreases s.len(),
{
    if s.len() == 0 {
        Seq::empty()
    } else if is_white(s.last()) {
        solid(s.drop_last())
    } else {
        solid(s.drop_last()).push(s.last())
    }
}

/// The non-whitespace characters of each line, one line after another.
pub open spec fn solid_lines(ls: Seq<Seq<char>>) -> Seq<char>
    decreases ls.len(),
{
    if ls.len() == 0 {
        Seq::empty()
    } else {
        solid_lines(ls.drop_last()) + solid(ls.last())
    }
}

proof fn lemma_solid_append(a: Seq<char>, b: Seq<char>)
    ensures
        solid(a + b) == solid(a) + solid(b),
    decreases b.len(),
{
    if b.len() == 0 {
        assert(a + b =~= a);
        assert(solid(a) + solid(b) =~= solid(a));
    } else {
        lemma_solid_append(a, b.drop_last());
        assert((a + b).drop_last() =~= a + b.drop_last());
        assert((a + b).last() == b.last());
        if !is_white(b.last()) {
            assert((solid(a) + solid(b.drop_last())).push(b.last()) =~= solid(a) + solid(b.drop_last()).push(
                b.last(),
            ));
        }
    }
}

proof fn lemma_solid_white(s: Seq<char>)
    requires
        forall|j: int| 0 <= j < s.len() ==> is_white(#[trigger] s[j]),
    ensures
        solid(s) == Seq::<char>::empty(),
    decreases s.len(),
{
    if s.len() > 0 {
        assert forall|j: int| 0 <= j < s.drop_last().len() implies is_white(#[trigger] s.drop_last()[j]) by {
            assert(s.drop_last()[j] == s[j]);
        }
        lemma_solid_white(s.drop_last());
        assert(is_white(s[s.len() - 1]));
    }
}

/// Cutting whitespace from both ends keeps every other character.
proof fn lemma_solid_trim(s: Seq<char>)
    ensures
        solid(trim_start(s)) == solid(s),
        solid(trim_end(s)) == solid(s),
        solid(trim(s)) == solid(s),
{
    lemma_lead_bounds(s);
    let l = lead(s) as int;
    assert(s =~= s.take(l) + s.skip(l));
    lemma_solid_append(s.take(l), s.skip(l));
    assert forall|j: int| 0 <= j < s.take(l).len() implies is_white(#[trigger] s.take(l)[j]) by {
        assert(s.take(l)[j] == s[j]);
    }
    lemma_solid_white(s.take(l));
    assert(solid(s.take(l)) + solid(s.skip(l)) =~= solid(s.skip(l)));
    lemma_solid_trim_end(s);
    lemma_solid_trim_end(trim_start(s));
}

proof fn lemma_solid_trim_end(t: Seq<char>)
    ensures
        solid(trim_end(t)) == solid(t),
{
    lemma_trail_bounds(t);
    let e = t.len() - trail(t);
    assert(t =~= t.take(e) + t.skip(e));
    lemma_solid_append(t.take(e), t.skip(e));
    assert forall|j: int| 0 <= j < t.skip(e).len() implies is_white(#[trigger] t.skip(e)[j]) by {
        assert(t.skip(e)[j] == t[e + j]);
    }
    lemma_solid_white(t.skip(e));
    assert(solid(t.take(e)) + solid(t.skip(e)) =~= solid(t.take(e)));
}

proof fn lemma_solid_indent(o: Options, depth: nat)
    ensures
        solid(indent_of(o, depth)) == Seq::<char>::empty(),
{
    let ind = indent_of(o, depth);
    assert forall|j: int| 0 <= j < ind.len() implies is_white(#[trigger] ind[j]) by {}
    lemma_solid_white(ind);
}

proof fn lemma_line_run_solid(s: Seq<char>)
    ensures
        solid(s) == solid_lines(line_run(s).done) + solid(line_run(s).current),
    decreases s.len(),
{
    if s.len() == 0 {
        assert(solid_lines(Seq::<Seq<char>>::empty()) + solid(Seq::<char>::empty()) =~= Seq::<char>::empty());
    } else {
        lemma_line_run_solid(s.drop_last());
        let st = line_run(s.drop_last());
        let c = s.last();
        if c == '\n' {
            let done = st.done.push(strip_cr(st.current));
            assert(done.drop_last() =~= st.done);
            if st.current.len() > 0 && st.current.last() == '\r' {
                assert(solid(strip_cr(st.current)) == solid(st.current));
            }
            assert(solid_lines(done) + solid(Seq::<char>::empty()) =~= solid_lines(done));
        } else {
            let cur = st.current.push(c);
            assert(cur.drop_last() =~= st.current);
            if !is_white(c) {
                assert((solid_lines(st.done) + solid(st.current)).push(c) =~= solid_lines(st.done) + solid(
                    st.current,
                ).push(c));
            }
        }
    }
}

proof fn lemma_lines_solid(s: Seq<char>)
    ensures
        solid(s) == solid_lines(lines_of(s)),
{
    lemma_line_run_solid(s);
    let st = line_run(s);
    if st.current.len() > 0 {
        assert(st.done.push(st.current).drop_last() =~= st.done);
    } else {
        assert(solid_lines(st.done) + solid(st.current) =~= solid_lines(st.done));
    }
}

proof fn lemma_format_run_solid(ls: Seq<Seq<char>>, depths: Seq<usize>, verbatim: Seq<bool>, o: Options)
    ensures
        solid(format_run(ls, depths, verbatim, o).out) == solid_lines(ls),
    decreases ls.len(),
{
    if ls.len() > 0 {
        lemma_format_run_solid(ls.drop_last(), depths, verbatim, o);
        let i = ls.len() - 1;
        let st = format_run(ls.drop_last(), depths, verbatim, o);
        let raw = ls[i];
        assert(raw == ls.last());
        lemma_solid_trim(raw);
        if trim(raw).len() == 0 {
            assert(trim(raw) =~= Seq::<char>::empty());
            assert(solid_lines(ls.drop_last()) + solid(raw) =~= solid_lines(ls.drop_last()));
            assert(st.out.push('\n').drop_last() =~= st.out);
        } else {
            let body = if verbatim[i] {
                trim_end(raw)
            } else {
                indent_of(o, depths[i] as nat) + trim(raw)
            };
            if !verbatim[i] {
                lemma_solid_append(indent_of(o, depths[i] as nat), trim(raw));
                lemma_solid_indent(o, depths[i] as nat);
                assert(Seq::<char>::empty() + solid(trim(raw)) =~= solid(trim(raw)));
            }
            assert(solid(body) == solid(raw));
            lemma_solid_append(st.out, body);
            assert((st.out + body).push('\n').drop_last() =~= st.out + body);
        }
    }
}

proof fn lemma_trail_by_bounds(s: Seq<char>, p: spec_fn(char) -> bool)
    ensures
        trail_by(s, p) <= s.len(),
        forall|j: int| s.len() - trail_by(s, p) <= j < s.len() ==> p(#[trigger] s[j]),
        trail_by(s, p) < s.len() ==> !p(s[s.len() - trail_by(s, p) - 1]),
    decreases s.len(),
{
    if s.len() > 0 && p(s.last()) {
        lemma_trail_by_bounds(s.drop_last(), p);
        assert forall|j: int| s.len() - trail_by(s, p) <= j < s.len() implies p(#[trigger] s[j]) by {
            if j < s.len() - 1 {
                assert(s[j] == s.drop_last()[j]);
            }
        }
        if trail_by(s, p) < s.len() {
            assert(s[s.len() - trail_by(s, p) - 1] == s.drop_last()[s.len() - trail_by(s, p) - 1]);
        }
    }
}

proof fn lemma_final_newline_solid(out: Seq<char>)
    ensures
        solid(one_final_newline(out)) == solid(out),
{
    let p = one_of('\n', '\n');
    let k = trail_by(out, p);
    lemma_trail_by_bounds(out, p);
    let cut = if k >= 2 {
        out.take(out.len() - (k - 1))
    } else {
        out
    };
    if k >= 2 {
        let e = out.len() - (k - 1);
        assert(out =~= out.take(e) + out.skip(e));
        lemma_solid_append(out.take(e), out.skip(e));
        assert forall|j: int| 0 <= j < out.skip(e).len() implies is_white(#[trigger] out.skip(e)[j]) by {
            assert(out.skip(e)[j] == out[e + j]);
            assert(p(out[e + j]));
        }
        lemma_solid_white(out.skip(e));
        assert(solid(out.take(e)) + solid(out.skip(e)) =~= solid(out.take(e)));
    }
    if cut.len() > 0 && cut.last() != '\n' {
        assert(cut.push('\n').drop_last() =~= cut);
    }
}

/// Formatting changes whitespace only: the text's other characters all come
/// out, in the same order, strings and comments included.
pub proof fn lemma_formatting_keeps_every_visible_character(
    text: Seq<char>,
    depths: Seq<usize>,
    verbatim: Seq<bool>,
    o: Options,
)
    ensures
        formatted(text, depths, verbatim, o) matches Some(out) ==> solid(out) == solid(text),
{
    let ls = lines_of(text);
    if ls.len() > 0 {
        lemma_format_run_solid(ls, depths, verbatim, o);
        lemma_final_newline_solid(format_run(ls, depths, verbatim, o).out);
        lemma_lines_solid(text);
    }
}

/// A formatted file ends with exactly one newline (unless it is empty).
pub proof fn lemma_formatted_ends_with_one_newline(
    text: Seq<char>,
    depths: Seq<usize>,
    verbatim: Seq<bool>,
    o: Options,
)
    ensures
        formatted(text, depths, verbatim, o) matches Some(out) ==> out.len() == 0 || (out.last() == '\n'
            && (out.len() == 1 || out[out.len() - 2] != '\n')),
{
    let ls = lines_of(text);
    if ls.len() > 0 {
        let x = format_run(ls, depths, verbatim, o).out;
        let p = one_of('\n', '\n');
        let k = trail_by(x, p);
        lemma_trail_by_bounds(x, p);
        if k >= 2 {
            let cut = x.take(x.len() - (k - 1));
            assert(cut.last() == x[x.len() - k]);
            assert(p(x[x.len() - k]));
            if cut.len() >= 2 {
                assert(cut[cut.len() - 2] == x[x.len() - k - 1]);
            }
        } else if k == 1 {
            assert(p(x[x.len() - 1]));
            if x.len() >= 2 {
                assert(x[x.len() - 2] == x[x.len() - k - 1]);
            }
        } else if x.len() > 0 {
            assert(!p(x.last()));
            let r = x.push('\n');
            assert(r[r.len() - 2] == x.last());
        }
    }
}


// ------------------------------------------------------------ depths from the tree

/// The structural depth of every line, and whether it lies inside a block
/// comment.
pub struct Layout {
    pub depths: Seq<usize>,
    pub verbatim: Seq<bool>,
}

/// Rows `from..=to` set to depth `d`; rows past the text are ignored.
pub open spec fn fill_depth(l: Layout, from: int, to: int, d: usize) -> Layout {
    Layout {
        depths: Seq::new(l.depths.len(), |r: int| if from <= r <= to { d } else { l.depths[r] }),
        verbatim: l.verbatim,
    }
}

/// Rows `from..=to` marked as block comment interior.
pub open spec fn fill_verbatim(l: Layout, from: int, to: int) -> Layout {
    Layout {
        depths: l.depths,
        verbatim: Seq::new(l.verbatim.len(), |r: int| if from <= r <= to { true } else { l.verbatim[r] }),
    }
}

/// The nodes that introduce a level of indentation.
pub open spec fn opens_a_level(kind: Seq<char>) -> bool {
    kind == "block"@ || kind == "entry_body"@ || kind == "assignment_body"@ || kind == "import_body"@
}

/// The first named child among the children `k..` of node `i`.
pub open spec fn first_named_from(t: Seq<TreeNode>, i: int, k: int) -> Option<int>
    decreases t[i].children@.len() - k,
{
    if 0 <= k < t[i].children@.len() {
        let c = t[i].children@[k] as int;
        if t[c].named {
            Some(c)
        } else {
            first_named_from(t, i, k + 1)
        }
    } else {
        None
    }
}

/// The depths and block-comment rows of the subtree at `i`, entered at
/// `depth`.
pub open spec fn measured(t: Seq<TreeNode>, i: int, depth: usize, l: Layout) -> Layout
    decreases t.len() - i, 1int, 0int,
{
    if 0 <= i < t.len() {
        let start = t[i].range.start.line as int;
        let end = t[i].range.end.line as int;
        if t[i].kind@ == "block_comment"@ {
            // The delimiter row keeps the depth it is found at; the interior
            // is prose and is left as written.
            fill_verbatim(fill_depth(l, start, start, depth), start + 1, end)
        } else {
            let opens = opens_a_level(t[i].kind@);
            let inner = if opens {
                (depth + 1) as usize
            } else {
                depth
            };
            // A body starts on its header's row (INDENT is zero-width), so its
            // first own row is its first named child's.
            let first_row = match first_named_from(t, i, 0) {
                Some(c) => t[c].range.start.line as int,
                None => start + 1,
            };
            let l1 = if opens {
                fill_depth(l, first_row, end, inner)
            } else {
                l
            };
            children_measured(t, i, t[i].children@.len() as int, inner, l1)
        }
    } else {
        l
    }
}

/// The first `k` children of `i` measured in order, at `depth`.
pub open spec fn children_measured(t: Seq<TreeNode>, i: int, k: int, depth: usize, l: Layout) -> Layout
    decreases t.len() - i, 0int, k,
{
    if 0 <= i < t.len() && 0 < k <= t[i].children@.len() {
        let c = t[i].children@[k - 1] as int;
        let before = children_measured(t, i, k - 1, depth, l);
        if i < c < t.len() {
            measured(t, c, depth, before)
        } else {
            before
        }
    } else {
        l
    }
}

fn set_rows(depths: &mut Vec<usize>, from: u64, to: u64, d: usize)
    ensures
        final(depths)@ == fill_depth(Layout { depths: old(depths)@, verbatim: Seq::empty() }, from as int, to as int, d).depths,
{
    let ghost start = depths@;
    let mut r: usize = 0;
    while r < depths.len()
        invariant
            r <= depths@.len(),
            depths@.len() == start.len(),
            forall|q: int| 0 <= q < r ==> #[trigger] depths@[q] == (if from <= q <= to { d } else { start[q] }),
            forall|q: int| r <= q < depths@.len() ==> #[trigger] depths@[q] == start[q],
        decreases depths@.len() - r,
    {
        if from <= r as u64 && r as u64 <= to {
            depths.set(r, d);
        }
        r += 1;
    }
    assert(depths@ =~= fill_depth(Layout { depths: start, verbatim: Seq::empty() }, from as int, to as int, d).depths);
}

fn set_verbatim(verbatim: &mut Vec<bool>, from: u64, to: u64)
    ensures
        final(verbatim)@ == fill_verbatim(Layout { depths: Seq::empty(), verbatim: old(verbatim)@ }, from as int, to as int).verbatim,
{
    let ghost start = verbatim@;
    let mut r: usize = 0;
    while r < verbatim.len()
        invariant
            r <= verbatim@.len(),
            verbatim@.len() == start.len(),
            forall|q: int| 0 <= q < r ==> #[trigger] verbatim@[q] == (if from <= q <= to { true } else { start[q] }),
            forall|q: int| r <= q < verbatim@.len() ==> #[trigger] verbatim@[q] == start[q],
        decreases verbatim@.len() - r,
    {
        if from <= r as u64 && r as u64 <= to {
            verbatim.set(r, true);
        }
        r += 1;
    }
    assert(verbatim@ =~= fill_verbatim(Layout { depths: Seq::empty(), verbatim: start }, from as int, to as int).verbatim);
}

fn first_named(tree: &SyntaxTree, i: usize) -> (r: Option<usize>)
    requires
        tree.wf(),
        i < tree.nodes@.len(),
    ensures
        match r {
            Some(c) => first_named_from(tree.nodes@, i as int, 0) == Some(c as int) && c < tree.nodes@.len(),
            None => first_named_from(tree.nodes@, i as int, 0) is None,
        },
{
    let ghost t = tree.nodes@;
    let n = tree.nodes[i].children.len();
    let mut k: usize = 0;
    while k < n
        invariant
            tree.wf(),
            t == tree.nodes@,
            i < t.len(),
            n == t[i as int].children@.len(),
            k <= n,
            first_named_from(t, i as int, 0) == first_named_from(t, i as int, k as int),
        decreases n - k,
    {
        let c = tree.nodes[i].children[k];
        proof {
            assert(i < t[i as int].children@[k as int] < t.len());
        }
        if tree.nodes[c].named {
            return Some(c);
        }
        k += 1;
    }
    None
}

/// Records the depth of every row of the subtree at `i`, and which rows lie
/// inside a block comment.
fn measure(tree: &SyntaxTree, i: usize, depth: usize, depths: &mut Vec<usize>, verbatim: &mut Vec<bool>)
    requires
        tree.wf(),
        i < tree.nodes@.len(),
        depth <= i,
        forall|r: int| 0 <= r < old(depths)@.len() ==> #[trigger] old(depths)@[r] <= tree.nodes@.len(),
    ensures
        (Layout { depths: final(depths)@, verbatim: final(verbatim)@ }) == measured(
            tree.nodes@,
            i as int,
            depth,
            Layout { depths: old(depths)@, verbatim: old(verbatim)@ },
        ),
        forall|r: int| 0 <= r < final(depths)@.len() ==> #[trigger] final(depths)@[r] <= tree.nodes@.len(),
        final(depths)@.len() == old(depths)@.len(),
        final(verbatim)@.len() == old(verbatim)@.len(),
    decreases tree.nodes@.len() - i,
{
    let total = tree.nodes.len();
    let ghost t = tree.nodes@;
    let node = &tree.nodes[i];
    let start = node.range.start.line as u64;
    let end = node.range.end.line as u64;
    if is_word(node.kind.as_str(), "block_comment") {
        set_rows(depths, start, start, depth);
        set_verbatim(verbatim, start + 1, end);
        return;
    }
    let kind = node.kind.as_str();
    let opens = is_word(kind, "block") || is_word(kind, "entry_body") || is_word(kind, "assignment_body")
        || is_word(kind, "import_body");
    let inner = if opens {
        depth + 1
    } else {
        depth
    };
    if opens {
        let first_row = match first_named(tree, i) {
            Some(c) => tree.nodes[c].range.start.line as u64,
            None => start + 1,
        };
        set_rows(depths, first_row, end, inner);
    }
    let ghost entry = Layout { depths: depths@, verbatim: verbatim@ };
    let n = tree.nodes[i].children.len();
    let mut k: usize = 0;
    while k < n
        invariant
            tree.wf(),
            t == tree.nodes@,
            i < t.len(),
            inner <= i + 1,
            n == t[i as int].children@.len(),
            k <= n,
            (Layout { depths: depths@, verbatim: verbatim@ }) == children_measured(t, i as int, k as int, inner, entry),
            forall|r: int| 0 <= r < depths@.len() ==> #[trigger] depths@[r] <= t.len(),
            depths@.len() == old(depths)@.len(),
            verbatim@.len() == old(verbatim)@.len(),
        decreases n - k,
    {
        let c = tree.nodes[i].children[k];
        proof {
            assert(i < t[i as int].children@[k as int] < t.len());
        }
        measure(tree, c, inner, depths, verbatim);
        k += 1;
    }
}

/// Formats a parsed file: every line re-indented to its structural depth;
/// `None` when there is nothing to change, or when the file did not parse,
/// since re-indenting a misunderstood file could move code between blocks.
pub fn format(tree: &SyntaxTree, text: &str, options: Options) -> (r: Option<String>)
    requires
        tree.wf(),
        !options.hard_tabs ==> tree.nodes@.len() * options.tab_size <= usize::MAX,
    ensures
        tree.has_error ==> r is None,
        !tree.has_error ==> match r {
            Some(s) => {
                let n = lines_of(text@).len();
                let l = measured(tree.nodes@, 0, 0, Layout { depths: Seq::new(n, |r: int| 0usize), verbatim: Seq::new(n, |r: int| false) });
                formatted(text@, l.depths, l.verbatim, options) == Some(s@)
            },
            None => {
                let n = lines_of(text@).len();
                let l = measured(tree.nodes@, 0, 0, Layout { depths: Seq::new(n, |r: int| 0usize), verbatim: Seq::new(n, |r: int| false) });
                formatted(text@, l.depths, l.verbatim, options) is None
            },
        },
{
    if tree.has_error {
        return None;
    }
    let chars = chars_of(text);
    let ls = lines(&chars);
    let n = ls.len();
    let mut depths: Vec<usize> = Vec::new();
    let mut verbatim: Vec<bool> = Vec::new();
    let mut k: usize = 0;
    while k < n
        invariant
            k <= n,
            depths@ == Seq::new(k as nat, |r: int| 0usize),
            verbatim@ == Seq::new(k as nat, |r: int| false),
        decreases n - k,
    {
        depths.push(0);
        verbatim.push(false);
        k += 1;
        assert(depths@ =~= Seq::new(k as nat, |r: int| 0usize));
        assert(verbatim@ =~= Seq::new(k as nat, |r: int| false));
    }
    measure(tree, 0, 0, &mut depths, &mut verbatim);
    proof {
        assert(chars@ == text@);
        assert forall|i: int| 0 <= i < depths@.len() implies !options.hard_tabs ==> #[trigger] depths@[i]
            * options.tab_size <= usize::MAX by {
            if !options.hard_tabs {
                assert(depths@[i] <= tree.nodes@.len());
                assert(depths@[i] * options.tab_size <= tree.nodes@.len() * options.tab_size) by (nonlinear_arith)
                    requires
                        depths@[i] <= tree.nodes@.len(),
                ;
            }
        }
    }
    format_lines(text, &depths, &verbatim, options)
}

// ------------------------------------------------------------ fixed point

/// Lines each followed by a newline.
pub open spec fn joined_lines(k: Seq<Seq<char>>) -> Seq<char>
    decreases k.len(),
{
    if k.len() == 0 {
        Seq::empty()
    } else {
        (joined_lines(k.drop_last()) + k.last()).push('\n')
    }
}

/// A line that splitting gives back as it is: no newline in it, and no
/// carriage return at its end.
pub open spec fn clean_line(l: Seq<char>) -> bool {
    &&& forall|j: int| 0 <= j < l.len() ==> #[trigger] l[j] != '\n'
    &&& !(l.len() > 0 && l.last() == '\r')
}

proof fn lemma_run_through_line(a: Seq<char>, l: Seq<char>)
    requires
        line_run(a).current.len() == 0,
        forall|j: int| 0 <= j < l.len() ==> #[trigger] l[j] != '\n',
    ensures
        line_run(a + l).done == line_run(a).done,
        line_run(a + l).current == l,
    decreases l.len(),
{
    if l.len() == 0 {
        assert(a + l =~= a);
    } else {
        assert((a + l).drop_last() =~= a + l.drop_last());
        assert forall|j: int| 0 <= j < l.drop_last().len() implies #[trigger] l.drop_last()[j] != '\n' by {
            assert(l.drop_last()[j] == l[j]);
        }
        lemma_run_through_line(a, l.drop_last());
        assert((a + l).last() == l.last());
        assert(l.last() == l[l.len() - 1]);
        assert(l.drop_last().push(l.last()) =~= l);
    }
}

proof fn lemma_run_joined(k: Seq<Seq<char>>)
    requires
        forall|i: int| 0 <= i < k.len() ==> clean_line(#[trigger] k[i]),
    ensures
        line_run(joined_lines(k)).done == k,
        line_run(joined_lines(k)).current.len() == 0,
    decreases k.len(),
{
    if k.len() > 0 {
        assert forall|i: int| 0 <= i < k.drop_last().len() implies clean_line(#[trigger] k.drop_last()[i]) by {
            assert(k.drop_last()[i] == k[i]);
        }
        lemma_run_joined(k.drop_last());
        let a = joined_lines(k.drop_last());
        let l = k.last();
        assert(clean_line(k[k.len() - 1]));
        lemma_run_through_line(a, l);
        let x = (a + l).push('\n');
        assert(x.drop_last() == a + l);
        assert(strip_cr(l) == l);
        assert(k.drop_last().push(l) =~= k);
    }
}

/// Splitting lines joined with newlines gives the lines back.
proof fn lemma_lines_of_joined(k: Seq<Seq<char>>)
    requires
        forall|i: int| 0 <= i < k.len() ==> clean_line(#[trigger] k[i]),
    ensures
        lines_of(joined_lines(k)) == k,
{
    lemma_run_joined(k);
}

/// What formatting keeps, line by line: each kept line with the depth and
/// verbatim flag of the input line it comes from (none and false for a kept
/// blank line), and the length of the current run of blank input lines.
pub struct Kept {
    pub lines: Seq<Seq<char>>,
    pub depths: Seq<usize>,
    pub verbatim: Seq<bool>,
    pub blank_run: nat,
}

/// One input line's effect on what formatting keeps.
pub open spec fn kept_step(st: Kept, raw: Seq<char>, depth: usize, verbatim: bool, o: Options) -> Kept {
    if trim(raw).len() == 0 {
        if st.blank_run + 1 <= o.max_blank_lines {
            Kept {
                lines: st.lines.push(Seq::empty()),
                depths: st.depths.push(0),
                verbatim: st.verbatim.push(false),
                blank_run: st.blank_run + 1,
            }
        } else {
            Kept { blank_run: st.blank_run + 1, ..st }
        }
    } else {
        let body = if verbatim {
            trim_end(raw)
        } else {
            indent_of(o, depth as nat) + trim(raw)
        };
        Kept {
            lines: st.lines.push(body),
            depths: st.depths.push(depth),
            verbatim: st.verbatim.push(verbatim),
            blank_run: 0,
        }
    }
}

/// What formatting keeps of the lines `ls`, taken in order.
pub open spec fn kept_run(ls: Seq<Seq<char>>, depths: Seq<usize>, verbatim: Seq<bool>, o: Options) -> Kept
    decreases ls.len(),
{
    if ls.len() == 0 {
        Kept { lines: Seq::empty(), depths: Seq::empty(), verbatim: Seq::empty(), blank_run: 0 }
    } else {
        let i = ls.len() - 1;
        kept_step(kept_run(ls.drop_last(), depths, verbatim, o), ls[i], depths[i], verbatim[i], o)
    }
}

/// The number of empty lines at the end of `k`.
pub open spec fn trailing_empties(k: Seq<Seq<char>>) -> nat
    decreases k.len(),
{
    if k.len() > 0 && k.last().len() == 0 {
        1 + trailing_empties(k.drop_last())
    } else {
        0
    }
}

/// The smaller of two naturals.
pub open spec fn min_nat(a: nat, b: nat) -> nat {
    if a <= b {
        a
    } else {
        b
    }
}

/// A kept line is empty, or is its own trimmed end with something in it
/// (verbatim), or is the indentation of its depth before its own trimmed
/// text; and no run of empty lines ever outgrows what the options keep.
pub open spec fn kept_shape(k: Kept, o: Options) -> bool {
    &&& k.depths.len() == k.lines.len()
    &&& k.verbatim.len() == k.lines.len()
    &&& forall|i: int| 0 <= i < k.lines.len() ==> clean_line(#[trigger] k.lines[i])
    &&& forall|i: int| 0 <= i < k.lines.len() ==> {
        let l = #[trigger] k.lines[i];
        ||| l.len() == 0
        ||| (k.verbatim[i] && trim_end(l) == l && trim(l).len() > 0)
        ||| (!k.verbatim[i] && trim(l).len() > 0 && l == indent_of(o, k.depths[i] as nat) + trim(l))
    }
    &&& forall|i: int| 0 <= i < k.lines.len() && (#[trigger] k.lines[i]).len() == 0 ==> trailing_empties(
        k.lines.take(i + 1),
    ) <= o.max_blank_lines
    &&& trailing_empties(k.lines) == min_nat(k.blank_run, o.max_blank_lines as nat)
}

proof fn lemma_trailing_empties_push(k: Seq<Seq<char>>, l: Seq<char>)
    ensures
        trailing_empties(k.push(l)) == if l.len() == 0 {
            trailing_empties(k) + 1
        } else {
            0
        },
{
    assert(k.push(l).drop_last() =~= k);
}

proof fn lemma_trimmed_ends(x: Seq<char>)
    ensures
        trim(x).len() > 0 ==> !is_white(trim(x)[0]) && !is_white(trim(x).last()),
        lead(x) + trim(x).len() <= x.len(),
        forall|j: int| 0 <= j < trim(x).len() ==> #[trigger] trim(x)[j] == x[lead(x) + j],
{
    lemma_lead_bounds(x);
    let u = trim_start(x);
    lemma_trail_bounds(u);
    let t = trim(x);
    if t.len() > 0 {
        assert(t[0] == u[0]);
        assert(u[0] == x[lead(x) as int]);
        assert(t.last() == u[u.len() - trail(u) - 1]);
    }
    assert forall|j: int| 0 <= j < t.len() implies #[trigger] t[j] == x[lead(x) + j] by {
        assert(t[j] == u[j]);
    }
}

proof fn lemma_trim_end_kept(raw: Seq<char>)
    requires
        trim(raw).len() > 0,
    ensures
        trim_end(trim_end(raw)) == trim_end(raw),
        trim(trim_end(raw)).len() > 0,
        trim_end(raw).len() > 0 && !is_white(trim_end(raw).last()),
        forall|j: int| 0 <= j < trim_end(raw).len() ==> #[trigger] trim_end(raw)[j] == raw[j],
{
    lemma_trail_bounds(raw);
    lemma_lead_bounds(raw);
    let l = trim_end(raw);
    let u = trim_start(raw);
    lemma_trail_bounds(u);
    if trail(raw) == raw.len() {
        assert(lead(raw) == raw.len()) by {
            if lead(raw) < raw.len() {
                assert(is_white(raw[lead(raw) as int]));
            }
        }
        assert(u.len() == 0);
        assert(false);
    }
    assert(l.last() == raw[raw.len() - trail(raw) - 1]);
    crate::strings::lemma_trail_is(l, 0);
    assert(trim_end(l) =~= l);
    lemma_lead_bounds(l);
    let v = trim_start(l);
    if lead(l) == l.len() {
        assert(is_white(l[l.len() - 1]));
        assert(false);
    }
    assert(v.len() > 0 && v.last() == l.last());
    crate::strings::lemma_trail_is(v, 0);
    assert(trim(l) =~= v);
}

proof fn lemma_trim_indented(w: Seq<char>, t: Seq<char>)
    requires
        forall|j: int| 0 <= j < w.len() ==> is_white(#[trigger] w[j]),
        t.len() > 0,
        !is_white(t[0]),
        !is_white(t.last()),
    ensures
        trim(w + t) == t,
{
    let x = w + t;
    assert forall|j: int| 0 <= j < w.len() implies is_white(#[trigger] x[j]) by {
        assert(x[j] == w[j]);
    }
    assert(x[w.len() as int] == t[0]);
    crate::strings::lemma_lead_is(x, w.len() as int);
    assert(trim_start(x) =~= t);
    assert(t[t.len() - 0 - 1] == t.last());
    crate::strings::lemma_trail_is(t, 0);
    assert(trim_end(t) =~= t);
}

proof fn lemma_indent_white(o: Options, d: nat)
    ensures
        forall|j: int| 0 <= j < indent_of(o, d).len() ==> is_white(#[trigger] indent_of(o, d)[j]) && indent_of(o, d)[j] != '\n',
{
}

/// The kept lines make up what the line-by-line pass writes, and have the
/// shape that a second pass leaves alone.
proof fn lemma_kept_run(ls: Seq<Seq<char>>, depths: Seq<usize>, verbatim: Seq<bool>, o: Options)
    requires
        depths.len() >= ls.len(),
        verbatim.len() >= ls.len(),
        forall|i: int, j: int| 0 <= i < ls.len() && 0 <= j < ls[i].len() ==> #[trigger] ls[i][j] != '\n',
    ensures
        format_run(ls, depths, verbatim, o).out == joined_lines(kept_run(ls, depths, verbatim, o).lines),
        format_run(ls, depths, verbatim, o).blank_run == kept_run(ls, depths, verbatim, o).blank_run,
        kept_shape(kept_run(ls, depths, verbatim, o), o),
    decreases ls.len(),
{
    if ls.len() > 0 {
        let n = ls.len() - 1;
        let d = ls.drop_last();
        assert forall|i: int, j: int| 0 <= i < d.len() && 0 <= j < d[i].len() implies #[trigger] d[i][j] != '\n' by {
            assert(d[i] == ls[i]);
        }
        lemma_kept_run(d, depths, verbatim, o);
        let st = kept_run(d, depths, verbatim, o);
        let raw = ls[n];
        let k = kept_run(ls, depths, verbatim, o);
        assert(forall|j: int| 0 <= j < raw.len() ==> raw[j] != '\n');
        if trim(raw).len() == 0 {
            if st.blank_run + 1 <= o.max_blank_lines {
                let e = Seq::<char>::empty();
                lemma_trailing_empties_push(st.lines, e);
                assert(k.lines.drop_last() =~= st.lines);
                assert(k.lines.last() == e);
                assert(joined_lines(k.lines) == (joined_lines(st.lines) + e).push('\n'));
                assert(joined_lines(st.lines) + e =~= joined_lines(st.lines));
                assert forall|i: int| 0 <= i < k.lines.len() && (#[trigger] k.lines[i]).len() == 0 implies trailing_empties(
                    k.lines.take(i + 1),
                ) <= o.max_blank_lines by {
                    if i < st.lines.len() {
                        assert(k.lines.take(i + 1) =~= st.lines.take(i + 1));
                    } else {
                        assert(k.lines.take(i + 1) =~= k.lines);
                    }
                }
                assert forall|i: int| 0 <= i < k.lines.len() implies clean_line(#[trigger] k.lines[i]) by {
                    if i < st.lines.len() {
                        assert(k.lines[i] == st.lines[i]);
                    }
                }
                assert forall|i: int| 0 <= i < k.lines.len() implies {
                    let l = #[trigger] k.lines[i];
                    ||| l.len() == 0
                    ||| (k.verbatim[i] && trim_end(l) == l && trim(l).len() > 0)
                    ||| (!k.verbatim[i] && trim(l).len() > 0 && l == indent_of(o, k.depths[i] as nat) + trim(l))
                } by {
                    if i < st.lines.len() {
                        assert(k.lines[i] == st.lines[i] && k.verbatim[i] == st.verbatim[i] && k.depths[i] == st.depths[i]);
                    }
                }
            } else {
                assert(k.lines == st.lines);
            }
        } else {
            let body = if verbatim[n] {
                trim_end(raw)
            } else {
                indent_of(o, depths[n] as nat) + trim(raw)
            };
            lemma_trailing_empties_push(st.lines, body);
            lemma_trim_end_kept(raw);
            lemma_trimmed_ends(raw);
            lemma_indent_white(o, depths[n] as nat);
            if !verbatim[n] {
                lemma_trim_indented(indent_of(o, depths[n] as nat), trim(raw));
                let w = indent_of(o, depths[n] as nat);
                let t = trim(raw);
                assert forall|j: int| 0 <= j < body.len() implies #[trigger] body[j] != '\n' by {
                    if j < w.len() {
                        assert(body[j] == w[j]);
                    } else {
                        assert(body[j] == t[j - w.len()]);
                        assert(t[j - w.len()] == raw[lead(raw) + (j - w.len())]);
                    }
                }
                assert(body.last() == t.last());
            }
            if verbatim[n] {
                crate::strings::lemma_trail_bounds(raw);
                assert forall|j: int| 0 <= j < body.len() implies #[trigger] body[j] != '\n' by {
                    assert(body[j] == raw[j]);
                    assert(ls[n][j] != '\n');
                }
            }
            assert(clean_line(body));
            assert(k.lines.drop_last() =~= st.lines);
            assert(k.lines.last() == body);
            assert forall|i: int| 0 <= i < k.lines.len() && (#[trigger] k.lines[i]).len() == 0 implies trailing_empties(
                k.lines.take(i + 1),
            ) <= o.max_blank_lines by {
                assert(i < st.lines.len());
                assert(k.lines.take(i + 1) =~= st.lines.take(i + 1));
            }
            assert forall|i: int| 0 <= i < k.lines.len() implies clean_line(#[trigger] k.lines[i]) by {
                if i < st.lines.len() {
                    assert(k.lines[i] == st.lines[i]);
                }
            }
            assert forall|i: int| 0 <= i < k.lines.len() implies {
                let l = #[trigger] k.lines[i];
                ||| l.len() == 0
                ||| (k.verbatim[i] && trim_end(l) == l && trim(l).len() > 0)
                ||| (!k.verbatim[i] && trim(l).len() > 0 && l == indent_of(o, k.depths[i] as nat) + trim(l))
            } by {
                if i < st.lines.len() {
                    assert(k.lines[i] == st.lines[i] && k.verbatim[i] == st.verbatim[i] && k.depths[i] == st.depths[i]);
                }
            }
        }
    }
}

proof fn lemma_line_run_clean(s: Seq<char>)
    ensures
        forall|j: int| 0 <= j < line_run(s).current.len() ==> #[trigger] line_run(s).current[j] != '\n',
        forall|i: int, j: int|
            0 <= i < line_run(s).done.len() && 0 <= j < line_run(s).done[i].len() ==> #[trigger] line_run(s).done[i][j] != '\n',
    decreases s.len(),
{
    if s.len() > 0 {
        let q = s.drop_last();
        lemma_line_run_clean(q);
        let st = line_run(q);
        let c = s.last();
        let next = line_run(s);
        if c == '\n' {
            let cur = st.current;
            assert(next.done == st.done.push(strip_cr(cur)));
            assert forall|i: int, j: int| 0 <= i < next.done.len() && 0 <= j < next.done[i].len() implies #[trigger] next.done[i][j] != '\n' by {
                if i < st.done.len() {
                    assert(next.done[i] == st.done[i]);
                    assert(st.done[i][j] != '\n');
                } else {
                    assert(next.done[i] == strip_cr(cur));
                    assert(strip_cr(cur)[j] == cur[j]);
                    assert(cur[j] != '\n');
                }
            }
        } else {
            assert(next.current == st.current.push(c));
            assert forall|j: int| 0 <= j < next.current.len() implies #[trigger] next.current[j] != '\n' by {
                if j < st.current.len() {
                    assert(next.current[j] == st.current[j]);
                }
            }
        }
    }
}

/// No line of a text holds a newline.
proof fn lemma_lines_clean(s: Seq<char>)
    ensures
        forall|i: int, j: int| 0 <= i < lines_of(s).len() && 0 <= j < lines_of(s)[i].len() ==> #[trigger] lines_of(s)[i][j] != '\n',
{
    lemma_line_run_clean(s);
    let st = line_run(s);
    assert forall|i: int, j: int| 0 <= i < lines_of(s).len() && 0 <= j < lines_of(s)[i].len() implies #[trigger] lines_of(s)[i][j] != '\n' by {
        if i < st.done.len() {
            assert(lines_of(s)[i] == st.done[i]);
            assert(st.done[i][j] != '\n');
        } else {
            assert(lines_of(s)[i] == st.current);
            assert(st.current[j] != '\n');
        }
    }
}

/// `n` newlines.
pub open spec fn newlines(n: nat) -> Seq<char> {
    Seq::new(n, |j: int| '\n')
}

/// How many of the lines `k` survive the cut to one final newline: all up to
/// the last line with something in it, or a single empty line when there is
/// none.
pub open spec fn final_count(k: Seq<Seq<char>>) -> nat {
    let s = (k.len() - trailing_empties(k)) as nat;
    if s > 0 {
        s
    } else {
        min_nat(1, k.len())
    }
}

proof fn lemma_trailing_split(k: Seq<Seq<char>>)
    ensures
        trailing_empties(k) <= k.len(),
        trailing_empties(k) < k.len() ==> k[k.len() - trailing_empties(k) - 1].len() > 0,
        forall|i: int| k.len() - trailing_empties(k) <= i < k.len() ==> (#[trigger] k[i]).len() == 0,
        joined_lines(k) == joined_lines(k.take(k.len() - trailing_empties(k))) + newlines(trailing_empties(k)),
    decreases k.len(),
{
    if k.len() > 0 && k.last().len() == 0 {
        let d = k.drop_last();
        lemma_trailing_split(d);
        let t = trailing_empties(d);
        let s = d.len() - t;
        assert(trailing_empties(k) == t + 1);
        assert(k.take(s) =~= d.take(s));
        assert forall|i: int| k.len() - trailing_empties(k) <= i < k.len() implies (#[trigger] k[i]).len() == 0 by {
            if i < d.len() {
                assert(k[i] == d[i]);
            }
        }
        if t < d.len() {
            assert(k[k.len() - trailing_empties(k) - 1] == d[d.len() - t - 1]);
        }
        assert(joined_lines(d) + k.last() =~= joined_lines(d));
        assert((joined_lines(d.take(s)) + newlines(t)).push('\n') =~= joined_lines(d.take(s)) + newlines(t + 1));
    } else {
        assert(k.take(k.len() as int) =~= k);
        assert(joined_lines(k) + newlines(0) =~= joined_lines(k));
    }
}

/// Cutting lines joined with newlines down to one final newline drops the
/// empty lines at the end, keeping one where nothing else is left.
proof fn lemma_final_newline_joined(k: Seq<Seq<char>>)
    requires
        forall|i: int| 0 <= i < k.len() ==> clean_line(#[trigger] k[i]),
    ensures
        one_final_newline(joined_lines(k)) == joined_lines(k.take(final_count(k) as int)),
{
    lemma_trailing_split(k);
    let t = trailing_empties(k);
    let s = k.len() - t;
    let j = joined_lines(k);
    let p = one_of('\n', '\n');
    if s > 0 {
        let a = joined_lines(k.take(s));
        let last = k[s - 1];
        assert(k.take(s).drop_last() =~= k.take(s - 1));
        assert(k.take(s).last() == last);
        let x = joined_lines(k.take(s - 1));
        assert(a == (x + last).push('\n'));
        assert(clean_line(k[s - 1]));
        assert(last.len() > 0);
        assert(a[a.len() - 2] == last[last.len() - 1]);
        assert(last[last.len() - 1] != '\n');
        assert(j == a + newlines(t));
        assert forall|idx: int| j.len() - (t + 1) <= idx < j.len() implies p(#[trigger] j[idx]) by {
            if idx < a.len() {
                assert(j[idx] == a[idx]);
            } else {
                assert(j[idx] == newlines(t)[idx - a.len()]);
            }
        }
        assert(j[j.len() - (t + 1) - 1] == a[a.len() - 2]);
        crate::strings::lemma_trail_by_is(j, p, (t + 1) as int);
        if t >= 1 {
            assert(j.take(j.len() - t) =~= a);
        } else {
            assert(j =~= a);
        }
        assert(a.last() == '\n');
    } else {
        assert(t == k.len());
        assert(k.take(0) =~= Seq::<Seq<char>>::empty());
        assert(j =~= newlines(t));
        crate::strings::lemma_trail_by_is(j, p, t as int);
        if t == 0 {
            assert(j.len() == 0);
        } else {
            assert(k[0].len() == 0);
            assert(k.take(1).drop_last() =~= Seq::<Seq<char>>::empty());
            assert(k.take(1).last() == k[0]);
            assert(joined_lines(k.take(1)) =~= seq!['\n']);
            if t >= 2 {
                assert(j.take(j.len() - (t - 1)) =~= seq!['\n']);
            } else {
                assert(j =~= seq!['\n']);
            }
        }
    }
}

/// The line-by-line pass leaves lines alone that already have their shape.
proof fn lemma_settled_run(ls: Seq<Seq<char>>, depths: Seq<usize>, verbatim: Seq<bool>, o: Options)
    requires
        depths.len() >= ls.len(),
        verbatim.len() >= ls.len(),
        forall|i: int| 0 <= i < ls.len() ==> {
            let l = #[trigger] ls[i];
            ||| l.len() == 0
            ||| (verbatim[i] && trim_end(l) == l && trim(l).len() > 0)
            ||| (!verbatim[i] && trim(l).len() > 0 && l == indent_of(o, depths[i] as nat) + trim(l))
        },
        forall|i: int| 0 <= i < ls.len() && (#[trigger] ls[i]).len() == 0 ==> trailing_empties(ls.take(i + 1)) <= o.max_blank_lines,
    ensures
        format_run(ls, depths, verbatim, o).out == joined_lines(ls),
        format_run(ls, depths, verbatim, o).blank_run == trailing_empties(ls),
    decreases ls.len(),
{
    if ls.len() > 0 {
        let n = ls.len() - 1;
        let d = ls.drop_last();
        assert forall|i: int| 0 <= i < d.len() implies {
            let l = #[trigger] d[i];
            ||| l.len() == 0
            ||| (verbatim[i] && trim_end(l) == l && trim(l).len() > 0)
            ||| (!verbatim[i] && trim(l).len() > 0 && l == indent_of(o, depths[i] as nat) + trim(l))
        } by {
            assert(d[i] == ls[i]);
        }
        assert forall|i: int| 0 <= i < d.len() && (#[trigger] d[i]).len() == 0 implies trailing_empties(d.take(i + 1)) <= o.max_blank_lines by {
            assert(d[i] == ls[i]);
            assert(d.take(i + 1) =~= ls.take(i + 1));
        }
        lemma_settled_run(d, depths, verbatim, o);
        let l = ls[n];
        assert(ls.take(n + 1) =~= ls);
        lemma_trailing_empties_push(d, l);
        assert(d.push(l) =~= ls);
        if l.len() == 0 {
            assert(trim(l).len() == 0);
            assert(joined_lines(d) + l =~= joined_lines(d));
        } else {
            assert(trim(l).len() > 0);
        }
    }
}

/// Formatting is a fixed point: the formatted text, laid out with the depth
/// and block-comment flag that each of its lines was formatted with, formats
/// to itself, so formatting it again changes nothing.
pub proof fn lemma_formatting_is_a_fixed_point(text: Seq<char>, depths: Seq<usize>, verbatim: Seq<bool>, o: Options)
    requires
        depths.len() == lines_of(text).len(),
        verbatim.len() == lines_of(text).len(),
    ensures
        ({
            let k = kept_run(lines_of(text), depths, verbatim, o);
            let m = final_count(k.lines) as int;
            formatted(text, depths, verbatim, o) matches Some(out) ==> {
                &&& lines_of(out) == k.lines.take(m)
                &&& formatted(out, k.depths.take(m), k.verbatim.take(m), o) is None
            }
        }),
{
    let ls = lines_of(text);
    if ls.len() > 0 {
        lemma_lines_clean(text);
        lemma_kept_run(ls, depths, verbatim, o);
        let k = kept_run(ls, depths, verbatim, o);
        let l = k.lines;
        lemma_trailing_split(l);
        let m = final_count(l) as int;
        lemma_final_newline_joined(l);
        let out = joined_lines(l.take(m));
        assert(one_final_newline(format_run(ls, depths, verbatim, o).out) == out);
        let l2 = l.take(m);
        let d2 = k.depths.take(m);
        let v2 = k.verbatim.take(m);
        assert forall|i: int| 0 <= i < l2.len() implies clean_line(#[trigger] l2[i]) by {
            assert(l2[i] == l[i]);
        }
        lemma_lines_of_joined(l2);
        assert forall|i: int| 0 <= i < l2.len() implies {
            let x = #[trigger] l2[i];
            ||| x.len() == 0
            ||| (v2[i] && trim_end(x) == x && trim(x).len() > 0)
            ||| (!v2[i] && trim(x).len() > 0 && x == indent_of(o, d2[i] as nat) + trim(x))
        } by {
            assert(l2[i] == l[i] && v2[i] == k.verbatim[i] && d2[i] == k.depths[i]);
        }
        assert forall|i: int| 0 <= i < l2.len() && (#[trigger] l2[i]).len() == 0 implies trailing_empties(l2.take(i + 1)) <= o.max_blank_lines by {
            assert(l2[i] == l[i]);
            assert(l2.take(i + 1) =~= l.take(i + 1));
        }
        lemma_settled_run(l2, d2, v2, o);
        lemma_final_newline_joined(l2);
        lemma_trailing_split(l2);
        let s = l.len() - trailing_empties(l);
        if s > 0 {
            assert(l2.len() == s);
            assert(l2[s - 1] == l[s - 1]);
            assert(trailing_empties(l2) == 0);
        } else if l.len() > 0 {
            assert(l2.len() == 1);
            assert(l2[0] == l[0]);
            assert(l.len() - trailing_empties(l) <= 0);
            assert(l[0].len() == 0);
            assert(l2.drop_last() =~= Seq::<Seq<char>>::empty());
            assert(trailing_empties(l2) == 1);
        }
        assert(l2.take(final_count(l2) as int) =~= l2);
    }
}


} // verus!
