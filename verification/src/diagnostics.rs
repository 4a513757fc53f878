//! Diagnostics that report only what is certainly wrong: indentation Skript
//! itself would reject, a block comment that is never closed, duplicate
//! declarations, and calls to functions that exist nowhere in the project.
//!
//! Positions count bytes within a line, as the parse tree reports them.
use vstd::prelude::*;
use vstd::multiset::Multiset;

use crate::source::{append_chars, append_str};
use crate::strings::{
    byte_len, byte_offset, chars_before, chars_eq, chars_of, has_prefix_at, lead, lead_index,
    lines, lines_of, slice, string_of, text_before, trail_index, trim, trim_bounds, trim_end,
};
use crate::order::is_permutation;
use crate::index::{docs_view, nth_line, Document, DocumentView, Workspace};
use crate::symbols::{derefs, flatten, FileSymbols, Reference, Symbol, SymbolKind};
use crate::text::{Position, Range};
use crate::version::{append_decimal, decimal_chars};

verus! {

/// Severity, mirroring the protocol's.
#[derive(Debug, Clone, Copy, PartialEq, Eq, Structural)]
pub enum Severity {
    Error,
    Warning,
    Hint,
}

/// A second location a diagnostic refers to.
#[derive(Debug, Clone, PartialEq, Eq)]
pub struct Related {
    pub range: Range,
    pub message: String,
}

/// One finding about a document.
#[derive(Debug, Clone, PartialEq, Eq)]
pub struct Diagnostic {
    pub range: Range,
    pub severity: Severity,
    pub message: String,
    pub code: &'static str,
    /// Other places worth looking at to understand this diagnostic.
    pub related: Vec<Related>,
}

/// A diagnostic as plain values.
pub struct DiagnosticView {
    pub range: Range,
    pub severity: Severity,
    pub message: Seq<char>,
    pub code: Seq<char>,
    pub related: Seq<(Range, Seq<char>)>,
}

impl View for Diagnostic {
    type V = DiagnosticView;

    open spec fn view(&self) -> DiagnosticView {
        DiagnosticView {
            range: self.range,
            severity: self.severity,
            message: self.message@,
            code: self.code@,
            related: self.related@.map_values(|r: Related| (r.range, r.message@)),
        }
    }
}

pub open spec fn diagnostics_view(v: Seq<Diagnostic>) -> Seq<DiagnosticView> {
    v.map_values(|d: Diagnostic| d@)
}

/// A diagnostic with nothing related.
pub open spec fn finding(range: Range, severity: Severity, message: Seq<char>, code: Seq<char>) -> DiagnosticView {
    DiagnosticView { range, severity, message, code, related: Seq::empty() }
}

/// What the user has switched on.
#[derive(Debug, Clone, Copy, PartialEq, Eq, Structural)]
pub struct Options {
    /// Report lines that match no known pattern. Off by default: any addon
    /// can register syntax that is not known here.
    pub unknown_syntax: bool,
    /// Report syntax upstream has marked deprecated.
    pub deprecated_syntax: bool,
    /// Whether the project index has finished reading the folder; until then
    /// "this function does not exist" cannot be known.
    pub project_indexed: bool,
}

impl Default for Options {
    fn default() -> (o: Options)
        ensures
            o == (Options { unknown_syntax: false, deprecated_syntax: true, project_indexed: false }),
    {
        Options { unknown_syntax: false, deprecated_syntax: true, project_indexed: false }
    }
}

pub(crate) fn push_finding(out: &mut Vec<Diagnostic>, range: Range, severity: Severity, message: Vec<char>, code: &'static str)
    ensures
        diagnostics_view(final(out)@) == diagnostics_view(old(out)@).push(
            finding(range, severity, message@, code@),
        ),
{
    let d = Diagnostic { range, severity, message: string_of(&message), code, related: Vec::new() };
    let ghost before = out@;
    out.push(d);
    assert(d@.related =~= Seq::<(Range, Seq<char>)>::empty());
    assert(diagnostics_view(out@) =~= diagnostics_view(before).push(d@));
}

// ------------------------------------------------------------ block comments

/// A `###` delimiter line.
pub open spec fn is_delimiter(line: Seq<char>) -> bool {
    trim(line) == seq!['#', '#', '#']
}

/// Whether line `n` starts inside a block comment.
pub open spec fn inside_before(ls: Seq<Seq<char>>, n: int) -> bool
    decreases n,
{
    if n <= 0 {
        false
    } else {
        inside_before(ls, n - 1) != is_delimiter(ls[n - 1])
    }
}

/// Line `n` lies inside a `###` block comment, delimiters excluded.
pub open spec fn is_prose(ls: Seq<Seq<char>>, n: int) -> bool {
    !is_delimiter(ls[n]) && inside_before(ls, n)
}

fn delimiter(line: &Vec<char>) -> (b: bool)
    ensures
        b == is_delimiter(line@),
{
    let (a, b) = trim_bounds(line, 0, line.len());
    assert(line@.subrange(0, line@.len() as int) == line@);
    let r = b - a == 3 && line[a] == '#' && line[a + 1] == '#' && line[a + 2] == '#';
    proof {
        let t = line@.subrange(a as int, b as int);
        if b - a == 3 {
            assert(t[0] == line@[a as int] && t[1] == line@[a + 1] && t[2] == line@[a + 2]);
        }
        let hashes = seq!['#', '#', '#'];
        assert(hashes.len() == 3 && hashes[0] == '#' && hashes[1] == '#' && hashes[2] == '#');
        if r {
            assert(t =~= hashes);
        } else if b - a == 3 {
            if line@[a as int] != '#' {
                assert(t[0] != hashes[0]);
            } else if line@[a + 1] != '#' {
                assert(t[1] != hashes[1]);
            } else {
                assert(t[2] != hashes[2]);
            }
        }
    }
    r
}

/// For each line, whether it lies inside a `###` block comment, delimiters
/// excluded.
pub fn block_comment_lines(text: &str) -> (prose: Vec<bool>)
    ensures
        prose@.len() == lines_of(text@).len(),
        forall|n: int| 0 <= n < prose@.len() ==> #[trigger] prose@[n] == is_prose(lines_of(text@), n),
{
    let chars = chars_of(text);
    let ls = lines(&chars);
    assert(ls@.map_values(|l: Vec<char>| l@) =~= lines_of(chars@));
    block_comment_flags(&ls)
}

fn block_comment_flags(ls: &Vec<Vec<char>>) -> (prose: Vec<bool>)
    ensures
        prose@.len() == ls@.len(),
        forall|n: int| 0 <= n < prose@.len() ==> #[trigger] prose@[n] == is_prose(
            ls@.map_values(|l: Vec<char>| l@),
            n,
        ),
{
    let ghost all = ls@.map_values(|l: Vec<char>| l@);
    let mut prose: Vec<bool> = Vec::new();
    let mut inside = false;
    let mut i: usize = 0;
    while i < ls.len()
        invariant
            i <= ls@.len(),
            all == ls@.map_values(|l: Vec<char>| l@),
            prose@.len() == i,
            inside == inside_before(all, i as int),
            forall|n: int| 0 <= n < i ==> #[trigger] prose@[n] == is_prose(all, n),
        decreases ls@.len() - i,
    {
        let d = delimiter(&ls[i]);
        assert(all[i as int] == ls@[i as int]@);
        if d {
            inside = !inside;
            prose.push(false);
        } else {
            prose.push(inside);
        }
        i += 1;
    }
    prose
}

/// The line of a `###` left open at the end of the text, if any.
pub open spec fn open_block(ls: Seq<Seq<char>>, n: int) -> Option<int>
    decreases n,
{
    if n <= 0 {
        None
    } else {
        let before = open_block(ls, n - 1);
        if is_delimiter(ls[n - 1]) {
            match before {
                Some(_) => None,
                None => Some(n - 1),
            }
        } else {
            before
        }
    }
}

pub open spec fn unclosed_message() -> Seq<char> {
    "This block comment is never closed. Add a line containing only `###`."@
}

/// What `check_block_comments` adds for a text.
pub open spec fn block_comment_findings(text: Seq<char>) -> Seq<DiagnosticView> {
    let ls = lines_of(text);
    match open_block(ls, ls.len() as int) {
        Some(line) => seq![
            finding(
                Range {
                    start: Position { line: line as u32, character: 0 },
                    end: Position { line: line as u32, character: 3 },
                },
                Severity::Error,
                unclosed_message(),
                "unclosed-block-comment"@,
            ),
        ],
        None => Seq::empty(),
    }
}

/// A `###` block comment that is never closed swallows the rest of the file.
pub fn check_block_comments(text: &str, out: &mut Vec<Diagnostic>)
    ensures
        diagnostics_view(final(out)@) == diagnostics_view(old(out)@) + block_comment_findings(text@),
{
    let chars = chars_of(text);
    let ls = lines(&chars);
    let ghost all = lines_of(chars@);
    let mut open_at: Option<usize> = None;
    let mut i: usize = 0;
    while i < ls.len()
        invariant
            i <= ls@.len(),
            ls@.len() == all.len(),
            forall|j: int| 0 <= j < ls@.len() ==> #[trigger] ls@[j]@ == all[j],
            match open_block(all, i as int) {
                Some(k) => open_at == Some(k as usize) && 0 <= k < i,
                None => open_at is None,
            },
        decreases ls@.len() - i,
    {
        if delimiter(&ls[i]) {
            open_at = match open_at {
                Some(_) => None,
                None => Some(i),
            };
        }
        i += 1;
    }
    let ghost before = diagnostics_view(out@);
    if let Some(line) = open_at {
        let at = line as u32;
        let range = Range { start: Position { line: at, character: 0 }, end: Position { line: at, character: 3 } };
        let message = chars_of("This block comment is never closed. Add a line containing only `###`.");
        push_finding(out, range, Severity::Error, message, "unclosed-block-comment");
        assert(diagnostics_view(out@) =~= before + block_comment_findings(text@));
    } else {
        assert(diagnostics_view(out@) =~= before + block_comment_findings(text@));
    }
}

// ------------------------------------------------------------ indentation

/// An indent made of spaces (it starts with one).
pub open spec fn is_spaces(indent: Seq<char>) -> bool {
    indent.len() > 0 && indent[0] == ' '
}

pub open spec fn word_for(indent: Seq<char>) -> Seq<char> {
    if is_spaces(indent) {
        "spaces"@
    } else {
        "tabs"@
    }
}

pub open spec fn mixed_message() -> Seq<char> {
    "Indentation mixes tabs and spaces. Skript requires one or the other within a single indent."@
}

pub open spec fn inconsistent_message(here: Seq<char>, earlier: Seq<char>) -> Seq<char> {
    "Indentation uses "@ + word_for(here) + " here but "@ + word_for(earlier)
        + " earlier in the file. Skript infers one indent unit per script."@
}

pub open spec fn not_multiple_message(len: nat, unit: nat) -> Seq<char> {
    "Indentation is "@ + decimal_chars(len)
        + " characters, which is not a multiple of this script's indent unit of "@
        + decimal_chars(unit) + "."@
}

/// Lines whose indentation says nothing: prose inside a block comment, lines
/// without indentation, blank lines and comment lines.
pub open spec fn ignores_indent(ls: Seq<Seq<char>>, n: int) -> bool {
    let line = ls[n];
    ||| is_prose(ls, n)
    ||| lead(line) == 0
    ||| trim(line).len() == 0
    ||| line[lead(line) as int] == '#'
}

/// The unit of indentation seen first, and the findings so far.
pub struct IndentState {
    pub unit: Option<Seq<char>>,
    pub found: Seq<DiagnosticView>,
}

/// Checks the indentation of line `n` against the unit, and sets the unit
/// from the first indented line.
pub open spec fn indent_step(st: IndentState, n: int, line: Seq<char>) -> IndentState {
    let indent = line.take(lead(line) as int);
    let len = byte_len(indent);
    let range = Range {
        start: Position { line: n as u32, character: 0 },
        end: Position { line: n as u32, character: len as u32 },
    };
    if indent.contains(' ') && indent.contains('\t') {
        IndentState {
            unit: st.unit,
            found: st.found.push(
                finding(range, Severity::Error, mixed_message(), "mixed-indentation"@),
            ),
        }
    } else {
        match st.unit {
            None => IndentState { unit: Some(indent), found: st.found },
            Some(u) => if is_spaces(u) != is_spaces(indent) {
                IndentState {
                    unit: st.unit,
                    found: st.found.push(
                        finding(
                            range,
                            Severity::Error,
                            inconsistent_message(indent, u),
                            "inconsistent-indentation"@,
                        ),
                    ),
                }
            } else if len % byte_len(u) != 0 {
                IndentState {
                    unit: st.unit,
                    found: st.found.push(
                        finding(
                            range,
                            Severity::Error,
                            not_multiple_message(len, byte_len(u)),
                            "indent-not-a-multiple"@,
                        ),
                    ),
                }
            } else {
                st
            },
        }
    }
}

pub open spec fn indent_run(ls: Seq<Seq<char>>, n: int) -> IndentState
    decreases n,
{
    if n <= 0 {
        IndentState { unit: None, found: Seq::empty() }
    } else {
        let st = indent_run(ls, n - 1);
        if ignores_indent(ls, n - 1) {
            st
        } else {
            indent_step(st, n - 1, ls[n - 1])
        }
    }
}

/// What `check_indentation` adds for a text.
pub open spec fn indentation_findings(text: Seq<char>) -> Seq<DiagnosticView> {
    indent_run(lines_of(text), lines_of(text).len() as int).found
}

fn contains_char(s: &Vec<char>, c: char) -> (b: bool)
    ensures
        b == s@.contains(c),
{
    let mut i: usize = 0;
    while i < s.len()
        invariant
            i <= s@.len(),
            forall|j: int| 0 <= j < i ==> s@[j] != c,
        decreases s@.len() - i,
    {
        if s[i] == c {
            assert(s@[i as int] == c);
            return true;
        }
        i += 1;
    }
    false
}

fn word(spaces: bool) -> (w: Vec<char>)
    ensures
        w@ == (if spaces {
            "spaces"@
        } else {
            "tabs"@
        }),
{
    if spaces {
        chars_of("spaces")
    } else {
        chars_of("tabs")
    }
}

/// Skript infers one indent unit per file from the first indented line,
/// forbids mixing tabs and spaces inside a single indent, and requires every
/// deeper line to be an exact multiple of that unit.
pub fn check_indentation(text: &str, out: &mut Vec<Diagnostic>)
    requires
        byte_len(text@) <= usize::MAX,
    ensures
        diagnostics_view(final(out)@) == diagnostics_view(old(out)@) + indentation_findings(text@),
{
    let chars = chars_of(text);
    let ls = lines(&chars);
    let ghost all = lines_of(chars@);
    assert(ls@.map_values(|l: Vec<char>| l@) =~= all);
    let prose = block_comment_flags(&ls);
    proof {
        crate::strings::lemma_line_bytes(chars@);
    }
    let ghost start = diagnostics_view(out@);
    let mut unit: Option<Vec<char>> = None;
    let mut unit_bytes: usize = 0;
    let mut i: usize = 0;
    while i < ls.len()
        invariant
            i <= ls@.len(),
            ls@.len() == all.len(),
            all == lines_of(text@),
            byte_len(text@) <= usize::MAX,
            forall|j: int| 0 <= j < all.len() ==> byte_len(#[trigger] all[j]) <= byte_len(text@),
            forall|j: int| 0 <= j < ls@.len() ==> #[trigger] ls@[j]@ == all[j],
            prose@.len() == all.len(),
            forall|n: int| 0 <= n < prose@.len() ==> #[trigger] prose@[n] == is_prose(all, n),
            match indent_run(all, i as int).unit {
                Some(u) => unit matches Some(v) && v@ == u && unit_bytes == byte_len(u) && byte_len(u) > 0,
                None => unit is None,
            },
            diagnostics_view(out@) == start + indent_run(all, i as int).found,
        decreases ls@.len() - i,
    {
        let line = &ls[i];
        assert(line@ == all[i as int]);
        let k = lead_index(line, 0, line.len());
        assert(line@.subrange(0, line@.len() as int) == line@);
        let (a, b) = trim_bounds(line, 0, line.len());
        proof {
            if k == line@.len() {
                assert(line@.skip(k as int) =~= Seq::<char>::empty());
                assert(trim(line@).len() == 0);
            }
        }
        let skip = prose[i] || k == 0 || a == b || line[k] == '#';
        if !skip {
            let indent = slice(line, 0, k);
            assert(indent@ == line@.take(k as int));
            let len = byte_offset(line, k);
            let at = i as u32;
            let range = Range {
                start: Position { line: at, character: 0 },
                end: Position { line: at, character: len as u32 },
            };
            let ghost st = indent_run(all, i as int);
            if contains_char(&indent, ' ') && contains_char(&indent, '\t') {
                let message = chars_of(
                    "Indentation mixes tabs and spaces. Skript requires one or the other within a single indent.",
                );
                push_finding(out, range, Severity::Error, message, "mixed-indentation");
            } else {
                let here_spaces = indent[0] == ' ';
                match &unit {
                    None => {
                        proof {
                            crate::strings::lemma_byte_len_bounds(indent@);
                        }
                        unit_bytes = len;
                        unit = Some(indent);
                    },
                    Some(u) => {
                        let unit_spaces = u[0] == ' ';
                        if unit_spaces != here_spaces {
                            let mut message = chars_of("Indentation uses ");
                            append_chars(&mut message, &word(here_spaces));
                            append_str(&mut message, " here but ");
                            append_chars(&mut message, &word(unit_spaces));
                            append_str(
                                &mut message,
                                " earlier in the file. Skript infers one indent unit per script.",
                            );
                            push_finding(out, range, Severity::Error, message, "inconsistent-indentation");
                        } else if len % unit_bytes != 0 {
                            let mut message = chars_of("Indentation is ");
                            append_decimal(&mut message, len as u64);
                            append_str(
                                &mut message,
                                " characters, which is not a multiple of this script's indent unit of ",
                            );
                            append_decimal(&mut message, unit_bytes as u64);
                            append_str(&mut message, ".");
                            push_finding(out, range, Severity::Error, message, "indent-not-a-multiple");
                        }
                    },
                }
            }
        }
        i += 1;
    }
}

// ------------------------------------------------------------ duplicates

/// The kinds whose declarations must be unique within a script.
pub open spec fn must_be_unique(kind: SymbolKind) -> bool {
    kind is Function || kind is LocalFunction || kind is Command || kind is Option
}

/// The first declaration recorded at or after `i` with this kind and name.
pub open spec fn first_seen(seen: Seq<(SymbolKind, Seq<char>, Range)>, kind: SymbolKind, name: Seq<char>, i: int) -> Option<Range>
    decreases seen.len() - i,
{
    if i < 0 || i >= seen.len() {
        None
    } else if seen[i].0 == kind && seen[i].1 == name {
        Some(seen[i].2)
    } else {
        first_seen(seen, kind, name, i + 1)
    }
}

pub struct DuplicateState {
    pub seen: Seq<(SymbolKind, Seq<char>, Range)>,
    pub found: Seq<DiagnosticView>,
}

pub open spec fn duplicate_message(name: Seq<char>) -> Seq<char> {
    "`"@ + name + "` is declared more than once in this script."@
}

pub open spec fn first_here_message(name: Seq<char>) -> Seq<char> {
    "`"@ + name + "` is first declared here."@
}

pub open spec fn duplicate_step(st: DuplicateState, s: Symbol) -> DuplicateState {
    if !must_be_unique(s.kind) {
        st
    } else {
        match first_seen(st.seen, s.kind, s.name@, 0) {
            Some(first) => DuplicateState {
                seen: st.seen,
                found: st.found.push(
                    DiagnosticView {
                        range: s.selection_range,
                        severity: Severity::Error,
                        message: duplicate_message(s.name@),
                        code: "duplicate-declaration"@,
                        related: seq![(first, first_here_message(s.name@))],
                    },
                ),
            },
            None => DuplicateState {
                seen: st.seen.push((s.kind, s.name@, s.selection_range)),
                found: st.found,
            },
        }
    }
}

pub open spec fn duplicate_run(symbols: Seq<Symbol>) -> DuplicateState
    decreases symbols.len(),
{
    if symbols.len() == 0 {
        DuplicateState { seen: Seq::empty(), found: Seq::empty() }
    } else {
        duplicate_step(duplicate_run(symbols.drop_last()), symbols.last())
    }
}

/// What `check_duplicate_declarations` adds: every function, command or
/// option declared again after its first declaration, pointing back at it.
pub open spec fn duplicate_findings(symbols: &FileSymbols) -> Seq<DiagnosticView> {
    duplicate_run(flatten(symbols.symbols@)).found
}

pub open spec fn seen_view(v: Seq<(SymbolKind, String, Range)>) -> Seq<(SymbolKind, Seq<char>, Range)> {
    v.map_values(|e: (SymbolKind, String, Range)| (e.0, e.1@, e.2))
}

fn find_seen(seen: &Vec<(SymbolKind, String, Range)>, kind: SymbolKind, name: &String) -> (r: Option<Range>)
    ensures
        r == first_seen(seen_view(seen@), kind, name@, 0),
{
    let ghost v = seen_view(seen@);
    let mut i: usize = 0;
    while i < seen.len()
        invariant
            i <= seen@.len(),
            v == seen_view(seen@),
            first_seen(v, kind, name@, 0) == first_seen(v, kind, name@, i as int),
        decreases seen@.len() - i,
    {
        if seen[i].0 == kind && seen[i].1 == *name {
            return Some(seen[i].2);
        }
        i += 1;
    }
    None
}

proof fn lemma_first_seen_found(seen: Seq<(SymbolKind, Seq<char>, Range)>, kind: SymbolKind, name: Seq<char>, i: int)
    requires
        0 <= i,
    ensures
        first_seen(seen, kind, name, i) matches Some(r) ==> exists|x: int|
            i <= x < seen.len() && (#[trigger] seen[x]).0 == kind && seen[x].1 == name && seen[x].2 == r,
    decreases seen.len() - i,
{
    if i < seen.len() {
        lemma_first_seen_found(seen, kind, name, i + 1);
    }
}

proof fn lemma_first_seen_some(seen: Seq<(SymbolKind, Seq<char>, Range)>, kind: SymbolKind, name: Seq<char>, i: int, x: int)
    requires
        0 <= i <= x < seen.len(),
        seen[x].0 == kind,
        seen[x].1 == name,
    ensures
        first_seen(seen, kind, name, i) is Some,
    decreases x - i,
{
    if i < x {
        lemma_first_seen_some(seen, kind, name, i + 1, x);
    }
}

proof fn lemma_first_seen_push(seen: Seq<(SymbolKind, Seq<char>, Range)>, e: (SymbolKind, Seq<char>, Range), kind: SymbolKind, name: Seq<char>, i: int)
    requires
        0 <= i <= seen.len(),
        first_seen(seen, kind, name, i) is Some,
    ensures
        first_seen(seen.push(e), kind, name, i) == first_seen(seen, kind, name, i),
    decreases seen.len() - i,
{
    if i < seen.len() {
        assert(seen.push(e)[i] == seen[i]);
        if !(seen[i].0 == kind && seen[i].1 == name) {
            lemma_first_seen_push(seen, e, kind, name, i + 1);
        }
    }
}

/// The facts of a run over `s`: what it has seen comes from `s`, every
/// declaration of a kind that must be unique has been seen, and the run only
/// ever adds findings.
proof fn lemma_duplicate_run_facts(s: Seq<Symbol>)
    ensures
        forall|x: int| 0 <= x < duplicate_run(s).seen.len() ==> exists|i: int|
            0 <= i < s.len() && (#[trigger] duplicate_run(s).seen[x]) == (s[i].kind, s[i].name@, s[i].selection_range),
        forall|i: int|
            0 <= i < s.len() && must_be_unique((#[trigger] s[i]).kind) ==> first_seen(duplicate_run(s).seen, s[i].kind, s[i].name@, 0) is Some,
    decreases s.len(),
{
    if s.len() > 0 {
        let d = s.drop_last();
        lemma_duplicate_run_facts(d);
        let st = duplicate_run(d);
        let last = s.last();
        let next = duplicate_run(s);
        assert forall|x: int| 0 <= x < next.seen.len() implies exists|i: int|
            0 <= i < s.len() && (#[trigger] next.seen[x]) == (s[i].kind, s[i].name@, s[i].selection_range) by {
            if x < st.seen.len() {
                let i = choose|i: int| 0 <= i < d.len() && st.seen[x] == (d[i].kind, d[i].name@, d[i].selection_range);
                assert(next.seen[x] == st.seen[x]);
                assert(s[i] == d[i]);
            } else {
                assert(next.seen[x] == (last.kind, last.name@, last.selection_range));
                assert(s[s.len() - 1] == last);
            }
        }
        assert forall|i: int| 0 <= i < s.len() && must_be_unique((#[trigger] s[i]).kind) implies first_seen(
            next.seen,
            s[i].kind,
            s[i].name@,
            0,
        ) is Some by {
            if i < d.len() {
                assert(s[i] == d[i]);
                if must_be_unique(last.kind) && first_seen(st.seen, last.kind, last.name@, 0) is None {
                    lemma_first_seen_push(st.seen, (last.kind, last.name@, last.selection_range), s[i].kind, s[i].name@, 0);
                }
            } else {
                assert(s[i] == last);
                if first_seen(st.seen, last.kind, last.name@, 0) is None {
                    lemma_first_seen_some(next.seen, last.kind, last.name@, 0, st.seen.len() as int);
                }
            }
        }
    }
}

/// Every finding of a run over a prefix of `s` is a finding of the run over
/// `s`, at the same place.
proof fn lemma_duplicate_found_grows(s: Seq<Symbol>, n: int)
    requires
        0 <= n <= s.len(),
    ensures
        duplicate_run(s.take(n)).found.len() <= duplicate_run(s).found.len(),
        forall|k: int| 0 <= k < duplicate_run(s.take(n)).found.len() ==> #[trigger] duplicate_run(s).found[k] == duplicate_run(s.take(n)).found[k],
    decreases s.len() - n,
{
    if n < s.len() {
        lemma_duplicate_found_grows(s, n + 1);
        assert(s.take(n + 1).drop_last() =~= s.take(n));
    } else {
        assert(s.take(n) =~= s);
    }
}

/// Each kind that must be unique in a script (function, local function,
/// command, option) is reported when it repeats: for any two declarations of
/// the same such kind and name, the later one gets a `duplicate-declaration`
/// error on its name, pointing back at an earlier declaration of the same
/// kind and name.
pub proof fn lemma_every_repeated_declaration_is_reported(symbols: FileSymbols, i: int, j: int)
    requires
        ({
            let f = flatten(symbols.symbols@);
            &&& 0 <= i < j < f.len()
            &&& f[i].kind == f[j].kind
            &&& f[i].name@ == f[j].name@
            &&& (f[j].kind is Function || f[j].kind is LocalFunction || f[j].kind is Command || f[j].kind is Option)
        }),
    ensures
        ({
            let f = flatten(symbols.symbols@);
            let found = duplicate_findings(&symbols);
            exists|k: int, e: int|
                #![trigger found[k], f[e]]
                0 <= k < found.len() && 0 <= e < j && f[e].kind == f[j].kind && f[e].name@ == f[j].name@
                    && found[k].range == f[j].selection_range && found[k].severity == Severity::Error
                    && found[k].code == "duplicate-declaration"@ && found[k].related == seq![
                    (f[e].selection_range, first_here_message(f[j].name@)),
                ]
        }),
{
    let f = flatten(symbols.symbols@);
    let d = f.take(j);
    lemma_duplicate_run_facts(d);
    assert(d[i] == f[i]);
    let st = duplicate_run(d);
    let sj = f[j];
    assert(first_seen(st.seen, sj.kind, sj.name@, 0) is Some);
    let first = first_seen(st.seen, sj.kind, sj.name@, 0)->0;
    lemma_first_seen_found(st.seen, sj.kind, sj.name@, 0);
    let x = choose|x: int| 0 <= x < st.seen.len() && (#[trigger] st.seen[x]).0 == sj.kind && st.seen[x].1 == sj.name@ && st.seen[x].2 == first;
    let e = choose|e: int| 0 <= e < d.len() && st.seen[x] == (d[e].kind, d[e].name@, d[e].selection_range);
    assert(d[e] == f[e]);
    assert(f.take(j + 1).drop_last() =~= d);
    assert(f.take(j + 1).last() == sj);
    let after = duplicate_run(f.take(j + 1));
    let k = st.found.len() as int;
    assert(after.found[k].range == sj.selection_range);
    lemma_duplicate_found_grows(f, j + 1);
    assert(duplicate_findings(&symbols)[k] == after.found[k]);
}

proof fn lemma_duplicate_found_sources(s: Seq<Symbol>)
    ensures
        forall|k: int| 0 <= k < duplicate_run(s).found.len() ==> exists|j: int, e: int|
            #![trigger s[j], s[e]]
            0 <= e < j < s.len() && s[e].kind == s[j].kind && s[e].name@ == s[j].name@
                && (s[j].kind is Function || s[j].kind is LocalFunction || s[j].kind is Command || s[j].kind is Option)
                && (#[trigger] duplicate_run(s).found[k]).range == s[j].selection_range
                && duplicate_run(s).found[k].code == "duplicate-declaration"@,
    decreases s.len(),
{
    if s.len() > 0 {
        let d = s.drop_last();
        lemma_duplicate_found_sources(d);
        lemma_duplicate_run_facts(d);
        let st = duplicate_run(d);
        let last = s.last();
        let next = duplicate_run(s);
        assert forall|k: int| 0 <= k < next.found.len() implies exists|j: int, e: int|
            #![trigger s[j], s[e]]
            0 <= e < j < s.len() && s[e].kind == s[j].kind && s[e].name@ == s[j].name@
                && (s[j].kind is Function || s[j].kind is LocalFunction || s[j].kind is Command || s[j].kind is Option)
                && (#[trigger] next.found[k]).range == s[j].selection_range
                && next.found[k].code == "duplicate-declaration"@ by {
            if k < st.found.len() {
                assert(next.found[k] == st.found[k]);
                let (j, e) = choose|j: int, e: int|
                    #![trigger d[j], d[e]]
                    0 <= e < j < d.len() && d[e].kind == d[j].kind && d[e].name@ == d[j].name@
                        && (d[j].kind is Function || d[j].kind is LocalFunction || d[j].kind is Command || d[j].kind is Option)
                        && st.found[k].range == d[j].selection_range
                        && st.found[k].code == "duplicate-declaration"@;
                assert(s[j] == d[j] && s[e] == d[e]);
            } else {
                lemma_first_seen_found(st.seen, last.kind, last.name@, 0);
                let x = choose|x: int|
                    0 <= x < st.seen.len() && (#[trigger] st.seen[x]).0 == last.kind && st.seen[x].1 == last.name@
                        && st.seen[x].2 == first_seen(st.seen, last.kind, last.name@, 0)->0;
                let e = choose|e: int| 0 <= e < d.len() && st.seen[x] == (d[e].kind, d[e].name@, d[e].selection_range);
                let j = s.len() - 1;
                assert(s[j] == last);
                assert(s[e] == d[e]);
            }
        }
    }
}

/// Only repeated declarations are reported: each finding lies on the name
/// of a function, local function, command or option that an earlier
/// declaration of the same kind and name precedes.
pub proof fn lemma_only_repeated_declarations_are_reported(symbols: FileSymbols)
    ensures
        ({
            let f = flatten(symbols.symbols@);
            let found = duplicate_findings(&symbols);
            forall|k: int| 0 <= k < found.len() ==> exists|j: int, e: int|
                #![trigger f[j], f[e]]
                0 <= e < j < f.len() && f[e].kind == f[j].kind && f[e].name@ == f[j].name@
                    && (f[j].kind is Function || f[j].kind is LocalFunction || f[j].kind is Command || f[j].kind is Option)
                    && (#[trigger] found[k]).range == f[j].selection_range
                    && found[k].code == "duplicate-declaration"@
        }),
{
    let f = flatten(symbols.symbols@);
    lemma_duplicate_found_sources(f);
    let found = duplicate_findings(&symbols);
    assert(found == duplicate_run(f).found);
    assert forall|k: int| 0 <= k < found.len() implies exists|j: int, e: int|
        #![trigger f[j], f[e]]
        0 <= e < j < f.len() && f[e].kind == f[j].kind && f[e].name@ == f[j].name@
            && (f[j].kind is Function || f[j].kind is LocalFunction || f[j].kind is Command || f[j].kind is Option)
            && (#[trigger] found[k]).range == f[j].selection_range
            && found[k].code == "duplicate-declaration"@ by {
        assert(found[k] == duplicate_run(f).found[k]);
    }
}

/// Reports every function, command or option declared more than once.
pub fn check_duplicate_declarations(symbols: &FileSymbols, out: &mut Vec<Diagnostic>)
    ensures
        diagnostics_view(final(out)@) == diagnostics_view(old(out)@) + duplicate_findings(symbols),
{
    let all = symbols.flat();
    let ghost f = flatten(symbols.symbols@);
    let ghost start = diagnostics_view(out@);
    let mut seen: Vec<(SymbolKind, String, Range)> = Vec::new();
    let mut i: usize = 0;
    assert(seen_view(seen@) =~= Seq::<(SymbolKind, Seq<char>, Range)>::empty());
    assert(start + Seq::<DiagnosticView>::empty() =~= start);
    while i < all.len()
        invariant
            i <= all@.len(),
            derefs(all@) == f,
            f == flatten(symbols.symbols@),
            seen_view(seen@) == duplicate_run(f.take(i as int)).seen,
            diagnostics_view(out@) == start + duplicate_run(f.take(i as int)).found,
        decreases all@.len() - i,
    {
        let symbol: &Symbol = all[i];
        assert(f[i as int] == *symbol);
        assert(f.take(i + 1).drop_last() =~= f.take(i as int));
        assert(f.take(i + 1).last() == *symbol);
        let kind = symbol.kind;
        if matches!(kind, SymbolKind::Function | SymbolKind::LocalFunction | SymbolKind::Command | SymbolKind::Option) {
            match find_seen(&seen, kind, &symbol.name) {
                Some(first) => {
                    let name = chars_of(symbol.name.as_str());
                    let mut message = chars_of("`");
                    append_chars(&mut message, &name);
                    append_str(&mut message, "` is declared more than once in this script.");
                    let mut note = chars_of("`");
                    append_chars(&mut note, &name);
                    append_str(&mut note, "` is first declared here.");
                    let related = vec![Related { range: first, message: string_of(&note) }];
                    let d = Diagnostic {
                        range: symbol.selection_range,
                        severity: Severity::Error,
                        message: string_of(&message),
                        code: "duplicate-declaration",
                        related,
                    };
                    let ghost before = out@;
                    out.push(d);
                    assert(d@.related =~= seq![(first, first_here_message(symbol.name@))]);
                    assert(diagnostics_view(out@) =~= diagnostics_view(before).push(d@));
                },
                None => {
                    let ghost before = seen@;
                    seen.push((kind, symbol.name.clone(), symbol.selection_range));
                    assert(seen_view(seen@) =~= seen_view(before).push(
                        (kind, symbol.name@, symbol.selection_range),
                    ));
                },
            }
        }
        i += 1;
    }
    assert(f.take(f.len() as int) =~= f);
}

// ------------------------------------------------------------ unknown functions

/// The column falls on a character boundary of the line, or past its end.
pub open spec fn splits_line(line: Seq<char>, col: int) -> bool {
    col >= byte_len(line) || byte_len(text_before(line, col)) == col
}

pub open spec fn ends_with(s: Seq<char>, suffix: Seq<char>) -> bool {
    suffix.len() <= s.len() && s.skip(s.len() - suffix.len()) == suffix
}

/// The reference is a skript-reflect constructor such as `new ArrayList()`:
/// the text before it on its line ends with `new`.
pub open spec fn after_new(line: Seq<char>, r: Reference) -> bool {
    ends_with(trim_end(text_before(line, r.range.start.character as int)), "new"@)
}

/// Whether `reference` is preceded on its line by `new`, as skript-reflect
/// writes a Java constructor.
pub fn preceded_by_new(line: &str, reference: &Reference) -> (b: bool)
    requires
        splits_line(line@, reference.range.start.character as int),
    ensures
        b == after_new(line@, *reference),
{
    let chars = chars_of(line);
    let before = chars_before(&chars, reference.range.start.character);
    let e = trail_index(&before, 0, before.len());
    assert(before@.subrange(0, before@.len() as int) == before@);
    let trimmed = slice(&before, 0, e);
    assert(trimmed@ == trim_end(before@));
    let new = chars_of("new");
    if new.len() > trimmed.len() {
        return false;
    }
    let at = trimmed.len() - new.len();
    let r = has_prefix_at(&trimmed, at, &new);
    proof {
        let tail = trimmed@.skip(at as int);
        assert(tail.len() == new@.len());
        assert(tail.take(new@.len() as int) =~= tail);
    }
    r
}

/// Whether `s` declares a function that `uri` can call: a project-wide
/// function, or a local one declared in `uri` itself.
pub open spec fn callable(s: Symbol, doc_uri: Seq<char>, uri: Seq<char>) -> bool {
    (s.kind is Function || s.kind is LocalFunction) && !(s.kind is LocalFunction && doc_uri != uri)
}

/// The names of every function callable from `uri`.
pub open spec fn declared_names(docs: Seq<DocumentView>, uri: Seq<char>) -> Set<Seq<char>> {
    Set::new(
        |name: Seq<char>|
            exists|i: int, j: int|
                0 <= i < docs.len() && 0 <= j < flatten(docs[i].symbols.symbols@).len() && #[trigger] callable(
                    flatten(docs[i].symbols.symbols@)[j],
                    docs[i].uri,
                    uri,
                ) && flatten(docs[i].symbols.symbols@)[j].name@ == name,
    )
}

pub open spec fn unknown_message(name: Seq<char>) -> Seq<char> {
    "No function named `"@ + name + "` is declared in this project."@
}

/// The calls of `references` to functions nobody declares, skipping
/// constructors.
pub open spec fn unknown_calls(refs: Seq<Reference>, text: Seq<char>, declared: Set<Seq<char>>) -> Seq<DiagnosticView>
    decreases refs.len(),
{
    if refs.len() == 0 {
        Seq::empty()
    } else {
        let r = refs.last();
        let rest = unknown_calls(refs.drop_last(), text, declared);
        if r.kind is Function && !after_new(nth_line(text, r.range.start.line as int), r)
            && !declared.contains(r.name@) {
            rest.push(finding(r.range, Severity::Error, unknown_message(r.name@), "unknown-function"@))
        } else {
            rest
        }
    }
}

/// Every function call of the document starts on a character boundary of its
/// line.
pub open spec fn calls_split_lines(document: DocumentView) -> bool {
    forall|i: int|
        0 <= i < document.symbols.references@.len() && (#[trigger] document.symbols.references@[i]).kind is Function
            ==> splits_line(
            nth_line(document.text, document.symbols.references@[i].range.start.line as int),
            document.symbols.references@[i].range.start.character as int,
        )
}

/// What `check_unknown_functions` adds for a document of a workspace.
pub open spec fn unknown_function_findings(document: DocumentView, workspace: Seq<DocumentView>) -> Seq<DiagnosticView> {
    unknown_calls(document.symbols.references@, document.text, declared_names(workspace, document.uri))
}

/// Whether `name` is among `names`.
pub open spec fn listed(names: Seq<Vec<char>>, name: Seq<char>) -> bool {
    exists|k: int| 0 <= k < names.len() && #[trigger] names[k]@ == name
}

fn gather_declared(document: &Document, workspace: &Workspace) -> (names: Vec<Vec<char>>)
    ensures
        forall|name: Seq<char>|
            #[trigger] declared_names(workspace@, document@.uri).contains(name) <==> listed(names@, name),
{
    let uri = chars_of(document.uri());
    let docs = workspace.documents();
    let ghost dv = workspace@;
    let mut names: Vec<Vec<char>> = Vec::new();
    let mut i: usize = 0;
    while i < docs.len()
        invariant
            i <= docs@.len(),
            docs_view(docs@) == dv,
            uri@ == document@.uri,
            forall|name: Seq<char>|
                (exists|a: int, b: int|
                    0 <= a < i && 0 <= b < flatten(dv[a].symbols.symbols@).len() && #[trigger] callable(
                        flatten(dv[a].symbols.symbols@)[b],
                        dv[a].uri,
                        document@.uri,
                    ) && flatten(dv[a].symbols.symbols@)[b].name@ == name) <==> #[trigger] listed(names@, name),
        decreases docs@.len() - i,
    {
        let other = &docs[i];
        let ghost d = other@;
        assert(dv[i as int] == d);
        let theirs = chars_of(other.uri());
        let same_file = chars_eq(&theirs, &uri);
        let all = other.symbols().flat();
        let ghost fl = flatten(d.symbols.symbols@);
        let mut j: usize = 0;
        while j < all.len()
            invariant
                j <= all@.len(),
                i < dv.len(),
                dv[i as int] == d,
                derefs(all@) == fl,
                fl == flatten(d.symbols.symbols@),
                same_file == (d.uri == document@.uri),
                forall|name: Seq<char>|
                    ((exists|a: int, b: int|
                        0 <= a < i && 0 <= b < flatten(dv[a].symbols.symbols@).len() && #[trigger] callable(
                            flatten(dv[a].symbols.symbols@)[b],
                            dv[a].uri,
                            document@.uri,
                        ) && flatten(dv[a].symbols.symbols@)[b].name@ == name) || (exists|b: int|
                        0 <= b < j && #[trigger] callable(fl[b], d.uri, document@.uri) && fl[b].name@
                            == name)) <==> #[trigger] listed(names@, name),
            decreases all@.len() - j,
        {
            let s: &Symbol = all[j];
            assert(fl[j as int] == *s);
            let ghost prev = names@;
            if s.kind.is_function() && !(s.kind == SymbolKind::LocalFunction && !same_file) {
                names.push(chars_of(s.name.as_str()));
                assert(callable(fl[j as int], d.uri, document@.uri));
                assert forall|name: Seq<char>| #[trigger] listed(names@, name) <==> (listed(prev, name) || s.name@ == name) by {
                    if s.name@ == name {
                        assert(names@[prev.len() as int]@ == name);
                    }
                    if listed(prev, name) {
                        let k = choose|k: int| 0 <= k < prev.len() && #[trigger] prev[k]@ == name;
                        assert(names@[k] == prev[k]);
                    }
                    if listed(names@, name) {
                        let k = choose|k: int| 0 <= k < names@.len() && #[trigger] names@[k]@ == name;
                        if k < prev.len() {
                            assert(names@[k] == prev[k]);
                        }
                    }
                }
            }
            j += 1;
        }
        i += 1;
    }
    names
}

fn declares(names: &Vec<Vec<char>>, name: &Vec<char>) -> (b: bool)
    ensures
        b == listed(names@, name@),
{
    let mut k: usize = 0;
    while k < names.len()
        invariant
            k <= names@.len(),
            forall|j: int| 0 <= j < k ==> #[trigger] names@[j]@ != name@,
        decreases names@.len() - k,
    {
        if chars_eq(&names[k], name) {
            return true;
        }
        k += 1;
    }
    false
}

/// Reports every call to a function that no script of the project declares,
/// skipping skript-reflect constructors.
pub fn check_unknown_functions(document: &Document, workspace: &Workspace, out: &mut Vec<Diagnostic>)
    requires
        calls_split_lines(document@),
    ensures
        diagnostics_view(final(out)@) == diagnostics_view(old(out)@) + unknown_function_findings(document@, workspace@),
{
    let declared = gather_declared(document, workspace);
    let ghost names = declared_names(workspace@, document@.uri);
    let refs = &document.symbols().references;
    let ghost rs = document@.symbols.references@;
    let ghost start = diagnostics_view(out@);
    let mut i: usize = 0;
    while i < refs.len()
        invariant
            i <= refs@.len(),
            refs@ == rs,
            rs == document@.symbols.references@,
            names == declared_names(workspace@, document@.uri),
            calls_split_lines(document@),
            forall|name: Seq<char>| #[trigger] names.contains(name) <==> listed(declared@, name),
            diagnostics_view(out@) == start + unknown_calls(rs.take(i as int), document@.text, names),
        decreases refs@.len() - i,
    {
        let r = &refs[i];
        assert(rs.take(i + 1).drop_last() =~= rs.take(i as int));
        assert(rs.take(i + 1).last() == *r);
        if r.kind == SymbolKind::Function {
            let line = document.line(r.range.start.line);
            assert(document@.symbols.references@[i as int] == *r);
            if !preceded_by_new(line.as_str(), r) {
                let name = chars_of(r.name.as_str());
                if !declares(&declared, &name) {
                    let mut message = chars_of("No function named `");
                    append_chars(&mut message, &name);
                    append_str(&mut message, "` is declared in this project.");
                    push_finding(out, r.range, Severity::Error, message, "unknown-function");
                }
            }
        }
        i += 1;
    }
    assert(rs.take(rs.len() as int) =~= rs);
}

// ------------------------------------------------------------ all checks

/// Diagnostics come in document order: by start line, then start column.
pub open spec fn starts_no_later(a: Range, b: Range) -> bool {
    a.start.line < b.start.line || (a.start.line == b.start.line && a.start.character <= b.start.character)
}

pub open spec fn in_document_order(v: Seq<DiagnosticView>) -> bool {
    forall|i: int, j: int| 0 <= i < j < v.len() ==> starts_no_later(#[trigger] v[i].range, #[trigger] v[j].range)
}

/// Everything the checks that need no catalog find in a document.
pub open spec fn document_findings(document: DocumentView, workspace: Seq<DocumentView>, options: Options) -> Seq<DiagnosticView> {
    indentation_findings(document.text) + block_comment_findings(document.text) + duplicate_findings(
        &document.symbols,
    ) + if options.project_indexed {
        unknown_function_findings(document, workspace)
    } else {
        Seq::empty()
    }
}

fn starts_before_or_at(a: &Range, b: &Range) -> (r: bool)
    ensures
        r == starts_no_later(*a, *b),
{
    a.start.line < b.start.line || (a.start.line == b.start.line && a.start.character <= b.start.character)
}

/// `out` is `src` put in document order by a stable sort: `perm` says where
/// each came from, and of two that start at the same place the earlier comes
/// first.
pub open spec fn stably_ordered(src: Seq<DiagnosticView>, out: Seq<DiagnosticView>, perm: Seq<int>) -> bool {
    &&& is_permutation(perm, src.len() as int)
    &&& out.len() == src.len()
    &&& forall|i: int| 0 <= i < out.len() ==> out[i] == src[#[trigger] perm[i]]
    &&& in_document_order(out)
    &&& forall|i: int, j: int|
        0 <= i < j < out.len() && (#[trigger] out[i]).range.start == (#[trigger] out[j]).range.start ==> perm[i] < perm[j]
}

/// Puts diagnostics in document order, keeping the order of those that
/// start at the same place.
pub fn sort_by_start(v: Vec<Diagnostic>) -> (out: Vec<Diagnostic>)
    ensures
        exists|perm: Seq<int>| stably_ordered(diagnostics_view(v@), diagnostics_view(out@), perm),
{
    let ghost src = diagnostics_view(v@);
    let n = v.len();
    let mut rest = v;
    let mut out: Vec<Diagnostic> = Vec::new();
    let ghost mut perm: Seq<int> = Seq::empty();
    // `rest` is what is left of the front of `v`; `out` holds the rest,
    // sorted, each element's origin in `perm`.
    while rest.len() > 0
        invariant
            n == src.len(),
            diagnostics_view(rest@) == src.take(rest@.len() as int),
            rest@.len() + out@.len() == n,
            perm.len() == out@.len(),
            forall|i: int| 0 <= i < perm.len() ==> rest@.len() <= #[trigger] perm[i] < n,
            forall|i: int, j: int| 0 <= i < j < perm.len() ==> perm[i] != perm[j],
            forall|i: int| 0 <= i < out@.len() ==> diagnostics_view(out@)[i] == src[#[trigger] perm[i]],
            in_document_order(diagnostics_view(out@)),
            forall|i: int, j: int|
                0 <= i < j < out@.len() && (#[trigger] diagnostics_view(out@)[i]).range.start == (
                #[trigger] diagnostics_view(out@)[j]).range.start ==> perm[i] < perm[j],
        decreases rest@.len(),
    {
        let ghost r = rest@.len() as int;
        let ghost before = diagnostics_view(out@);
        let ghost old_perm = perm;
        let d = rest.pop().unwrap();
        proof {
            assert(diagnostics_view(rest@) =~= src.take(r - 1));
            assert(src.take(r)[r - 1] == d@);
        }
        let mut p: usize = 0;
        while p < out.len() && !starts_before_or_at(&d.range, &out[p].range)
            invariant
                p <= out@.len(),
                diagnostics_view(out@) == before,
                forall|k: int| 0 <= k < p ==> !starts_no_later(d.range, #[trigger] out@[k].range),
            decreases out@.len() - p,
        {
            p += 1;
        }
        out.insert(p, d);
        proof {
            let now = diagnostics_view(out@);
            assert(now =~= before.insert(p as int, d@));
            perm = old_perm.insert(p as int, r - 1);
            assert forall|k: int| 0 <= k < p implies !starts_no_later(d.range, #[trigger] before[k].range) by {
                assert(before[k] == out@[k]@);
            }
            assert forall|i: int| 0 <= i < perm.len() implies rest@.len() <= #[trigger] perm[i] < n by {
                if i < p {
                    assert(perm[i] == old_perm[i]);
                } else if i > p {
                    assert(perm[i] == old_perm[i - 1]);
                }
            }
            assert forall|i: int, j: int| 0 <= i < j < perm.len() implies perm[i] != perm[j] by {
                if i < p && j < p {
                } else if i < p && j == p {
                    assert(perm[i] == old_perm[i]);
                } else if i < p {
                    assert(perm[i] == old_perm[i] && perm[j] == old_perm[j - 1]);
                } else if i == p {
                    assert(perm[j] == old_perm[j - 1]);
                } else {
                    assert(perm[i] == old_perm[i - 1] && perm[j] == old_perm[j - 1]);
                }
            }
            assert forall|i: int| 0 <= i < out@.len() implies now[i] == src[#[trigger] perm[i]] by {
                if i < p {
                    assert(now[i] == before[i] && perm[i] == old_perm[i]);
                } else if i > p {
                    assert(now[i] == before[i - 1] && perm[i] == old_perm[i - 1]);
                } else {
                    assert(now[i] == d@);
                }
            }
            assert forall|i: int, j: int| 0 <= i < j < now.len() implies starts_no_later(#[trigger] now[i].range, #[trigger] now[j].range) by {
                if j < p {
                    assert(now[i] == before[i] && now[j] == before[j]);
                } else if j == p {
                    assert(now[i] == before[i]);
                } else if i == p {
                    assert(now[j] == before[j - 1]);
                    assert(starts_no_later(d.range, before[p as int].range));
                    if j - 1 > p {
                        assert(starts_no_later(before[p as int].range, before[j - 1].range));
                    }
                } else if i < p {
                    assert(now[i] == before[i] && now[j] == before[j - 1]);
                } else {
                    assert(now[i] == before[i - 1] && now[j] == before[j - 1]);
                }
            }
            assert forall|i: int, j: int|
                0 <= i < j < now.len() && (#[trigger] now[i]).range.start == (#[trigger] now[j]).range.start implies perm[i]
                < perm[j] by {
                if j < p {
                    assert(now[i] == before[i] && now[j] == before[j]);
                    assert(perm[i] == old_perm[i] && perm[j] == old_perm[j]);
                } else if j == p {
                    // Everything before the new one starts strictly earlier.
                    assert(now[i] == before[i]);
                    assert(!starts_no_later(d.range, before[i].range));
                } else if i == p {
                    assert(perm[j] == old_perm[j - 1]);
                } else if i < p {
                    assert(now[i] == before[i] && now[j] == before[j - 1]);
                    assert(perm[i] == old_perm[i] && perm[j] == old_perm[j - 1]);
                } else {
                    assert(now[i] == before[i - 1] && now[j] == before[j - 1]);
                    assert(perm[i] == old_perm[i - 1] && perm[j] == old_perm[j - 1]);
                }
            }
        }
    }
    proof {
        assert(stably_ordered(src, diagnostics_view(out@), perm));
    }
    out
}

/// Produces the diagnostics for one document of the workspace that need no
/// syntax catalog, in document order. Calls to undeclared functions are
/// reported only once the whole project has been indexed.
pub fn check(document: &Document, workspace: &Workspace, options: Options) -> (out: Vec<Diagnostic>)
    requires
        byte_len(document@.text) <= usize::MAX,
        calls_split_lines(document@),
    ensures
        exists|perm: Seq<int>|
            stably_ordered(document_findings(document@, workspace@, options), diagnostics_view(out@), perm),
{
    let mut found: Vec<Diagnostic> = Vec::new();
    assert(diagnostics_view(found@) =~= Seq::<DiagnosticView>::empty());
    check_indentation(document.text(), &mut found);
    check_block_comments(document.text(), &mut found);
    check_duplicate_declarations(document.symbols(), &mut found);
    if options.project_indexed {
        check_unknown_functions(document, workspace, &mut found);
    }
    assert(diagnostics_view(found@) =~= document_findings(document@, workspace@, options));
    sort_by_start(found)
}

} // verus!
