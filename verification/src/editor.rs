//! The decisions behind the editor features: which symbol kinds may be
//! renamed, which function a misspelt call probably meant, where the fragment
//! under the cursor starts, which categories completion offers, where a
//! call's arguments begin, and how a call-hierarchy node reads.
use vstd::prelude::*;

use crate::catalog::Category;
use crate::completion::{argument_offsets, argument_starts, nth_of_lines};
use crate::index::{all_definitions, docs_view, found_symbols, kinds_agree, Document, DocumentView, Workspace};
use crate::strings::{byte_len, chars_of, chars_eq, char_len_utf8, lead, lead_index, lower_chars, lower_seq, starts_with, string_of, has_prefix_at, trim, trim_bounds, trim_end, trail_index, slice};
use crate::hierarchy::{lemma_declaration_found, lemma_reference_found, touching_declaration, touching_reference};
use crate::symbols::{deref_option, derefs, flatten, FileSymbols, Reference, Symbol, SymbolKind};
use crate::text::{pos_le, range_touches, Position, Range};

verus! {

// ------------------------------------------------------------ symbols

/// Whether symbols of this kind can be renamed.
pub open spec fn can_rename(kind: SymbolKind) -> bool {
    kind is Function || kind is LocalFunction || kind is Command || kind is Option
        || kind is GlobalVariable || kind is LocalVariable
}

pub fn renameable(kind: SymbolKind) -> (b: bool)
    ensures
        b == can_rename(kind),
{
    matches!(
        kind,
        SymbolKind::Function | SymbolKind::LocalFunction | SymbolKind::Command | SymbolKind::Option
            | SymbolKind::GlobalVariable | SymbolKind::LocalVariable
    )
}

/// Whether a symbol found under `found` answers a query for `wanted`.
pub fn kinds_alike(wanted: SymbolKind, found: SymbolKind) -> (b: bool)
    ensures
        b == kinds_agree(wanted, found),
{
    if wanted.is_function() && found.is_function() {
        return true;
    }
    if wanted.is_variable() && found.is_variable() {
        return wanted == found;
    }
    wanted == found
}

/// Whether `outer` covers `inner`.
pub open spec fn covers(outer: Range, inner: Range) -> bool {
    pos_le(outer.start, inner.start) && pos_le(inner.end, outer.end)
}

pub fn encloses(outer: Range, inner: Range) -> (b: bool)
    ensures
        b == covers(outer, inner),
{
    outer.start.at_or_before(&inner.start) && inner.end.at_or_before(&outer.end)
}

/// The index of the first top-level symbol covering `range`, at or after `i`.
pub open spec fn first_enclosing(symbols: Seq<Symbol>, range: Range, i: int) -> Option<int>
    decreases symbols.len() - i,
{
    if i < 0 || i >= symbols.len() {
        None
    } else if covers(symbols[i].range, range) {
        Some(i)
    } else {
        first_enclosing(symbols, range, i + 1)
    }
}

/// The top-level structure containing `range`: nesting is control flow, not
/// a caller, so only the outermost level is considered.
pub fn enclosing(symbols: &FileSymbols, range: Range) -> (r: Option<&Symbol>)
    ensures
        match first_enclosing(symbols.symbols@, range, 0) {
            Some(i) => r == Some(&symbols.symbols@[i]),
            None => r is None,
        },
{
    let mut i: usize = 0;
    while i < symbols.symbols.len()
        invariant
            i <= symbols.symbols@.len(),
            first_enclosing(symbols.symbols@, range, 0) == first_enclosing(symbols.symbols@, range, i as int),
        decreases symbols.symbols@.len() - i,
    {
        if encloses(symbols.symbols[i].range, range) {
            return Some(&symbols.symbols[i]);
        }
        i += 1;
    }
    None
}

/// How a node of the call hierarchy reads: a local function says so; any
/// other symbol shows its detail, when it has one.
pub open spec fn detail_text(symbol: Symbol) -> Option<Seq<char>> {
    if symbol.kind is LocalFunction {
        Some(trim_end("local \u{b7} "@ + symbol.detail@))
    } else if symbol.detail@.len() > 0 {
        Some(symbol.detail@)
    } else {
        None
    }
}

pub fn detail(symbol: &Symbol) -> (d: Option<String>)
    ensures
        match detail_text(*symbol) {
            Some(t) => d matches Some(s) && s@ == t,
            None => d is None,
        },
{
    if symbol.kind == SymbolKind::LocalFunction {
        let mut text = chars_of("local \u{b7} ");
        crate::source::append_str(&mut text, symbol.detail.as_str());
        let e = trail_index(&text, 0, text.len());
        assert(text@.subrange(0, text@.len() as int) == text@);
        let kept = slice(&text, 0, e);
        Some(string_of(&kept))
    } else if symbol.detail.as_str().is_empty() {
        None
    } else {
        Some(symbol.detail.clone())
    }
}

/// Whether `line` is where a command entry belongs: inside a command, below
/// its header, and not inside one of its sections.
pub open spec fn entry_position(symbols: Seq<Symbol>, line: u32) -> bool
    decreases symbols.len(),
{
    if symbols.len() == 0 {
        false
    } else {
        let s = symbols[0];
        if !(s.kind is Command) || line <= s.range.start.line || line > s.range.end.line {
            entry_position(symbols.skip(1), line)
        } else {
            !exists|k: int|
                0 <= k < s.children@.len() && line > (#[trigger] s.children@[k]).range.start.line
                    && line <= s.children@[k].range.end.line
        }
    }
}

pub fn in_command_entry_position(symbols: &FileSymbols, line: u32) -> (b: bool)
    ensures
        b == entry_position(symbols.symbols@, line),
{
    let all = &symbols.symbols;
    let ghost answer = entry_position(all@, line);
    let mut i: usize = 0;
    assert(all@.skip(0) =~= all@);
    while i < all.len()
        invariant
            i <= all@.len(),
            answer == entry_position(all@, line),
            answer == entry_position(symbols.symbols@, line),
            answer == entry_position(all@.skip(i as int), line),
        decreases all@.len() - i,
    {
        let s = &all[i];
        assert(all@.skip(i as int)[0] == *s);
        assert(all@.skip(i as int).skip(1) =~= all@.skip(i + 1));
        if s.kind != SymbolKind::Command || line <= s.range.start.line || line > s.range.end.line {
            i += 1;
            continue;
        }
        assert(answer == !exists|x: int|
            0 <= x < s.children@.len() && line > (#[trigger] s.children@[x]).range.start.line
                && line <= s.children@[x].range.end.line);
        let mut k: usize = 0;
        while k < s.children.len()
            invariant
                k <= s.children@.len(),
                answer == entry_position(symbols.symbols@, line),
                answer == !exists|x: int|
                    0 <= x < s.children@.len() && line > (#[trigger] s.children@[x]).range.start.line
                        && line <= s.children@[x].range.end.line,
                forall|j: int|
                    0 <= j < k ==> !(line > (#[trigger] s.children@[j]).range.start.line
                        && line <= s.children@[j].range.end.line),
            decreases s.children@.len() - k,
        {
            if line > s.children[k].range.start.line && line <= s.children[k].range.end.line {
                assert(line > s.children@[k as int].range.start.line);
                return false;
            }
            k += 1;
        }
        return true;
    }
    assert(all@.skip(i as int) =~= Seq::<Symbol>::empty());
    false
}

// ------------------------------------------------------------ edit distance

pub open spec fn min3(a: int, b: int, c: int) -> int {
    if a <= b && a <= c {
        a
    } else if b <= c {
        b
    } else {
        c
    }
}

/// The Levenshtein distance: the fewest single-character insertions,
/// deletions and substitutions that turn `a` into `b`.
pub open spec fn levenshtein(a: Seq<char>, b: Seq<char>) -> nat
    decreases a.len() + b.len(),
{
    if a.len() == 0 {
        b.len()
    } else if b.len() == 0 {
        a.len()
    } else {
        min3(
            levenshtein(a.drop_last(), b) + 1int,
            levenshtein(a, b.drop_last()) + 1int,
            levenshtein(a.drop_last(), b.drop_last()) + if a.last() == b.last() {
                0int
            } else {
                1int
            },
        ) as nat
    }
}

/// The distance between two texts is never more than the longer length.
pub proof fn lemma_levenshtein_bound(a: Seq<char>, b: Seq<char>)
    ensures
        levenshtein(a, b) <= if a.len() >= b.len() {
            a.len()
        } else {
            b.len()
        },
    decreases a.len() + b.len(),
{
    if a.len() > 0 && b.len() > 0 {
        lemma_levenshtein_bound(a.drop_last(), b.drop_last());
    }
}

/// The distance from a text to itself is zero, and the distance to the empty
/// text is the length.
pub proof fn lemma_levenshtein_identity(a: Seq<char>)
    ensures
        levenshtein(a, a) == 0,
        levenshtein(a, Seq::empty()) == a.len(),
        levenshtein(Seq::empty(), a) == a.len(),
    decreases a.len(),
{
    if a.len() > 0 {
        lemma_levenshtein_identity(a.drop_last());
    }
}

fn sat_add(x: usize, y: usize) -> (z: usize)
    ensures
        z == if x + y > usize::MAX {
            usize::MAX as int
        } else {
            x + y
        },
{
    x.saturating_add(y)
}

/// The usual edit distance.
pub fn edit_distance(a: &str, b: &str) -> (d: usize)
    ensures
        d == levenshtein(a@, b@),
{
    let a = chars_of(a);
    let b = chars_of(b);
    let m = b.len();
    let n = a.len();
    let mut previous: Vec<usize> = Vec::new();
    proof {
        lemma_levenshtein_identity(b@.take(0));
    }
    previous.push(0);
    let mut j: usize = 0;
    while j < m
        invariant
            m == b@.len(),
            j <= m,
            previous@.len() == j + 1,
            forall|k: int| 0 <= k <= j ==> #[trigger] previous@[k] == levenshtein(Seq::<char>::empty(), b@.take(k)),
        decreases m - j,
    {
        j += 1;
        proof {
            lemma_levenshtein_identity(b@.take(j as int));
        }
        previous.push(j);
    }
    assert(a@.take(0) =~= Seq::<char>::empty());
    let mut i: usize = 0;
    while i < a.len()
        invariant
            i <= a@.len(),
            n == a@.len(),
            m == b@.len(),
            previous@.len() == m + 1,
            forall|k: int| 0 <= k <= m ==> #[trigger] previous@[k] == levenshtein(a@.take(i as int), b@.take(k)),
        decreases a@.len() - i,
    {
        let left = a[i];
        let mut current: Vec<usize> = Vec::new();
        proof {
            lemma_levenshtein_identity(a@.take(i + 1));
            assert(b@.take(0) =~= Seq::<char>::empty());
        }
        current.push(i + 1);
        let mut k: usize = 0;
        while k < m
            invariant
                i < a@.len(),
                n == a@.len(),
                m == b@.len(),
                k <= m,
                left == a@[i as int],
                previous@.len() == m + 1,
                current@.len() == k + 1,
                forall|x: int| 0 <= x <= m ==> #[trigger] previous@[x] == levenshtein(a@.take(i as int), b@.take(x)),
                forall|x: int| 0 <= x <= k ==> #[trigger] current@[x] == levenshtein(a@.take(i + 1), b@.take(x)),
            decreases m - k,
        {
            let right = b[k];
            let diff: usize = if left != right {
                1
            } else {
                0
            };
            let substitution = sat_add(previous[k], diff);
            let deletion = sat_add(previous[k + 1], 1);
            let insertion = sat_add(current[k], 1);
            let mut best = substitution;
            if deletion < best {
                best = deletion;
            }
            if insertion < best {
                best = insertion;
            }
            proof {
                let x = a@.take(i + 1);
                let y = b@.take(k + 1);
                assert(x.drop_last() =~= a@.take(i as int));
                assert(y.drop_last() =~= b@.take(k as int));
                assert(x.last() == left && y.last() == right);
                lemma_levenshtein_bound(x, y);
                let del: int = levenshtein(x.drop_last(), y) + 1int;
                let ins: int = levenshtein(x, y.drop_last()) + 1int;
                let sub: int = levenshtein(x.drop_last(), y.drop_last()) + if left == right {
                    0int
                } else {
                    1int
                };
                assert(previous@[k + 1] == levenshtein(a@.take(i as int), b@.take(k + 1)));
                assert(previous@[k as int] == levenshtein(a@.take(i as int), b@.take(k as int)));
                assert(current@[k as int] == levenshtein(a@.take(i + 1), b@.take(k as int)));
                assert(levenshtein(x, y) == min3(del, ins, sub));
                assert(best == levenshtein(x, y));
            }
            current.push(best);
            k += 1;
        }
        previous = current;
        i += 1;
    }
    assert(a@.take(a@.len() as int) =~= a@);
    assert(b@.take(m as int) =~= b@);
    previous[m]
}

/// The closest function name within `limit` edits of `name`, scanning in
/// order and keeping the first of the smallest distance.
pub struct Suggestion {
    pub best: Option<(nat, Seq<char>)>,
}

pub open spec fn suggest_step(best: Option<(nat, Seq<char>)>, candidate: Symbol, name: Seq<char>, limit: nat) -> Option<(nat, Seq<char>)> {
    if !(candidate.kind is Function || candidate.kind is LocalFunction) || candidate.name@ == name {
        best
    } else {
        let d = levenshtein(name, candidate.name@);
        let closer = match best {
            Some(current) => d < current.0,
            None => true,
        };
        if d <= limit && closer {
            Some((d, candidate.name@))
        } else {
            best
        }
    }
}

pub open spec fn suggest_over(symbols: Seq<Symbol>, best: Option<(nat, Seq<char>)>, name: Seq<char>, limit: nat) -> Option<(nat, Seq<char>)>
    decreases symbols.len(),
{
    if symbols.len() == 0 {
        best
    } else {
        suggest_step(suggest_over(symbols.drop_last(), best, name, limit), symbols.last(), name, limit)
    }
}

pub open spec fn suggest_in(docs: Seq<DocumentView>, name: Seq<char>, limit: nat) -> Option<(nat, Seq<char>)>
    decreases docs.len(),
{
    if docs.len() == 0 {
        None
    } else {
        suggest_over(flatten(docs.last().symbols.symbols@), suggest_in(docs.drop_last(), name, limit), name, limit)
    }
}

/// How many edits a name of `bytes` bytes may be from a suggestion: a third
/// of its length, at least one and at most three.
pub open spec fn typo_limit(bytes: nat) -> nat {
    let third = bytes / 3;
    if third < 1 {
        1
    } else if third > 3 {
        3
    } else {
        third
    }
}

/// The function a misspelt call most probably meant: the first declared
/// function, other than `name` itself, at the smallest edit distance within
/// the typo limit.
pub open spec fn suggestion_for(docs: Seq<DocumentView>, name: Seq<char>, bytes: nat) -> Option<Seq<char>> {
    match suggest_in(docs, name, typo_limit(bytes)) {
        Some(found) => Some(found.1),
        None => None,
    }
}

/// The typo limit of a name, from its bytes, counted only as far as matters.
fn limit_for(name: &Vec<char>) -> (limit: usize)
    ensures
        limit == typo_limit(byte_len(name@)),
{
    let mut bytes: usize = 0;
    let mut i: usize = 0;
    while i < name.len() && bytes < 12
        invariant
            i <= name@.len(),
            bytes == byte_len(name@.take(i as int)),
            bytes < 16,
        decreases name@.len() - i,
    {
        assert(name@.take(i + 1).drop_last() =~= name@.take(i as int));
        bytes = bytes + char_len_utf8(name[i]);
        i += 1;
    }
    proof {
        assert(name@.take(name@.len() as int) =~= name@);
        crate::strings::lemma_byte_len_prefix(name@, i as int);
    }
    let third = bytes / 3;
    if third < 1 {
        1
    } else if third > 3 {
        3
    } else {
        third
    }
}

/// Suggests the declared function closest to `name`.
pub fn closest_function(workspace: &Workspace, name: &str) -> (r: Option<String>)
    ensures
        match suggestion_for(workspace@, name@, byte_len(name@)) {
            Some(s) => r matches Some(t) && t@ == s,
            None => r is None,
        },
{
    let wanted = chars_of(name);
    let limit = limit_for(&wanted);
    let docs = workspace.documents();
    let ghost dv = workspace@;
    let mut best: Option<(usize, String)> = None;
    let mut i: usize = 0;
    while i < docs.len()
        invariant
            i <= docs@.len(),
            docs_view(docs@) == dv,
            dv == workspace@,
            wanted@ == name@,
            limit == typo_limit(byte_len(name@)),
            match suggest_in(dv.take(i as int), name@, limit as nat) {
                Some(found) => best matches Some(b) && b.0 == found.0 && b.1@ == found.1,
                None => best is None,
            },
        decreases docs@.len() - i,
    {
        let all = docs[i].symbols().flat();
        let ghost d = dv[i as int];
        assert(d == docs@[i as int]@);
        let ghost fl = flatten(d.symbols.symbols@);
        let ghost start = suggest_in(dv.take(i as int), name@, limit as nat);
        assert(dv.take(i + 1).drop_last() =~= dv.take(i as int));
        assert(dv.take(i + 1).last() == d);
        let mut j: usize = 0;
        while j < all.len()
            invariant
                j <= all@.len(),
                derefs(all@) == fl,
                fl == flatten(d.symbols.symbols@),
                wanted@ == name@,
                match suggest_over(fl.take(j as int), start, name@, limit as nat) {
                    Some(found) => best matches Some(b) && b.0 == found.0 && b.1@ == found.1,
                    None => best is None,
                },
            decreases all@.len() - j,
        {
            let s: &Symbol = all[j];
            assert(fl[j as int] == *s);
            assert(fl.take(j + 1).drop_last() =~= fl.take(j as int));
            assert(fl.take(j + 1).last() == *s);
            let theirs = chars_of(s.name.as_str());
            if s.kind.is_function() && !chars_eq(&theirs, &wanted) {
                let distance = edit_distance(name, s.name.as_str());
                let better = match &best {
                    None => true,
                    Some((closest, _)) => distance < *closest,
                };
                if distance <= limit && better {
                    best = Some((distance, s.name.clone()));
                }
            }
            j += 1;
        }
        assert(fl.take(fl.len() as int) =~= fl);
        i += 1;
    }
    assert(dv.take(dv.len() as int) =~= dv);
    match best {
        Some((_, found)) => Some(found),
        None => None,
    }
}

// ------------------------------------------------------------ completion

/// The categories completion offers after `prefix`, the text before the
/// cursor on its line.
pub open spec fn completion_categories(prefix: Seq<char>) -> Seq<Category> {
    let lower = lower_seq(prefix.skip(lead(prefix) as int));
    if trim(prefix).len() == 0 && !(prefix.len() > 0 && (prefix[0] == ' ' || prefix[0] == '\t')) {
        seq![Category::Structure, Category::Event]
    } else if starts_with(lower, "on "@) || lower == "on"@ {
        seq![Category::Event]
    } else if starts_with(lower, "if "@) || starts_with(lower, "else if "@) || starts_with(lower, "while "@)
        || starts_with(lower, "do while "@) {
        seq![Category::Condition, Category::Expression]
    } else if percent_count(lower) % 2 == 1 {
        seq![Category::Expression]
    } else {
        seq![Category::Effect, Category::Section, Category::Condition, Category::Expression]
    }
}

pub open spec fn percent_count(s: Seq<char>) -> nat
    decreases s.len(),
{
    if s.len() == 0 {
        0
    } else {
        percent_count(s.drop_last()) + if s.last() == '%' {
            1nat
        } else {
            0nat
        }
    }
}

fn count_percents(s: &Vec<char>) -> (n: usize)
    ensures
        n == percent_count(s@),
{
    let mut n: usize = 0;
    let mut i: usize = 0;
    while i < s.len()
        invariant
            i <= s@.len(),
            n <= i,
            n == percent_count(s@.take(i as int)),
        decreases s@.len() - i,
    {
        assert(s@.take(i + 1).drop_last() =~= s@.take(i as int));
        if s[i] == '%' {
            n += 1;
        }
        i += 1;
    }
    assert(s@.take(s@.len() as int) =~= s@);
    n
}

/// The categories that can appear where the cursor is: at the top level a
/// structure or event, after `on` an event, after `if` a condition, inside a
/// `%...%` slot an expression, and otherwise a statement.
pub fn categories_for(prefix: &str) -> (out: Vec<Category>)
    ensures
        out@ == completion_categories(prefix@),
{
    let chars = chars_of(prefix);
    let k = lead_index(&chars, 0, chars.len());
    assert(chars@.subrange(0, chars@.len() as int) == chars@);
    let rest = slice(&chars, k, chars.len());
    let lower = lower_chars(&rest);
    let (a, b) = trim_bounds(&chars, 0, chars.len());
    let out = if a == b && !(chars.len() > 0 && (chars[0] == ' ' || chars[0] == '\t')) {
        vec![Category::Structure, Category::Event]
    } else if has_prefix_at(&lower, 0, &chars_of("on ")) || chars_eq(&lower, &chars_of("on")) {
        vec![Category::Event]
    } else if has_prefix_at(&lower, 0, &chars_of("if ")) || has_prefix_at(&lower, 0, &chars_of("else if "))
        || has_prefix_at(&lower, 0, &chars_of("while ")) || has_prefix_at(&lower, 0, &chars_of("do while ")) {
        vec![Category::Condition, Category::Expression]
    } else if count_percents(&lower) % 2 == 1 {
        vec![Category::Expression]
    } else {
        vec![Category::Effect, Category::Section, Category::Condition, Category::Expression]
    };
    assert(lower@.skip(0) == lower@);
    assert(out@ =~= completion_categories(prefix@));
    out
}

/// A character that opens a nested context in a line being typed.
pub open spec fn opens_context(c: char) -> bool {
    c == '%' || c == '(' || c == ',' || c == '{'
}

/// The index of the last character of `s` below `i` that opens a context.
pub open spec fn last_opening(s: Seq<char>, i: int) -> Option<int>
    decreases i,
{
    if i <= 0 || i > s.len() {
        None
    } else if opens_context(s[i - 1]) {
        Some(i - 1)
    } else {
        last_opening(s, i - 1)
    }
}

/// Where the fragment being completed starts, in characters: after the last
/// `%`, `(`, `,` or `{` and the whitespace that follows it, or else after the
/// line's indentation.
pub open spec fn fragment_chars(prefix: Seq<char>) -> int {
    match last_opening(prefix, prefix.len() as int) {
        Some(at) => (at + 1) + lead(prefix.skip(at + 1)),
        None => lead(prefix) as int,
    }
}

/// Where the fragment being completed starts, as a character index into
/// `prefix`.
pub fn fragment_index(prefix: &str) -> (k: usize)
    ensures
        0 <= fragment_chars(prefix@) <= prefix@.len(),
        k == fragment_chars(prefix@),
{
    let chars = chars_of(prefix);
    let n = chars.len();
    let mut i: usize = n;
    while i > 0 && !(chars[i - 1] == '%' || chars[i - 1] == '(' || chars[i - 1] == ',' || chars[i - 1] == '{')
        invariant
            i <= n == chars@.len(),
            last_opening(chars@, n as int) == last_opening(chars@, i as int),
        decreases i,
    {
        i -= 1;
    }
    let k = if i > 0 {
        let w = lead_index(&chars, i, n);
        assert(chars@.subrange(i as int, n as int) == chars@.skip(i as int));
        w
    } else {
        let w = lead_index(&chars, 0, n);
        assert(chars@.subrange(0, n as int) == chars@);
        w
    };
    k
}

/// Where the fragment being completed starts, as a byte offset into
/// `prefix`, so a completion replaces the whole multi-word phrase typed so
/// far but never swallows a delimiter.
pub fn fragment_start(prefix: &str) -> (at: usize)
    requires
        byte_len(prefix@) <= usize::MAX,
    ensures
        0 <= fragment_chars(prefix@) <= prefix@.len(),
        at == byte_len(prefix@.take(fragment_chars(prefix@))),
{
    let k = fragment_index(prefix);
    let chars = chars_of(prefix);
    crate::strings::byte_offset(&chars, k)
}


// ------------------------------------------------------------ under the cursor

/// The renameable symbol a position names: the declaration whose name it
/// touches, when that kind can be renamed, else the reference it touches,
/// when that kind can.
pub open spec fn rename_target(f: Seq<Symbol>, refs: Seq<Reference>, p: Position) -> Option<(SymbolKind, Seq<char>)> {
    let declared = match touching_declaration(f, p, 0) {
        Some(i) => if can_rename(f[i].kind) {
            Some((f[i].kind, f[i].name@))
        } else {
            None
        },
        None => None,
    };
    if declared is Some {
        declared
    } else {
        match touching_reference(refs, p, 0) {
            Some(j) => if can_rename(refs[j].kind) {
                Some((refs[j].kind, refs[j].name@))
            } else {
                None
            },
            None => None,
        }
    }
}

/// The renameable symbol under the cursor, for references, highlights and
/// rename.
pub fn symbol_under_cursor(symbols: &FileSymbols, position: Position) -> (r: Option<(SymbolKind, String)>)
    ensures
        match rename_target(flatten(symbols.symbols@), symbols.references@, position) {
            Some((kind, name)) => r matches Some((k, n)) && k == kind && n@ == name,
            None => r is None,
        },
{
    let declared = symbols.declaration_at(position);
    proof {
        lemma_declaration_found(flatten(symbols.symbols@), position, deref_option(declared));
    }
    if let Some(symbol) = declared {
        if renameable(symbol.kind) {
            return Some((symbol.kind, symbol.name.clone()));
        }
    }
    let referenced = symbols.reference_at(position);
    proof {
        lemma_reference_found(symbols.references@, position, deref_option(referenced));
    }
    match referenced {
        Some(reference) => {
            if renameable(reference.kind) {
                Some((reference.kind, reference.name.clone()))
            } else {
                None
            }
        },
        None => None,
    }
}

/// The first reference from `j` on that has exactly `kind` and `name`.
pub open spec fn first_named(refs: Seq<Reference>, kind: SymbolKind, name: Seq<char>, j: int) -> Option<int>
    decreases refs.len() - j,
{
    if j < 0 || j >= refs.len() {
        None
    } else if refs[j].kind == kind && refs[j].name@ == name {
        Some(j)
    } else {
        first_named(refs, kind, name, j + 1)
    }
}

/// The trigger a renameable symbol under the cursor belongs to: a
/// reference's own scope, or, for a declaration, the scope of the first
/// reference of the same kind and name (for a parameter, the enclosing
/// function).
pub open spec fn rename_scope(f: Seq<Symbol>, refs: Seq<Reference>, p: Position) -> Option<Range> {
    match touching_declaration(f, p, 0) {
        Some(i) if can_rename(f[i].kind) => match first_named(refs, f[i].kind, f[i].name@, 0) {
            Some(j) => refs[j].scope,
            None => None,
        },
        _ => match touching_reference(refs, p, 0) {
            Some(j) => refs[j].scope,
            None => None,
        },
    }
}

fn scope_of_named(refs: &Vec<Reference>, kind: SymbolKind, name: &String) -> (r: Option<Range>)
    ensures
        r == match first_named(refs@, kind, name@, 0) {
            Some(j) => refs@[j].scope,
            None => None,
        },
{
    let wanted = chars_of(name.as_str());
    let mut i: usize = 0;
    while i < refs.len()
        invariant
            i <= refs@.len(),
            wanted@ == name@,
            first_named(refs@, kind, name@, 0) == first_named(refs@, kind, name@, i as int),
        decreases refs@.len() - i,
    {
        let here = chars_of(refs[i].name.as_str());
        if refs[i].kind == kind && chars_eq(&here, &wanted) {
            return refs[i].scope;
        }
        i += 1;
    }
    None
}

/// The renameable symbol under the cursor and the trigger a `{_local}` of it
/// belongs to, so that a rename stays inside that trigger.
pub fn scoped_symbol_under_cursor(symbols: &FileSymbols, position: Position) -> (r: Option<(SymbolKind, String, Option<Range>)>)
    ensures
        match rename_target(flatten(symbols.symbols@), symbols.references@, position) {
            Some((kind, name)) => r matches Some((k, n, scope)) && k == kind && n@ == name
                && scope == rename_scope(flatten(symbols.symbols@), symbols.references@, position),
            None => r is None,
        },
{
    let declared = symbols.declaration_at(position);
    proof {
        lemma_declaration_found(flatten(symbols.symbols@), position, deref_option(declared));
    }
    if let Some(symbol) = declared {
        if renameable(symbol.kind) {
            let scope = scope_of_named(&symbols.references, symbol.kind, &symbol.name);
            return Some((symbol.kind, symbol.name.clone(), scope));
        }
    }
    let referenced = symbols.reference_at(position);
    proof {
        lemma_reference_found(symbols.references@, position, deref_option(referenced));
    }
    match referenced {
        Some(reference) => {
            if renameable(reference.kind) {
                Some((reference.kind, reference.name.clone(), reference.scope))
            } else {
                None
            }
        },
        None => None,
    }
}

/// The hover card of a declaration: its name in bold, then its detail as
/// code on a line of its own.
pub open spec fn hover_card(name: Seq<char>, detail: Seq<char>) -> Seq<char> {
    "**"@ + name + "**"@ + if detail.len() == 0 {
        Seq::empty()
    } else {
        "  \n`"@ + detail + "`"@
    }
}

pub fn declaration_hover(symbol: &Symbol) -> (card: String)
    ensures
        card@ == hover_card(symbol.name@, symbol.detail@),
{
    let mut text = chars_of("**");
    crate::source::append_str(&mut text, symbol.name.as_str());
    crate::source::append_str(&mut text, "**");
    let detail = chars_of(symbol.detail.as_str());
    if detail.len() > 0 {
        crate::source::append_str(&mut text, "  \n`");
        crate::source::append_chars(&mut text, &detail);
        crate::source::append_str(&mut text, "`");
    }
    proof {
        assert(text@ =~= hover_card(symbol.name@, symbol.detail@));
    }
    string_of(&text)
}

/// The first function call on `line`, the one an unknown-function
/// diagnostic there is about.
pub open spec fn call_on_line(refs: Seq<Reference>, line: u32) -> Option<int> {
    if exists|i: int| 0 <= i < refs.len() && refs[i].kind is Function && refs[i].range.start.line == line {
        Some(
            choose|i: int|
                0 <= i < refs.len() && refs[i].kind is Function && refs[i].range.start.line == line && forall|j: int|
                    0 <= j < i ==> !(refs[j].kind is Function && refs[j].range.start.line == line),
        )
    } else {
        None
    }
}

/// The name of the first function called on `line`.
pub fn function_called_on(symbols: &FileSymbols, line: u32) -> (r: Option<String>)
    ensures
        match call_on_line(symbols.references@, line) {
            Some(i) => r matches Some(name) && name@ == symbols.references@[i].name@,
            None => r is None,
        },
{
    let refs = &symbols.references;
    let mut i: usize = 0;
    while i < refs.len()
        invariant
            i <= refs@.len(),
            *refs == symbols.references,
            forall|j: int| 0 <= j < i ==> !(refs@[j].kind is Function && refs@[j].range.start.line == line),
        decreases refs@.len() - i,
    {
        if refs[i].kind == SymbolKind::Function && refs[i].range.start.line == line {
            proof {
                let w = choose|w: int|
                    0 <= w < refs@.len() && refs@[w].kind is Function && refs@[w].range.start.line == line && forall|j: int|
                        0 <= j < w ==> !(refs@[j].kind is Function && refs@[j].range.start.line == line);
                if w < i {
                } else if w > i {
                    assert(!(refs@[i as int].kind is Function && refs@[i as int].range.start.line == line));
                }
            }
            return Some(refs[i].name.clone());
        }
        i += 1;
    }
    None
}

/// The declaration a quick fix appends for a function that does not exist.
pub open spec fn stub_text(name: Seq<char>) -> Seq<char> {
    "\nfunction "@ + name + "():\n\treturn\n"@
}

pub fn function_stub(name: &str) -> (out: String)
    ensures
        out@ == stub_text(name@),
{
    let mut text = chars_of("\nfunction ");
    crate::source::append_str(&mut text, name);
    crate::source::append_str(&mut text, "():\n\treturn\n");
    string_of(&text)
}


// ------------------------------------------------------------ completion and hints

/// The kinds of declaration completion offers by name.
pub open spec fn offered_kind(kind: SymbolKind) -> bool {
    kind is Function || kind is LocalFunction || kind is Command || kind is Option || kind is GlobalVariable
        || kind is LocalVariable
}

/// Whether a symbol of this kind and name is among `kept`.
pub open spec fn already_offered(kept: Seq<Symbol>, s: Symbol) -> bool {
    exists|j: int| 0 <= j < kept.len() && kept[j].kind == s.kind && kept[j].name@ == s.name@
}

/// The declarations among the first `k` found that completion offers: those
/// of an offered kind, each kind and name once (the same global is declared
/// in every file that assigns it).
pub open spec fn offered_upto(found: Seq<(Seq<char>, Symbol)>, k: int) -> Seq<Symbol>
    decreases k,
{
    if 0 < k <= found.len() {
        let prev = offered_upto(found, k - 1);
        let s = found[k - 1].1;
        if offered_kind(s.kind) && !already_offered(prev, s) {
            prev.push(s)
        } else {
            prev
        }
    } else {
        Seq::empty()
    }
}

/// The declarations completion offers, in the order they were found.
pub fn offered_symbols<'a>(found: &Vec<(&'a Document, &'a Symbol)>) -> (out: Vec<&'a Symbol>)
    ensures
        derefs(out@) == offered_upto(found_symbols(found@), found@.len() as int),
{
    let ghost all = found_symbols(found@);
    let mut out: Vec<&'a Symbol> = Vec::new();
    let mut k: usize = 0;
    while k < found.len()
        invariant
            k <= found@.len(),
            all == found_symbols(found@),
            derefs(out@) == offered_upto(all, k as int),
        decreases found@.len() - k,
    {
        let s = found[k].1;
        proof {
            assert(all[k as int].1 == *s);
        }
        let offered = matches!(
            s.kind,
            SymbolKind::Function | SymbolKind::LocalFunction | SymbolKind::Command | SymbolKind::Option
                | SymbolKind::GlobalVariable | SymbolKind::LocalVariable
        );
        if offered {
            let mut seen = false;
            let mut j: usize = 0;
            while j < out.len()
                invariant
                    j <= out@.len(),
                    derefs(out@) == offered_upto(all, k as int),
                    !seen ==> forall|m: int| 0 <= m < j ==> !(out@[m].kind == s.kind && out@[m].name@ == s.name@),
                    seen ==> already_offered(derefs(out@), *s),
                decreases out@.len() - j,
            {
                if out[j].kind == s.kind && out[j].name == s.name {
                    seen = true;
                    proof {
                        assert(derefs(out@)[j as int] == *out@[j as int]);
                    }
                }
                j += 1;
            }
            proof {
                if !seen {
                    assert forall|m: int| 0 <= m < derefs(out@).len() implies !(derefs(out@)[m].kind == s.kind
                        && derefs(out@)[m].name@ == s.name@) by {
                        assert(derefs(out@)[m] == *out@[m]);
                    }
                }
            }
            if !seen {
                let ghost prev = out@;
                out.push(s);
                proof {
                    assert(derefs(out@) =~= derefs(prev).push(*s));
                }
            }
        }
        k += 1;
    }
    out
}

/// A parameter-name hint: where it goes (a byte column) and its label.
pub struct Hint {
    pub position: Position,
    pub label: String,
}

pub open spec fn hint_view(h: Hint) -> (Position, Seq<char>) {
    (h.position, h.label@)
}

pub open spec fn hint_views(v: Seq<Hint>) -> Seq<(Position, Seq<char>)> {
    v.map_values(|h: Hint| hint_view(h))
}

/// The byte columns at which a call's arguments start.
pub open spec fn call_arguments(text: Seq<char>, line: u32, after_name: u32) -> Seq<u32> {
    match nth_of_lines(text, line as int) {
        Some(source) => argument_starts(vstd::utf8::encode_utf8(source), after_name as int).map_values(
            |i: int| i as u32,
        ),
        None => Seq::empty(),
    }
}

/// The hints of one call: each argument labelled with the name of the
/// declaration's parameter in its place, as far as both go.
pub open spec fn call_hints(r: Reference, names: Seq<Seq<char>>, offsets: Seq<u32>) -> Seq<(Position, Seq<char>)> {
    let n = if names.len() < offsets.len() {
        names.len()
    } else {
        offsets.len()
    };
    Seq::new(n, |m: int| (Position { line: r.range.start.line, character: offsets[m] }, names[m] + ":"@))
}

pub open spec fn child_names(s: Symbol) -> Seq<Seq<char>> {
    s.children@.map_values(|c: Symbol| c.name@)
}

/// The hints of the function calls among the first `k` references of `doc`
/// that lie on lines `from..=to`: a call of a declared function gets its
/// parameters' names, read from the first declaration found; other calls get
/// none.
pub open spec fn hints_upto(docs: Seq<DocumentView>, doc: DocumentView, from: u32, to: u32, k: int) -> Seq<
    (Position, Seq<char>),
>
    decreases k,
{
    let refs = doc.symbols.references@;
    if 0 < k <= refs.len() {
        let prev = hints_upto(docs, doc, from, to, k - 1);
        let r = refs[k - 1];
        let line = r.range.start.line;
        if r.kind is Function && from <= line <= to {
            let defs = all_definitions(docs, SymbolKind::Function, r.name@, doc.uri);
            if defs.len() > 0 {
                prev + call_hints(r, child_names(defs[0].1), call_arguments(doc.text, line, r.range.end.character))
            } else {
                prev
            }
        } else {
            prev
        }
    } else {
        Seq::empty()
    }
}

/// Parameter-name hints for the calls on lines `from..=to` of a document.
pub fn parameter_hints(workspace: &Workspace, document: &Document, from: u32, to: u32) -> (out: Vec<Hint>)
    ensures
        hint_views(out@) == hints_upto(
            workspace@,
            document@,
            from,
            to,
            document@.symbols.references@.len() as int,
        ),
{
    let refs = &document.symbols().references;
    let text = document.text();
    let uri = document.uri();
    let mut out: Vec<Hint> = Vec::new();
    let mut k: usize = 0;
    while k < refs.len()
        invariant
            k <= refs@.len(),
            *refs == document@.symbols.references,
            text@ == document@.text,
            uri@ == document@.uri,
            hint_views(out@) == hints_upto(workspace@, document@, from, to, k as int),
        decreases refs@.len() - k,
    {
        let r = &refs[k];
        let line = r.range.start.line;
        if r.kind == SymbolKind::Function && from <= line && line <= to {
            let defs = workspace.definitions(SymbolKind::Function, r.name.as_str(), uri);
            if defs.len() > 0 {
                let declaration = defs[0].1;
                proof {
                    assert(found_symbols(defs@)[0].1 == *declaration);
                }
                let offsets = argument_offsets(text, line, r.range.end.character);
                let params = &declaration.children;
                let count = if params.len() < offsets.len() {
                    params.len()
                } else {
                    offsets.len()
                };
                let ghost prev = hint_views(out@);
                let ghost names = child_names(*declaration);
                let mut m: usize = 0;
                while m < count
                    invariant
                        m <= count,
                        count <= params@.len(),
                        count <= offsets@.len(),
                        *params == declaration.children,
                        names == child_names(*declaration),
                        line == r.range.start.line,
                        hint_views(out@) == prev + Seq::new(
                            m as nat,
                            |q: int| (Position { line: r.range.start.line, character: offsets@[q] }, names[q] + ":"@),
                        ),
                    decreases count - m,
                {
                    let mut label = chars_of(params[m].name.as_str());
                    label.push(':');
                    let hint = Hint { position: Position { line, character: offsets[m] }, label: string_of(&label) };
                    let ghost before = out@;
                    let ghost seen = hint_view(hint);
                    out.push(hint);
                    m += 1;
                    proof {
                        assert(names[m - 1] == params@[m - 1].name@);
                        reveal_strlit(":");
                        assert(":"@ =~= seq![':']);
                        assert(seen.1 =~= names[m - 1] + ":"@);
                        assert(seen.0 == Position { line: r.range.start.line, character: offsets@[m - 1] });
                        assert(seen == (Position { line: r.range.start.line, character: offsets@[m - 1] }, names[m - 1] + ":"@));
                        assert(hint_views(out@) =~= hint_views(before).push(seen));
                        assert(Seq::new(
                            m as nat,
                            |q: int| (Position { line: r.range.start.line, character: offsets@[q] }, names[q] + ":"@),
                        ) =~= Seq::new(
                            (m - 1) as nat,
                            |q: int| (Position { line: r.range.start.line, character: offsets@[q] }, names[q] + ":"@),
                        ).push(seen));
                        assert(hint_views(out@) =~= prev + Seq::new(
                            m as nat,
                            |q: int| (Position { line: r.range.start.line, character: offsets@[q] }, names[q] + ":"@),
                        ));
                    }
                }
                proof {
                    assert(Seq::new(
                        count as nat,
                        |q: int| (Position { line: r.range.start.line, character: offsets@[q] }, names[q] + ":"@),
                    ) =~= call_hints(*r, names, offsets@));
                }
            }
        }
        k += 1;
    }
    out
}

proof fn lemma_no_declaration_touches(f: Seq<Symbol>, p: Position, i: int)
    requires
        0 <= i,
        forall|k: int| 0 <= k < f.len() ==> !range_touches(#[trigger] f[k].selection_range, p),
    ensures
        touching_declaration(f, p, i) is None,
    decreases f.len() - i,
{
    if i < f.len() {
        lemma_no_declaration_touches(f, p, i + 1);
    }
}

proof fn lemma_first_reference_touches(refs: Seq<Reference>, p: Position, i: int, j: int)
    requires
        0 <= i <= j < refs.len(),
        range_touches(refs[j].range, p),
        forall|m: int| 0 <= m < j ==> !range_touches(#[trigger] refs[m].range, p),
    ensures
        touching_reference(refs, p, i) == Some(j),
    decreases j - i,
{
    if i < j {
        lemma_first_reference_touches(refs, p, i + 1, j);
    }
}

/// Where no declaration's name is under the cursor, the cursor names the
/// first reference it touches exactly when that reference is a function, a
/// local function, a command, an option, a global variable or a local
/// variable: every kind of variable can be found, highlighted and renamed,
/// and nothing else can.
pub proof fn lemma_a_reference_under_the_cursor_is_named(f: Seq<Symbol>, refs: Seq<Reference>, p: Position, j: int)
    requires
        0 <= j < refs.len(),
        range_touches(refs[j].range, p),
        forall|m: int| 0 <= m < j ==> !range_touches(#[trigger] refs[m].range, p),
        forall|k: int| 0 <= k < f.len() ==> !range_touches(#[trigger] f[k].selection_range, p),
    ensures
        ({
            let k = refs[j].kind;
            if k is Function || k is LocalFunction || k is Command || k is Option || k is GlobalVariable
                || k is LocalVariable {
                rename_target(f, refs, p) == Some((k, refs[j].name@))
            } else {
                rename_target(f, refs, p) is None
            }
        }),
{
    lemma_no_declaration_touches(f, p, 0);
    lemma_first_reference_touches(refs, p, 0, j);
}

/// A declaration whose name is under the cursor is named when it is a
/// function, a local function, a command, an option or a variable, whatever
/// references also touch the cursor.
pub proof fn lemma_a_declaration_under_the_cursor_is_named(f: Seq<Symbol>, refs: Seq<Reference>, p: Position, i: int)
    requires
        0 <= i < f.len(),
        range_touches(f[i].selection_range, p),
        forall|k: int| 0 <= k < i ==> !range_touches(#[trigger] f[k].selection_range, p),
        ({
            let k = f[i].kind;
            k is Function || k is LocalFunction || k is Command || k is Option || k is GlobalVariable
                || k is LocalVariable
        }),
    ensures
        rename_target(f, refs, p) == Some((f[i].kind, f[i].name@)),
{
    lemma_first_declaration_touches(f, p, 0, i);
}

proof fn lemma_first_declaration_touches(f: Seq<Symbol>, p: Position, i: int, j: int)
    requires
        0 <= i <= j < f.len(),
        range_touches(f[j].selection_range, p),
        forall|m: int| 0 <= m < j ==> !range_touches(#[trigger] f[m].selection_range, p),
    ensures
        touching_declaration(f, p, i) == Some(j),
    decreases j - i,
{
    if i < j {
        lemma_first_declaration_touches(f, p, i + 1, j);
    }
}


} // verus!
