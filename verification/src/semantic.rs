//! Semantic tokens: each executable line is matched against the catalog, and
//! the literal parts of the winning pattern are coloured by the syntax's
//! category. The `%...%` slots are left alone so the expressions inside keep
//! their own colours.
//!
//! Columns are bytes until `encode` converts them to the client's encoding
//! and delta-encodes the tokens.
use vstd::prelude::*;
use vstd::multiset::Multiset;

use crate::catalog::{token_type_name, Category};
use crate::convert::{column_in, Encoding, LineIndex};
use crate::order::is_permutation;
use crate::strings::{
    byte_len, chars_of, chars_eq, char_len_utf8, is_white, is_white_char, slice, text_before,
    trail_index, trim, trim_bounds, trim_end,
};
use crate::symbols::{derefs, flatten, FileSymbols, Reference, Symbol, SymbolKind};
use crate::lookup::{classification, classified_view, lemma_classification_sound, lemma_room_in_piece, role_of, sound_caps, Catalog, CatalogView};
use crate::matcher::{captures_view, points_into, CaptureView, SlotCapture};
use crate::catalog::LineRole;

verus! {

/// The token types this server emits, in the order the legend indexes them.
pub open spec fn token_type_names() -> Seq<Seq<char>> {
    seq![
        "skriptEffect"@,
        "skriptCondition"@,
        "skriptExpression"@,
        "skriptEvent"@,
        "skriptSection"@,
        "skriptStructure"@,
        "skriptType"@,
        "function"@,
    ]
}

/// The token types of the legend.
pub fn token_types() -> (names: Vec<&'static str>)
    ensures
        names@.map_values(|n: &'static str| n@) == token_type_names(),
{
    let names = vec![
        "skriptEffect",
        "skriptCondition",
        "skriptExpression",
        "skriptEvent",
        "skriptSection",
        "skriptStructure",
        "skriptType",
        "function",
    ];
    assert(names@.map_values(|n: &'static str| n@) =~= token_type_names());
    names
}

/// The token modifiers of the legend.
pub fn token_modifiers() -> (names: Vec<&'static str>)
    ensures
        names@.map_values(|n: &'static str| n@) == seq!["deprecated"@, "defaultLibrary"@],
{
    let names = vec!["deprecated", "defaultLibrary"];
    assert(names@.map_values(|n: &'static str| n@) =~= seq!["deprecated"@, "defaultLibrary"@]);
    names
}

/// The legend index of the token type that colours `c`: the first position of
/// its name.
pub open spec fn legend_index(c: Category) -> Option<u32> {
    if exists|k: int| 0 <= k < token_type_names().len() && token_type_names()[k] == token_type_name(c) {
        Some(
            (choose|k: int|
                0 <= k < token_type_names().len() && token_type_names()[k] == token_type_name(c)
                    && forall|j: int| 0 <= j < k ==> token_type_names()[j] != token_type_name(c)) as u32,
        )
    } else {
        None
    }
}

/// The legend index of a category's token type.
pub fn token_type_index(category: Category) -> (r: Option<u32>)
    ensures
        r == legend_index(category),
{
    let names = token_types();
    let name = chars_of(category.semantic_token_type());
    let ghost all = token_type_names();
    let mut i: usize = 0;
    while i < names.len()
        invariant
            i <= names@.len(),
            names@.map_values(|n: &'static str| n@) == all,
            all == token_type_names(),
            name@ == token_type_name(category),
            forall|j: int| 0 <= j < i ==> all[j] != token_type_name(category),
        decreases names@.len() - i,
    {
        let here = chars_of(names[i]);
        assert(all[i as int] == names@[i as int]@);
        if chars_eq(&here, &name) {
            proof {
                let w = choose|k: int|
                    0 <= k < all.len() && all[k] == token_type_name(category) && forall|j: int|
                        0 <= j < k ==> all[j] != token_type_name(category);
                assert(0 <= i < all.len() && all[i as int] == token_type_name(category));
                if w < i {
                    assert(all[w] != token_type_name(category));
                }
                if i < w {
                    assert(all[i as int] != token_type_name(category));
                }
            }
            return Some(i as u32);
        }
        i += 1;
    }
    None
}

/// Every category maps to a legend entry, so none of its tokens is dropped by
/// the client.
pub proof fn lemma_every_category_has_a_token_type(c: Category)
    ensures
        legend_index(c) is Some,
{
    let names = token_type_names();
    let k: int = match c {
        Category::Effect => 0,
        Category::Condition => 1,
        Category::Expression => 2,
        Category::Event => 3,
        Category::Section => 4,
        Category::Structure => 5,
        Category::Type => 6,
        Category::Function => 7,
    };
    assert(names[k] == token_type_name(c));
}

// ------------------------------------------------------------ comments

/// Where a trailing comment starts, scanning as Skript's own line splitter
/// does: `#` inside a string or a variable name is literal, and `##` is an
/// escaped hash.
pub open spec fn comment_start(s: Seq<char>, i: int, in_string: bool, in_variable: bool) -> int
    decreases s.len() - i,
{
    if i < 0 || i >= s.len() {
        s.len() as int
    } else {
        let c = s[i];
        if c == '"' && !in_variable {
            comment_start(s, i + 1, !in_string, in_variable)
        } else if c == '{' && !in_string {
            comment_start(s, i + 1, in_string, true)
        } else if c == '}' && !in_string {
            comment_start(s, i + 1, in_string, false)
        } else if c == '#' && !in_string && !in_variable {
            if i + 1 < s.len() && s[i + 1] == '#' {
                comment_start(s, i + 2, in_string, in_variable)
            } else {
                i
            }
        } else {
            comment_start(s, i + 1, in_string, in_variable)
        }
    }
}

/// A line without its trailing comment.
pub open spec fn code_of(s: Seq<char>) -> Seq<char> {
    s.take(comment_start(s, 0, false, false))
}

/// Mirrors Skript's own line-splitting state machine.
pub fn strip_trailing_comment(line: &str) -> (code: String)
    ensures
        code@ == code_of(line@),
{
    let chars = chars_of(line);
    let k = comment_index(&chars);
    let out = slice(&chars, 0, k);
    crate::strings::string_of(&out)
}

fn comment_index(s: &Vec<char>) -> (k: usize)
    ensures
        k == comment_start(s@, 0, false, false),
        k <= s@.len(),
{
    let mut in_string = false;
    let mut in_variable = false;
    let mut i: usize = 0;
    while i < s.len()
        invariant
            i <= s@.len(),
            comment_start(s@, 0, false, false) == comment_start(s@, i as int, in_string, in_variable),
        decreases s@.len() - i,
    {
        let c = s[i];
        if c == '"' && !in_variable {
            in_string = !in_string;
        } else if c == '{' && !in_string {
            in_variable = true;
        } else if c == '}' && !in_string {
            in_variable = false;
        } else if c == '#' && !in_string && !in_variable {
            if i + 1 < s.len() && s[i + 1] == '#' {
                i += 2;
                continue;
            }
            return i;
        }
        i += 1;
    }
    i
}

/// The code Skript would parse on a line, or nothing when there is none.
pub open spec fn executable_code(raw: Seq<char>) -> Option<Seq<char>> {
    let t = trim(raw);
    if t.len() == 0 || t[0] == '#' {
        None
    } else {
        let code = trim_end(code_of(t));
        if code.len() > 0 {
            Some(code)
        } else {
            None
        }
    }
}

/// Trims a raw line down to the code Skript would parse, or `None` when there
/// is nothing executable on it.
pub fn executable_part(raw: &str) -> (r: Option<String>)
    ensures
        match executable_code(raw@) {
            Some(code) => r matches Some(s) && s@ == code,
            None => r is None,
        },
{
    let chars = chars_of(raw);
    let (a, b) = trim_bounds(&chars, 0, chars.len());
    assert(chars@.subrange(0, chars@.len() as int) == chars@);
    if a == b || chars[a] == '#' {
        return None;
    }
    let trimmed = slice(&chars, a, b);
    let k = comment_index(&trimmed);
    let e = trail_index(&trimmed, 0, k);
    assert(trimmed@.subrange(0, k as int) == code_of(trimmed@));
    if e == 0 {
        return None;
    }
    let code = slice(&trimmed, 0, e);
    assert(code@ == trim_end(code_of(trimmed@)));
    Some(crate::strings::string_of(&code))
}

// ------------------------------------------------------------ tokens

/// One classified span, before delta encoding. Columns are bytes.
#[derive(Debug, Clone, Copy, PartialEq, Eq, Structural)]
pub struct Token {
    pub line: u32,
    pub start: u32,
    pub length: u32,
    pub token_type: u32,
    pub modifiers: u32,
}

/// Emits one token for a known byte span on `line`, unless it is empty.
pub fn push_token(tokens: &mut Vec<Token>, line: u32, span: (u32, u32), token_type: u32, modifiers: u32)
    ensures
        final(tokens)@ == if span.1 > span.0 {
            old(tokens)@.push(Token { line, start: span.0, length: (span.1 - span.0) as u32, token_type, modifiers })
        } else {
            old(tokens)@
        },
{
    let (start, end) = span;
    if end > start {
        tokens.push(Token { line, start, length: end - start, token_type, modifiers });
    }
}

/// The first whitespace character of `s`, or its length.
pub open spec fn first_white(s: Seq<char>) -> nat
    decreases s.len(),
{
    if s.len() == 0 || is_white(s[0]) {
        0
    } else {
        1 + first_white(s.skip(1))
    }
}

/// The `(byte start, byte length)` of each maximal run of non-whitespace in
/// `s`, with `cursor` the byte position of `s` itself.
pub open spec fn word_spans(s: Seq<char>, cursor: int) -> Seq<(int, int)>
    decreases s.len(),
{
    if s.len() == 0 {
        Seq::empty()
    } else {
        let k = first_white(s);
        proof {
            lemma_first_white_le(s);
        }
        let piece: int = if k < s.len() {
            (k + 1) as int
        } else {
            k as int
        };
        let rest = word_spans(s.skip(piece), cursor + byte_len(s.take(piece)));
        if k > 0 {
            seq![(cursor, byte_len(s.take(k as int)) as int)] + rest
        } else {
            rest
        }
    }
}

/// The tokens `push_span` emits for the byte range `start..end` of `code`.
pub open spec fn span_tokens(code: Seq<char>, line: u32, offset: int, start: int, end: int, token_type: u32, modifiers: u32) -> Seq<Token> {
    let from = crate::strings::chars_within(code, start);
    let to = crate::strings::chars_within(code, end);
    let span = if from <= to {
        code.subrange(from as int, to as int)
    } else {
        Seq::empty()
    };
    word_spans(span, start).map_values(
        |w: (int, int)|
            Token { line, start: (offset + w.0) as u32, length: w.1 as u32, token_type, modifiers },
    )
}

pub proof fn lemma_first_white_le(s: Seq<char>)
    ensures
        first_white(s) <= s.len(),
    decreases s.len(),
{
    if s.len() > 0 && !is_white(s[0]) {
        lemma_first_white_le(s.skip(1));
    }
}

proof fn lemma_first_white(s: Seq<char>, k: int)
    requires
        0 <= k <= s.len(),
        forall|j: int| 0 <= j < k ==> !is_white(#[trigger] s[j]),
        k < s.len() ==> is_white(s[k]),
    ensures
        first_white(s) == k,
    decreases s.len(),
{
    if k > 0 {
        assert forall|j: int| 0 <= j < k - 1 implies !is_white(#[trigger] s.skip(1)[j]) by {
            assert(s.skip(1)[j] == s[j + 1]);
        }
        if k - 1 < s.skip(1).len() {
            assert(s.skip(1)[k - 1] == s[k]);
        }
        lemma_first_white(s.skip(1), k - 1);
    }
}

/// Colours the words of `code[start..end]`, not the whitespace between them,
/// as tokens on `line`, shifted by the code's byte `offset` within the line.
pub fn push_span(
    tokens: &mut Vec<Token>,
    code: &Vec<char>,
    line: u32,
    offset: usize,
    start: usize,
    end: usize,
    token_type: u32,
    modifiers: u32,
)
    requires
        offset + byte_len(code@) <= u32::MAX,
        start <= end <= byte_len(code@),
        byte_len(text_before(code@, start as int)) == start,
        byte_len(text_before(code@, end as int)) == end,
    ensures
        final(tokens)@ == old(tokens)@ + span_tokens(code@, line, offset as int, start as int, end as int, token_type, modifiers),
{
    let from = prefix_chars(code, start);
    let to = prefix_chars(code, end);
    proof {
        crate::strings::lemma_chars_within_le(code@, start as int);
        crate::strings::lemma_chars_within_le(code@, end as int);
        lemma_chars_within_mono(code@, start as int, end as int);
    }
    let span = slice(code, from, to);
    let ghost whole = span@;
    let ghost base = tokens@;
    proof {
        lemma_byte_len_subrange(code@, from as int, to as int);
        assert(code@.take(from as int) == text_before(code@, start as int));
        assert(code@.take(to as int) == text_before(code@, end as int));
    }
    let mut i: usize = 0;
    let mut cursor: usize = start;
    proof {
        assert(whole.skip(0) =~= whole);
    }
    while i < span.len()
        invariant
            i <= span@.len(),
            span@ == whole,
            cursor == start + byte_len(whole.take(i as int)),
            start + byte_len(whole) == end,
            end <= byte_len(code@),
            offset + byte_len(code@) <= u32::MAX,
            tokens@ + word_spans(whole.skip(i as int), cursor as int).map_values(
                |w: (int, int)|
                    Token { line, start: (offset + w.0) as u32, length: w.1 as u32, token_type, modifiers },
            ) == base + word_spans(whole, start as int).map_values(
                |w: (int, int)|
                    Token { line, start: (offset + w.0) as u32, length: w.1 as u32, token_type, modifiers },
            ),
        decreases span@.len() - i,
    {
        let ghost rest = whole.skip(i as int);
        let mut k: usize = i;
        while k < span.len() && !is_white_char(span[k])
            invariant
                i <= k <= span@.len(),
                span@ == whole,
                forall|j: int| i <= j < k ==> !is_white(#[trigger] whole[j]),
            decreases span@.len() - k,
        {
            k += 1;
        }
        proof {
            assert forall|j: int| 0 <= j < k - i implies !is_white(#[trigger] rest[j]) by {
                assert(rest[j] == whole[i + j]);
            }
            if k < span@.len() {
                assert(rest[k - i] == whole[k as int]);
            }
            lemma_first_white(rest, (k - i) as int);
        }
        let piece_end = if k < span.len() {
            k + 1
        } else {
            k
        };
        let word_bytes = bytes_between(&span, i, k);
        let piece_bytes = bytes_between(&span, i, piece_end);
        proof {
            assert(rest.take((k - i) as int) =~= whole.subrange(i as int, k as int));
            assert(rest.take((piece_end - i) as int) =~= whole.subrange(i as int, piece_end as int));
            assert(rest.skip((piece_end - i) as int) =~= whole.skip(piece_end as int));
            lemma_byte_len_split(whole, i as int, piece_end as int);
            lemma_byte_len_subrange(whole, i as int, k as int);
            lemma_byte_len_subrange(whole, i as int, piece_end as int);
            crate::strings::lemma_byte_len_prefix(whole, piece_end as int);
        }
        let ghost before = tokens@;
        if k > i {
            tokens.push(Token {
                line,
                start: (offset + cursor) as u32,
                length: word_bytes as u32,
                token_type,
                modifiers,
            });
            assert(tokens@ =~= before + seq![Token { line, start: (offset + cursor) as u32, length: word_bytes as u32, token_type, modifiers }]);
        }
        cursor = cursor + piece_bytes;
        i = piece_end;
    }
    proof {
        assert(whole.skip(i as int) =~= Seq::<char>::empty());
        assert(tokens@ + Seq::<Token>::empty() =~= tokens@);
    }
}

proof fn lemma_chars_within_mono(s: Seq<char>, a: int, b: int)
    requires
        a <= b,
    ensures
        crate::strings::chars_within(s, a) <= crate::strings::chars_within(s, b),
    decreases s.len(),
{
    if s.len() > 0 && utf8_len_of(s[0]) <= a {
        lemma_chars_within_mono(s.skip(1), a - utf8_len_of(s[0]), b - utf8_len_of(s[0]));
    }
}

spec fn utf8_len_of(c: char) -> nat {
    crate::strings::utf8_len(c)
}

proof fn lemma_byte_len_subrange(s: Seq<char>, a: int, b: int)
    requires
        0 <= a <= b <= s.len(),
    ensures
        byte_len(s.subrange(a, b)) <= byte_len(s),
        byte_len(s.take(a)) + byte_len(s.subrange(a, b)) == byte_len(s.take(b)),
{
    crate::strings::lemma_byte_len_append(s.take(a), s.subrange(a, b));
    assert(s.take(a) + s.subrange(a, b) =~= s.take(b));
    crate::strings::lemma_byte_len_prefix(s, b);
}

proof fn lemma_byte_len_split(s: Seq<char>, a: int, b: int)
    requires
        0 <= a <= b <= s.len(),
    ensures
        byte_len(s.take(b)) == byte_len(s.take(a)) + byte_len(s.subrange(a, b)),
{
    lemma_byte_len_subrange(s, a, b);
}

/// The number of characters of `code` within its first `col` bytes.
fn prefix_chars(code: &Vec<char>, col: usize) -> (k: usize)
    ensures
        k == crate::strings::chars_within(code@, col as int),
{
    let mut used: usize = 0;
    let mut k: usize = 0;
    while k < code.len() && char_len_utf8(code[k]) <= col - used
        invariant
            k <= code@.len(),
            used <= col,
            used == byte_len(code@.take(k as int)),
            forall|j: int| 0 <= j < k ==> byte_len(#[trigger] code@.take(j + 1)) <= col,
        decreases code@.len() - k,
    {
        assert(code@.take(k + 1).drop_last() =~= code@.take(k as int));
        used = used + char_len_utf8(code[k]);
        k += 1;
    }
    proof {
        if k < code@.len() {
            assert(code@.take(k + 1).drop_last() =~= code@.take(k as int));
        }
        crate::strings::lemma_chars_within(code@, col as int, k as int);
    }
    k
}

/// The bytes of `s[a..b]`.
fn bytes_between(s: &Vec<char>, a: usize, b: usize) -> (n: usize)
    requires
        a <= b <= s@.len(),
        byte_len(s@) <= usize::MAX,
    ensures
        n == byte_len(s@.subrange(a as int, b as int)),
{
    let mut n: usize = 0;
    let mut i: usize = a;
    while i < b
        invariant
            a <= i <= b <= s@.len(),
            byte_len(s@) <= usize::MAX,
            n == byte_len(s@.subrange(a as int, i as int)),
        decreases b - i,
    {
        proof {
            assert(s@.subrange(a as int, i + 1).drop_last() =~= s@.subrange(a as int, i as int));
            lemma_byte_len_subrange(s@, a as int, i + 1);
        }
        n = n + char_len_utf8(s[i]);
        i += 1;
    }
    n
}

// ------------------------------------------------------------ from the index

/// The kinds of declaration whose key a structure entry line shows.
pub open spec fn entry_like(kind: SymbolKind) -> bool {
    kind is Entry || kind is Option || kind is Alias || kind is GlobalVariable || kind is LocalVariable
}

/// The first index at or after `i` of a declaration made on `line` inside a
/// structure.
pub open spec fn first_entry_on(f: Seq<Symbol>, line: u32, i: int) -> Option<int>
    decreases f.len() - i,
{
    if i < 0 || i >= f.len() {
        None
    } else if entry_like(f[i].kind) && f[i].selection_range.start.line == line {
        Some(i)
    } else {
        first_entry_on(f, line, i + 1)
    }
}

/// The key span of the first declaration made on `line` inside a structure.
pub open spec fn entry_key_span(symbols: FileSymbols, line: u32) -> Option<(u32, u32)> {
    let f = flatten(symbols.symbols@);
    match first_entry_on(f, line, 0) {
        Some(i) => Some((f[i].selection_range.start.character, f[i].selection_range.end.character)),
        None => None,
    }
}

/// The key span of a declaration made on `line` inside a structure: a
/// command's entries, an option, an alias or a variable default.
pub fn entry_key(symbols: &FileSymbols, line: u32) -> (r: Option<(u32, u32)>)
    ensures
        r == entry_key_span(*symbols, line),
{
    let all = symbols.flat();
    let ghost f = flatten(symbols.symbols@);
    let mut i: usize = 0;
    while i < all.len()
        invariant
            i <= all@.len(),
            derefs(all@) == f,
            f == flatten(symbols.symbols@),
            first_entry_on(f, line, 0) == first_entry_on(f, line, i as int),
        decreases all@.len() - i,
    {
        let s: &Symbol = all[i];
        assert(f[i as int] == *s);
        if matches!(s.kind, SymbolKind::Entry | SymbolKind::Option | SymbolKind::Alias | SymbolKind::GlobalVariable | SymbolKind::LocalVariable)
            && s.selection_range.start.line == line {
            return Some((s.selection_range.start.character, s.selection_range.end.character));
        }
        i += 1;
    }
    None
}

/// The first index at or after `i` of a function call on `line`.
pub open spec fn first_call_on(refs: Seq<Reference>, line: u32, i: int) -> Option<int>
    decreases refs.len() - i,
{
    if i < 0 || i >= refs.len() {
        None
    } else if refs[i].kind is Function && refs[i].name_range.start.line == line {
        Some(i)
    } else {
        first_call_on(refs, line, i + 1)
    }
}

pub open spec fn call_span(symbols: FileSymbols, line: u32) -> Option<(u32, u32)> {
    let refs = symbols.references@;
    match first_call_on(refs, line, 0) {
        Some(i) => Some((refs[i].name_range.start.character, refs[i].name_range.end.character)),
        None => None,
    }
}

/// The name span of the first function call on `line` that the index found.
pub fn call_statement(symbols: &FileSymbols, line: u32) -> (r: Option<(u32, u32)>)
    ensures
        r == call_span(*symbols, line),
{
    let mut i: usize = 0;
    while i < symbols.references.len()
        invariant
            i <= symbols.references@.len(),
            first_call_on(symbols.references@, line, 0) == first_call_on(symbols.references@, line, i as int),
        decreases symbols.references@.len() - i,
    {
        let r = &symbols.references[i];
        if r.kind == SymbolKind::Function && r.name_range.start.line == line {
            return Some((r.name_range.start.character, r.name_range.end.character));
        }
        i += 1;
    }
    None
}

// ------------------------------------------------------------ encoding

/// A token as the protocol wants it: delta-encoded against the one before.
#[derive(Debug, Clone, Copy, PartialEq, Eq, Structural)]
pub struct EncodedToken {
    pub delta_line: u32,
    pub delta_start: u32,
    pub length: u32,
    pub token_type: u32,
    pub token_modifiers_bitset: u32,
}

/// Tokens order by line, then by start column.
pub open spec fn token_no_later(a: Token, b: Token) -> bool {
    a.line < b.line || (a.line == b.line && a.start <= b.start)
}

pub open spec fn tokens_sorted(s: Seq<Token>) -> bool {
    forall|i: int, j: int| 0 <= i < j < s.len() ==> token_no_later(#[trigger] s[i], #[trigger] s[j])
}

/// `out` is `src` sorted by line, then start, by a stable sort: `perm` says
/// where each token came from, and of two at the same place the earlier comes
/// first.
pub open spec fn stably_sorted(src: Seq<Token>, out: Seq<Token>, perm: Seq<int>) -> bool {
    &&& is_permutation(perm, src.len() as int)
    &&& out.len() == src.len()
    &&& forall|i: int| 0 <= i < out.len() ==> out[i] == src[#[trigger] perm[i]]
    &&& tokens_sorted(out)
    &&& forall|i: int, j: int|
        0 <= i < j < out.len() && (#[trigger] out[i]).line == (#[trigger] out[j]).line && out[i].start == out[j].start
            ==> perm[i] < perm[j]
}

/// `out` is `src` stably sorted.
pub open spec fn sorted_from(src: Seq<Token>, out: Seq<Token>) -> bool {
    exists|perm: Seq<int>| stably_sorted(src, out, perm)
}

/// Sorts tokens by line, then start, keeping the order of equal ones.
pub fn sort_tokens(v: Vec<Token>) -> (out: Vec<Token>)
    ensures
        sorted_from(v@, out@),
{
    let ghost src = v@;
    let n = v.len();
    let mut rest = v;
    let mut out: Vec<Token> = Vec::new();
    let ghost mut perm: Seq<int> = Seq::empty();
    // `rest` is what is left of the front of `v`; `out` holds the rest,
    // sorted, each token's origin in `perm`.
    while rest.len() > 0
        invariant
            n == src.len(),
            rest@ == src.take(rest@.len() as int),
            rest@.len() + out@.len() == n,
            perm.len() == out@.len(),
            forall|i: int| 0 <= i < perm.len() ==> rest@.len() <= #[trigger] perm[i] < n,
            forall|i: int, j: int| 0 <= i < j < perm.len() ==> perm[i] != perm[j],
            forall|i: int| 0 <= i < out@.len() ==> out@[i] == src[#[trigger] perm[i]],
            tokens_sorted(out@),
            forall|i: int, j: int|
                0 <= i < j < out@.len() && (#[trigger] out@[i]).line == (#[trigger] out@[j]).line && out@[i].start
                    == out@[j].start ==> perm[i] < perm[j],
        decreases rest@.len(),
    {
        let ghost r = rest@.len() as int;
        let ghost before = out@;
        let ghost old_perm = perm;
        let t = rest.pop().unwrap();
        proof {
            assert(rest@ =~= src.take(r - 1));
            assert(src.take(r)[r - 1] == t);
        }
        let mut p: usize = 0;
        while p < out.len() && !(t.line < out[p].line || (t.line == out[p].line && t.start <= out[p].start))
            invariant
                p <= out@.len(),
                out@ == before,
                forall|k: int| 0 <= k < p ==> !token_no_later(t, #[trigger] out@[k]),
            decreases out@.len() - p,
        {
            p += 1;
        }
        out.insert(p, t);
        proof {
            let now = out@;
            assert(now =~= before.insert(p as int, t));
            perm = old_perm.insert(p as int, r - 1);
            assert forall|i: int| 0 <= i < perm.len() implies rest@.len() <= #[trigger] perm[i] < n by {
                if i < p {
                    assert(perm[i] == old_perm[i]);
                } else if i > p {
                    assert(perm[i] == old_perm[i - 1]);
                }
            }
            assert forall|i: int, j: int| 0 <= i < j < perm.len() implies perm[i] != perm[j] by {
                if i < p && j < p {
                } else if i < p && j == p {
                    assert(perm[i] == old_perm[i]);
                } else if i < p {
                    assert(perm[i] == old_perm[i] && perm[j] == old_perm[j - 1]);
                } else if i == p {
                    assert(perm[j] == old_perm[j - 1]);
                } else {
                    assert(perm[i] == old_perm[i - 1] && perm[j] == old_perm[j - 1]);
                }
            }
            assert forall|i: int| 0 <= i < now.len() implies now[i] == src[#[trigger] perm[i]] by {
                if i < p {
                    assert(now[i] == before[i] && perm[i] == old_perm[i]);
                } else if i > p {
                    assert(now[i] == before[i - 1] && perm[i] == old_perm[i - 1]);
                }
            }
            assert forall|i: int, j: int| 0 <= i < j < now.len() implies token_no_later(#[trigger] now[i], #[trigger] now[j]) by {
                if j < p {
                    assert(now[i] == before[i] && now[j] == before[j]);
                } else if j == p {
                    assert(now[i] == before[i]);
                    assert(!token_no_later(t, before[i]));
                } else if i == p {
                    assert(now[j] == before[j - 1]);
                    assert(token_no_later(t, before[p as int]));
                    if j - 1 > p {
                        assert(token_no_later(before[p as int], before[j - 1]));
                    }
                } else if i < p {
                    assert(now[i] == before[i] && now[j] == before[j - 1]);
                } else {
                    assert(now[i] == before[i - 1] && now[j] == before[j - 1]);
                }
            }
            assert forall|i: int, j: int|
                0 <= i < j < now.len() && (#[trigger] now[i]).line == (#[trigger] now[j]).line && now[i].start == now[j].start
                    implies perm[i] < perm[j] by {
                if j < p {
                    assert(now[i] == before[i] && now[j] == before[j]);
                    assert(perm[i] == old_perm[i] && perm[j] == old_perm[j]);
                } else if j == p {
                    assert(now[i] == before[i]);
                    assert(!token_no_later(t, before[i]));
                } else if i == p {
                    assert(perm[j] == old_perm[j - 1]);
                } else if i < p {
                    assert(now[i] == before[i] && now[j] == before[j - 1]);
                    assert(perm[i] == old_perm[i] && perm[j] == old_perm[j - 1]);
                } else {
                    assert(now[i] == before[i - 1] && now[j] == before[j - 1]);
                    assert(perm[i] == old_perm[i - 1] && perm[j] == old_perm[j - 1]);
                }
            }
        }
    }
    proof {
        assert(stably_sorted(src, out@, perm));
    }
    out
}

/// A byte column on a line of the index, in the client's encoding.
pub open spec fn index_column(lines: Seq<Seq<char>>, line: u32, byte: u32, encoding: Encoding) -> u32 {
    column_in(
        if (line as int) < lines.len() {
            lines[line as int]
        } else {
            Seq::empty()
        },
        byte,
        encoding,
    )
}

pub struct EncodeState {
    pub out: Seq<EncodedToken>,
    pub previous_line: u32,
    pub previous_start: u32,
}

pub open spec fn saturating_sub(a: u32, b: u32) -> u32 {
    if a >= b {
        (a - b) as u32
    } else {
        0
    }
}

/// One token of a sorted sequence, delta-encoded; a token that is empty in
/// the client's encoding is dropped.
pub open spec fn encode_step(st: EncodeState, t: Token, lines: Seq<Seq<char>>, encoding: Encoding) -> EncodeState {
    let start = index_column(lines, t.line, t.start, encoding);
    let end = index_column(lines, t.line, (t.start + t.length) as u32, encoding);
    let length = saturating_sub(end, start);
    if length == 0 {
        st
    } else {
        let delta_line = (t.line - st.previous_line) as u32;
        let delta_start = if delta_line == 0 {
            saturating_sub(start, st.previous_start)
        } else {
            start
        };
        EncodeState {
            out: st.out.push(
                EncodedToken {
                    delta_line,
                    delta_start,
                    length,
                    token_type: t.token_type,
                    token_modifiers_bitset: t.modifiers,
                },
            ),
            previous_line: t.line,
            previous_start: start,
        }
    }
}

pub open spec fn encode_run(ts: Seq<Token>, lines: Seq<Seq<char>>, encoding: Encoding) -> EncodeState
    decreases ts.len(),
{
    if ts.len() == 0 {
        EncodeState { out: Seq::empty(), previous_line: 0, previous_start: 0 }
    } else {
        encode_step(encode_run(ts.drop_last(), lines, encoding), ts.last(), lines, encoding)
    }
}

/// The protocol wants tokens delta-encoded, sorted and non-empty.
pub fn encode(tokens: Vec<Token>, index: &LineIndex, encoding: Encoding) -> (out: Vec<EncodedToken>)
    requires
        forall|i: int| 0 <= i < tokens@.len() ==> #[trigger] tokens@[i].start + tokens@[i].length <= u32::MAX,
    ensures
        exists|sorted: Seq<Token>| #[trigger] sorted_from(tokens@, sorted) && out@ == encode_run(sorted, index.lines_view(), encoding).out,
{
    let ghost given = tokens@;
    let sorted = sort_tokens(tokens);
    let ghost s = sorted@;
    let ghost lines = index.lines_view();
    proof {
        let perm = choose|perm: Seq<int>| stably_sorted(given, s, perm);
        assert forall|i: int| 0 <= i < s.len() implies #[trigger] s[i].start + s[i].length <= u32::MAX by {
            assert(s[i] == given[perm[i]]);
        }
    }
    let mut out: Vec<EncodedToken> = Vec::new();
    let mut previous_line: u32 = 0;
    let mut previous_start: u32 = 0;
    let mut i: usize = 0;
    while i < sorted.len()
        invariant
            i <= sorted@.len(),
            sorted@ == s,
            tokens_sorted(s),
            lines == index.lines_view(),
            forall|j: int| 0 <= j < s.len() ==> #[trigger] s[j].start + s[j].length <= u32::MAX,
            i < s.len() ==> previous_line <= s[i as int].line,
            encode_run(s.take(i as int), lines, encoding) == (EncodeState {
                out: out@,
                previous_line,
                previous_start,
            }),
        decreases sorted@.len() - i,
    {
        let t = sorted[i];
        assert(s.take(i + 1).drop_last() =~= s.take(i as int));
        assert(s.take(i + 1).last() == t);
        let start = index.to_column(t.line, t.start, encoding);
        let end = index.to_column(t.line, t.start + t.length, encoding);
        let length = if end >= start {
            end - start
        } else {
            0
        };
        if length != 0 {
            let delta_line = t.line - previous_line;
            let delta_start = if delta_line == 0 {
                if start >= previous_start {
                    start - previous_start
                } else {
                    0
                }
            } else {
                start
            };
            out.push(EncodedToken {
                delta_line,
                delta_start,
                length,
                token_type: t.token_type,
                token_modifiers_bitset: t.modifiers,
            });
            previous_line = t.line;
            previous_start = start;
        }
        i += 1;
        proof {
            if i < s.len() {
                assert(token_no_later(s[i - 1], s[i as int]));
            }
        }
    }
    assert(s.take(s.len() as int) =~= s);
    out
}

// ------------------------------------------------------------ the document

proof fn lemma_word_spans_within(s: Seq<char>, cursor: int)
    ensures
        forall|j: int| 0 <= j < word_spans(s, cursor).len() ==> cursor <= (#[trigger] word_spans(s, cursor)[j]).0
            && word_spans(s, cursor)[j].0 + word_spans(s, cursor)[j].1 <= cursor + byte_len(s)
            && word_spans(s, cursor)[j].1 >= 0,
    decreases s.len(),
{
    if s.len() > 0 {
        let k = first_white(s);
        lemma_first_white_le(s);
        let piece: int = if k < s.len() {
            (k + 1) as int
        } else {
            k as int
        };
        let c2 = cursor + byte_len(s.take(piece));
        lemma_word_spans_within(s.skip(piece), c2);
        crate::strings::lemma_byte_len_append(s.take(piece), s.skip(piece));
        assert(s =~= s.take(piece) + s.skip(piece));
        crate::strings::lemma_byte_len_prefix(s.take(piece), k as int);
        assert(s.take(piece).take(k as int) =~= s.take(k as int));
        let rest = word_spans(s.skip(piece), c2);
        let all = word_spans(s, cursor);
        assert forall|j: int| 0 <= j < all.len() implies cursor <= (#[trigger] all[j]).0 && all[j].0 + all[j].1 <= cursor
            + byte_len(s) && all[j].1 >= 0 by {
            if k > 0 {
                if j > 0 {
                    assert(all[j] == rest[j - 1]);
                }
            } else {
                assert(all[j] == rest[j]);
            }
        }
    }
}

/// Every word of a span ends within the code, so its token fits a column.
proof fn lemma_span_tokens_fit(code: Seq<char>, line: u32, offset: int, start: int, end: int, tt: u32, m: u32)
    requires
        0 <= offset,
        offset + byte_len(code) <= u32::MAX,
        0 <= start <= end <= byte_len(code),
        byte_len(text_before(code, start)) == start,
    ensures
        forall|j: int| 0 <= j < span_tokens(code, line, offset, start, end, tt, m).len() ==> (#[trigger] span_tokens(
            code,
            line,
            offset,
            start,
            end,
            tt,
            m,
        )[j]).start + span_tokens(code, line, offset, start, end, tt, m)[j].length <= u32::MAX,
{
    let from = crate::strings::chars_within(code, start);
    let to = crate::strings::chars_within(code, end);
    crate::strings::lemma_chars_within_le(code, start);
    crate::strings::lemma_chars_within_le(code, end);
    lemma_chars_within_mono(code, start, end);
    let span = code.subrange(from as int, to as int);
    lemma_byte_len_subrange(code, from as int, to as int);
    crate::strings::lemma_byte_len_prefix(code, to as int);
    assert(code.take(from as int) == text_before(code, start));
    lemma_word_spans_within(span, start);
    let ws = word_spans(span, start);
    let ts = span_tokens(code, line, offset, start, end, tt, m);
    assert forall|j: int| 0 <= j < ts.len() implies (#[trigger] ts[j]).start + ts[j].length <= u32::MAX by {
        assert(ts[j] == Token {
            line,
            start: (offset + ws[j].0) as u32,
            length: ws[j].1 as u32,
            token_type: tt,
            modifiers: m,
        });
    }
}

/// The tokens between the captures of a match: the pattern's own words, left
/// of, between and right of the `%...%` slots, which keep their own colours.
pub open spec fn gap_tokens(
    code: Seq<char>,
    line: u32,
    offset: int,
    holes: Seq<CaptureView>,
    i: int,
    cursor: int,
    token_type: u32,
    modifiers: u32,
) -> Seq<Token>
    decreases holes.len() - i,
{
    if i < 0 || i >= holes.len() {
        if byte_len(code) > cursor {
            span_tokens(code, line, offset, cursor, byte_len(code) as int, token_type, modifiers)
        } else {
            Seq::empty()
        }
    } else {
        let h = holes[i];
        (if h.start > cursor {
            span_tokens(code, line, offset, cursor, h.start, token_type, modifiers)
        } else {
            Seq::empty()
        }) + gap_tokens(
            code,
            line,
            offset,
            holes,
            i + 1,
            if cursor > h.end {
                cursor
            } else {
                h.end
            },
            token_type,
            modifiers,
        )
    }
}

/// A token for a known span, unless it is empty.
pub open spec fn known_token(line: u32, span: (u32, u32), token_type: u32, modifiers: u32) -> Seq<Token> {
    if span.1 > span.0 {
        seq![Token { line, start: span.0, length: (span.1 - span.0) as u32, token_type, modifiers }]
    } else {
        Seq::empty()
    }
}

/// The modifiers of an entry's tokens: deprecated, and part of Skript's
/// default library when it needs neither an addon nor anything else.
pub open spec fn modifiers_of(e: crate::docs::EntryView) -> u32 {
    if e.deprecated && e.requirements.len() == 0 && e.addon is None {
        3
    } else if e.deprecated {
        1
    } else if e.requirements.len() == 0 && e.addon is None {
        2
    } else {
        0
    }
}

/// The tokens of line `n`: the literal words of the syntax it resolves to;
/// failing that, a call statement's function name, or a structure entry's
/// key.
pub open spec fn line_tokens(c: CatalogView, symbols: FileSymbols, raw: Seq<char>, n: u32) -> Seq<Token> {
    match executable_code(raw) {
        None => Seq::empty(),
        Some(code) => {
            let offset = byte_len(raw.take(crate::strings::lead(raw) as int)) as int;
            match classification(c, code, role_of(raw)) {
                None => match call_span(symbols, n) {
                    Some(sp) => known_token(n, sp, 7, 0),
                    None => match entry_key_span(symbols, n) {
                        Some(sp) => known_token(n, sp, 5, 0),
                        None => Seq::empty(),
                    },
                },
                Some((id, caps)) => if id.index < c.entries.len() && c.entries[id.index as int].0 == id.category {
                    match legend_index(id.category) {
                        Some(tt) => gap_tokens(code, n, offset, caps, 0, 0, tt, modifiers_of(c.entries[id.index as int].1)),
                        None => Seq::empty(),
                    }
                } else {
                    Seq::empty()
                },
            }
        },
    }
}

proof fn lemma_span_modifiers(code: Seq<char>, line: u32, offset: int, start: int, end: int, tt: u32, m: u32)
    ensures
        forall|t: int| 0 <= t < span_tokens(code, line, offset, start, end, tt, m).len()
            ==> (#[trigger] span_tokens(code, line, offset, start, end, tt, m)[t]).modifiers == m,
{
}

proof fn lemma_gap_modifiers(
    code: Seq<char>,
    line: u32,
    offset: int,
    holes: Seq<CaptureView>,
    i: int,
    cursor: int,
    tt: u32,
    m: u32,
)
    ensures
        forall|t: int| 0 <= t < gap_tokens(code, line, offset, holes, i, cursor, tt, m).len()
            ==> (#[trigger] gap_tokens(code, line, offset, holes, i, cursor, tt, m)[t]).modifiers == m,
    decreases holes.len() - i,
{
    if i < 0 || i >= holes.len() {
        lemma_span_modifiers(code, line, offset, cursor, byte_len(code) as int, tt, m);
    } else {
        let h = holes[i];
        let next = if cursor > h.end {
            cursor
        } else {
            h.end
        };
        lemma_span_modifiers(code, line, offset, cursor, h.start, tt, m);
        lemma_gap_modifiers(code, line, offset, holes, i + 1, next, tt, m);
        let a = if h.start > cursor {
            span_tokens(code, line, offset, cursor, h.start, tt, m)
        } else {
            Seq::empty()
        };
        let b = gap_tokens(code, line, offset, holes, i + 1, next, tt, m);
        assert(gap_tokens(code, line, offset, holes, i, cursor, tt, m) == a + b);
        assert forall|t: int| 0 <= t < (a + b).len() implies (#[trigger] (a + b)[t]).modifiers == m by {
            if t < a.len() {
                assert((a + b)[t] == a[t]);
            } else {
                assert((a + b)[t] == b[t - a.len()]);
            }
        }
    }
}

/// The modifier bits of a line's tokens follow the legend (`deprecated`,
/// then `defaultLibrary`) and the entry the line resolves to: bit 0 is set
/// exactly when the entry is deprecated, bit 1 exactly when it needs no addon
/// and no other requirement, and no other bit is ever set. Tokens of a line
/// that resolves to no entry carry no modifier.
pub proof fn lemma_token_modifiers_follow_the_entry(c: CatalogView, symbols: FileSymbols, raw: Seq<char>, n: u32)
    ensures
        forall|t: int| 0 <= t < line_tokens(c, symbols, raw, n).len() ==> {
            let tok = #[trigger] line_tokens(c, symbols, raw, n)[t];
            &&& tok.modifiers < 4
            &&& match executable_code(raw) {
                Some(code) => match classification(c, code, role_of(raw)) {
                    Some((id, _)) => {
                        let e = c.entries[id.index as int].1;
                        &&& (tok.modifiers % 2 == 1) == e.deprecated
                        &&& ((tok.modifiers / 2) % 2 == 1) == (e.requirements.len() == 0 && e.addon is None)
                    },
                    None => tok.modifiers == 0,
                },
                None => true,
            }
        },
{
    match executable_code(raw) {
        None => {},
        Some(code) => {
            let offset = byte_len(raw.take(crate::strings::lead(raw) as int)) as int;
            match classification(c, code, role_of(raw)) {
                None => {},
                Some((id, caps)) => {
                    if id.index < c.entries.len() && c.entries[id.index as int].0 == id.category {
                        match legend_index(id.category) {
                            Some(tt) => {
                                lemma_gap_modifiers(code, n, offset, caps, 0, 0, tt, modifiers_of(c.entries[id.index as int].1));
                            },
                            None => {},
                        }
                    }
                },
            }
        },
    }
}

/// The tokens of the first `k` lines, and whether line `k` starts inside a
/// `###` block, whose prose is not syntax.
pub open spec fn tokens_upto(c: CatalogView, symbols: FileSymbols, ls: Seq<Seq<char>>, k: int) -> (bool, Seq<Token>)
    decreases k,
{
    if k <= 0 {
        (false, Seq::empty())
    } else {
        let (inside, acc) = tokens_upto(c, symbols, ls, k - 1);
        let raw = ls[k - 1];
        if trim(raw) == "###"@ {
            (!inside, acc)
        } else if inside {
            (inside, acc)
        } else {
            (inside, acc + line_tokens(c, symbols, raw, (k - 1) as u32))
        }
    }
}

/// The tokens of a whole document, before they are sorted and encoded.
pub open spec fn document_tokens(c: CatalogView, symbols: FileSymbols, text: Seq<char>) -> Seq<Token> {
    tokens_upto(c, symbols, crate::strings::lines_of(text), crate::strings::lines_of(text).len() as int).1
}

/// Whether every line fits a column and every pattern has room to score it.
pub open spec fn lines_fit_tokens(text: Seq<char>, c: CatalogView) -> bool {
    &&& crate::strings::lines_of(text).len() <= u32::MAX
    &&& forall|n: int| 0 <= n < crate::strings::lines_of(text).len() ==> byte_len(
        #[trigger] crate::strings::lines_of(text)[n],
    ) <= u32::MAX
    &&& forall|n: int, i: int|
        0 <= n < crate::strings::lines_of(text).len() && 0 <= i < c.patterns.len()
            ==> crate::pattern_index::score_room(#[trigger] c.patterns[i], #[trigger] crate::strings::lines_of(text)[n])
}

pub proof fn lemma_boundary(s: Seq<char>, k: int)
    requires
        0 <= k <= s.len(),
    ensures
        byte_len(text_before(s, byte_len(s.take(k)) as int)) == byte_len(s.take(k)),
        crate::strings::chars_within(s, byte_len(s.take(k)) as int) == k,
{
    let col = byte_len(s.take(k)) as int;
    assert forall|j: int| 0 <= j < k implies byte_len(#[trigger] s.take(j + 1)) <= col by {
        crate::matcher::lemma_byte_len_mono(s, j + 1, k);
    }
    if k < s.len() {
        crate::matcher::lemma_byte_len_strict(s, k, k + 1);
    }
    crate::strings::lemma_chars_within(s, col, k);
}

fn push_gaps(
    tokens: &mut Vec<Token>,
    code: &Vec<char>,
    line: u32,
    offset: usize,
    caps: &Vec<SlotCapture>,
    token_type: u32,
    modifiers: u32,
)
    requires
        offset + byte_len(code@) <= u32::MAX,
        sound_caps(code@, captures_view(caps@)),
        forall|i: int| 0 <= i < old(tokens)@.len() ==> #[trigger] old(tokens)@[i].start + old(tokens)@[i].length <= u32::MAX,
    ensures
        final(tokens)@ == old(tokens)@ + gap_tokens(code@, line, offset as int, captures_view(caps@), 0, 0, token_type, modifiers),
        forall|i: int| 0 <= i < final(tokens)@.len() ==> #[trigger] final(tokens)@[i].start + final(tokens)@[i].length <= u32::MAX,
{
    let ghost holes = captures_view(caps@);
    let ghost base = tokens@;
    let total = crate::strings::byte_offset(code, code.len());
    proof {
        assert(code@.take(code@.len() as int) =~= code@);
        lemma_boundary(code@, code@.len() as int);
        crate::strings::lemma_byte_len_prefix(code@, 0);
        assert(code@.take(0) =~= Seq::<char>::empty());
        lemma_boundary(code@, 0);
    }
    let mut cursor: usize = 0;
    let mut i: usize = 0;
    while i < caps.len()
        invariant
            i <= caps@.len(),
            holes == captures_view(caps@),
            sound_caps(code@, holes),
            offset + byte_len(code@) <= u32::MAX,
            total == byte_len(code@),
            cursor <= total,
            byte_len(text_before(code@, cursor as int)) == cursor,
            i > 0 ==> cursor == holes[i - 1].end,
            i == 0 ==> cursor == 0,
            forall|j: int| 0 <= j < tokens@.len() ==> #[trigger] tokens@[j].start + tokens@[j].length <= u32::MAX,
            base + gap_tokens(code@, line, offset as int, holes, 0, 0, token_type, modifiers) == tokens@ + gap_tokens(
                code@,
                line,
                offset as int,
                holes,
                i as int,
                cursor as int,
                token_type,
                modifiers,
            ),
        decreases caps@.len() - i,
    {
        let start = caps[i].start;
        let end = caps[i].end;
        let ghost h = holes[i as int];
        proof {
            assert(h == crate::matcher::capture_view(caps@[i as int]));
            assert(points_into(code@, h));
            let (a, b) = choose|a: int, b: int|
                0 <= a <= b <= code@.len() && h.text == #[trigger] code@.subrange(a, b) && h.start == byte_len(
                    code@.take(a),
                ) && h.end == byte_len(code@.take(b));
            lemma_boundary(code@, a);
            lemma_boundary(code@, b);
            crate::strings::lemma_byte_len_prefix(code@, b);
            crate::matcher::lemma_byte_len_mono(code@, a, b);
            if i > 0 {
                assert(holes[i - 1].end <= holes[i as int].start);
            }
            assert(0 <= h.start < h.end);
            assert(cursor <= start);
            assert(start < end);
        }
        let ghost before = tokens@;
        if start > cursor {
            proof {
                lemma_span_tokens_fit(code@, line, offset as int, cursor as int, start as int, token_type, modifiers);
            }
            push_span(tokens, code, line, offset, cursor, start, token_type, modifiers);
            proof {
                let added = span_tokens(code@, line, offset as int, cursor as int, start as int, token_type, modifiers);
                assert forall|j: int| 0 <= j < tokens@.len() implies #[trigger] tokens@[j].start + tokens@[j].length
                    <= u32::MAX by {
                    if j >= before.len() {
                        assert(tokens@[j] == added[j - before.len()]);
                    } else {
                        assert(tokens@[j] == before[j]);
                    }
                }
            }
        }
        let next = if cursor > end {
            cursor
        } else {
            end
        };
        proof {
            assert(tokens@ + gap_tokens(code@, line, offset as int, holes, i + 1, next as int, token_type, modifiers)
                =~= before + gap_tokens(code@, line, offset as int, holes, i as int, cursor as int, token_type, modifiers));
        }
        cursor = next;
        i += 1;
    }
    let ghost before = tokens@;
    if total > cursor {
        proof {
            lemma_span_tokens_fit(code@, line, offset as int, cursor as int, total as int, token_type, modifiers);
        }
        push_span(tokens, code, line, offset, cursor, total, token_type, modifiers);
        proof {
            let added = span_tokens(code@, line, offset as int, cursor as int, total as int, token_type, modifiers);
            assert forall|j: int| 0 <= j < tokens@.len() implies #[trigger] tokens@[j].start + tokens@[j].length
                <= u32::MAX by {
                if j >= before.len() {
                    assert(tokens@[j] == added[j - before.len()]);
                } else {
                    assert(tokens@[j] == before[j]);
                }
            }
        }
    }
    proof {
        assert(tokens@ =~= before + gap_tokens(code@, line, offset as int, holes, i as int, cursor as int, token_type, modifiers));
    }
}

proof fn lemma_comment_start_bounds(s: Seq<char>, i: int, in_string: bool, in_variable: bool)
    requires
        0 <= i,
    ensures
        0 <= comment_start(s, i, in_string, in_variable) <= s.len(),
    decreases s.len() - i,
{
    if i < s.len() {
        let c = s[i];
        if c == '"' && !in_variable {
            lemma_comment_start_bounds(s, i + 1, !in_string, in_variable);
        } else if c == '{' && !in_string {
            lemma_comment_start_bounds(s, i + 1, in_string, true);
        } else if c == '}' && !in_string {
            lemma_comment_start_bounds(s, i + 1, in_string, false);
        } else if c == '#' && !in_string && !in_variable {
            if i + 1 < s.len() && s[i + 1] == '#' {
                lemma_comment_start_bounds(s, i + 2, in_string, in_variable);
            }
        } else {
            lemma_comment_start_bounds(s, i + 1, in_string, in_variable);
        }
    }
}

/// The code of a line lies in the line, right after its indentation.
proof fn lemma_code_in_line(raw: Seq<char>)
    ensures
        executable_code(raw) matches Some(code) ==> crate::strings::lead(raw) + code.len() <= raw.len() && code
            == raw.subrange(crate::strings::lead(raw) as int, (crate::strings::lead(raw) + code.len()) as int),
{
    if let Some(code) = executable_code(raw) {
        let q = crate::strings::lead(raw) as int;
        crate::strings::lemma_lead_bounds(raw);
        let u = raw.skip(q);
        crate::strings::lemma_trail_bounds(u);
        let t = trim(raw);
        lemma_comment_start_bounds(t, 0, false, false);
        let c0 = code_of(t);
        crate::strings::lemma_trail_bounds(c0);
        assert(code =~= raw.subrange(q, q + code.len()));
    }
}

fn line_tokens_into(catalog: &Catalog, symbols: &FileSymbols, raw: &Vec<char>, n: u32, tokens: &mut Vec<Token>)
    requires
        catalog.wf(),
        byte_len(raw@) <= u32::MAX,
        forall|i: int| 0 <= i < catalog@.patterns.len() ==> crate::pattern_index::score_room(#[trigger] catalog@.patterns[i], raw@),
        forall|i: int| 0 <= i < old(tokens)@.len() ==> #[trigger] old(tokens)@[i].start + old(tokens)@[i].length <= u32::MAX,
    ensures
        final(tokens)@ == old(tokens)@ + line_tokens(catalog@, *symbols, raw@, n),
        forall|i: int| 0 <= i < final(tokens)@.len() ==> #[trigger] final(tokens)@[i].start + final(tokens)@[i].length <= u32::MAX,
{
    let ghost c = catalog@;
    let ghost base = tokens@;
    let text = crate::strings::string_of(raw);
    let code = match executable_part(text.as_str()) {
        Some(code) => code,
        None => return,
    };
    let lead = crate::strings::lead_index(raw, 0, raw.len());
    proof {
        assert(raw@.subrange(0, raw@.len() as int) =~= raw@);
        lemma_code_in_line(raw@);
        let q = lead as int;
        lemma_room_in_piece(c.patterns, raw@, q, q + code@.len());
        crate::strings::lemma_byte_len_append(raw@.take(q), raw@.skip(q));
        assert(raw@ =~= raw@.take(q) + raw@.skip(q));
        crate::strings::lemma_byte_len_prefix(raw@.skip(q), code@.len() as int);
        assert(raw@.skip(q).take(code@.len() as int) =~= code@);
    }
    let offset = crate::strings::byte_offset(raw, lead);
    let role = if lead == 0 {
        LineRole::TopLevel
    } else {
        LineRole::Statement
    };
    let code_chars = chars_of(code.as_str());
    proof {
        lemma_classification_sound(c, code@, role);
    }
    match catalog.classify_line(code.as_str(), role) {
        None => {
            match call_statement(symbols, n) {
                Some(span) => push_token(tokens, n, span, 7, 0),
                None => match entry_key(symbols, n) {
                    Some(span) => push_token(tokens, n, span, 5, 0),
                    None => {},
                },
            }
            proof {
                assert forall|i: int| 0 <= i < tokens@.len() implies #[trigger] tokens@[i].start + tokens@[i].length <= u32::MAX by {
                    if i >= base.len() {
                        assert(tokens@[i].start + tokens@[i].length <= u32::MAX);
                    } else {
                        assert(tokens@[i] == base[i]);
                    }
                }
            }
        },
        Some((id, found)) => {
            let entry = match catalog.entry(id) {
                Some(e) => e,
                None => return,
            };
            let token_type = match token_type_index(id.category) {
                Some(t) => t,
                None => return,
            };
            let plain = entry.requirements.len() == 0 && entry.addon.is_none();
            let modifiers: u32 = if entry.deprecated && plain {
                3
            } else if entry.deprecated {
                1
            } else if plain {
                2
            } else {
                0
            };
            proof {
                assert(entry@.requirements.len() == entry.requirements@.len());
            }
            push_gaps(tokens, &code_chars, n, offset, &found.captures, token_type, modifiers);
        },
    }
}

/// Classifies every executable line of `text` and returns its semantic
/// tokens, sorted and delta-encoded. Only the literal words of each line's
/// syntax are coloured, so the expressions in its slots keep their own
/// colours; a `###` block's prose is left alone.
pub fn tokens(catalog: &Catalog, text: &str, symbols: &FileSymbols, index: &LineIndex, encoding: Encoding) -> (out: Vec<EncodedToken>)
    requires
        catalog.wf(),
        lines_fit_tokens(text@, catalog@),
    ensures
        exists|sorted: Seq<Token>| #[trigger] sorted_from(document_tokens(catalog@, *symbols, text@), sorted)
            && out@ == encode_run(sorted, index.lines_view(), encoding).out,
{
    let chars = chars_of(text);
    let ls = crate::strings::lines(&chars);
    let ghost all = crate::strings::lines_of(text@);
    let ghost c = catalog@;
    let marker = chars_of("###");
    let mut found: Vec<Token> = Vec::new();
    let mut inside = false;
    let mut n: usize = 0;
    while n < ls.len()
        invariant
            n <= ls@.len(),
            catalog.wf(),
            c == catalog@,
            marker@ == "###"@,
            ls@.len() == all.len(),
            all == crate::strings::lines_of(text@),
            lines_fit_tokens(text@, c),
            forall|i: int| 0 <= i < ls@.len() ==> #[trigger] ls@[i]@ == all[i],
            (inside, found@) == tokens_upto(c, *symbols, all, n as int),
            forall|i: int| 0 <= i < found@.len() ==> #[trigger] found@[i].start + found@[i].length <= u32::MAX,
        decreases ls@.len() - n,
    {
        let raw = &ls[n];
        assert(raw@ == all[n as int]);
        let (a, b) = trim_bounds(raw, 0, raw.len());
        let trimmed = slice(raw, a, b);
        proof {
            assert(raw@.subrange(0, raw@.len() as int) =~= raw@);
        }
        assert(trimmed@ == trim(raw@));
        if chars_eq(&trimmed, &marker) {
            inside = !inside;
        } else if !inside {
            proof {
                assert(byte_len(all[n as int]) <= u32::MAX);
                assert forall|i: int| 0 <= i < c.patterns.len() implies crate::pattern_index::score_room(
                    #[trigger] c.patterns[i],
                    raw@,
                ) by {
                    assert(crate::pattern_index::score_room(c.patterns[i], all[n as int]));
                }
            }
            line_tokens_into(catalog, symbols, raw, n as u32, &mut found);
        }
        n += 1;
    }
    assert(all.len() == n);
    assert(found@ == tokens_upto(c, *symbols, all, all.len() as int).1);
    assert(found@ == document_tokens(catalog@, *symbols, text@));
    let ghost given = found@;
    let out = encode(found, index, encoding);
    assert(given == document_tokens(catalog@, *symbols, text@));
    out
}

} // verus!
