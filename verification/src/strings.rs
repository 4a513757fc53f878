//! Character-level text primitives shared by every module: whitespace, ASCII
//! case folding, trimming and line splitting, each with the specification that
//! std's documentation gives it.
use vstd::prelude::*;

verus! {

/// Appends one character to a string.
///
/// Wraps `String::push`, which appends the character to the end of the string.
#[verifier::external_body]
pub(crate) fn push_char(s: &mut String, c: char)
    ensures
        final(s)@ == old(s)@.push(c),
{
    s.push(c);
}

/// The characters of a string slice, in order.
pub fn chars_of(s: &str) -> (out: Vec<char>)
    ensures
        out@ == s@,
{
    let mut out: Vec<char> = Vec::new();
    for c in it: s.chars()
        invariant
            out@ == it.seq().take(it.index() as int),
    {
        out.push(c);
    }
    out
}

/// A string holding exactly the given characters.
pub fn string_of(chars: &Vec<char>) -> (out: String)
    ensures
        out@ == chars@,
{
    let mut out = String::new();
    let mut i: usize = 0;
    while i < chars.len()
        invariant
            i <= chars@.len(),
            out@ == chars@.take(i as int),
        decreases chars@.len() - i,
    {
        push_char(&mut out, chars[i]);
        i += 1;
        assert(chars@.take(i as int) == chars@.take((i - 1) as int).push(chars@[i - 1]));
    }
    assert(chars@.take(chars@.len() as int) == chars@);
    out
}

/// A copy of `chars[lo..hi]`.
pub fn slice(chars: &Vec<char>, lo: usize, hi: usize) -> (out: Vec<char>)
    requires
        lo <= hi <= chars@.len(),
    ensures
        out@ == chars@.subrange(lo as int, hi as int),
{
    let mut out: Vec<char> = Vec::new();
    let mut i = lo;
    while i < hi
        invariant
            lo <= i <= hi <= chars@.len(),
            out@ == chars@.subrange(lo as int, i as int),
        decreases hi - i,
    {
        out.push(chars[i]);
        i += 1;
    }
    out
}

/// `char::is_whitespace`: the Unicode `White_Space` property.
pub open spec fn is_white(c: char) -> bool {
    ||| ('\t' <= c && c <= '\r')
    ||| c == ' '
    ||| c == '\u{85}'
    ||| c == '\u{a0}'
    ||| c == '\u{1680}'
    ||| ('\u{2000}' <= c && c <= '\u{200a}')
    ||| c == '\u{2028}'
    ||| c == '\u{2029}'
    ||| c == '\u{202f}'
    ||| c == '\u{205f}'
    ||| c == '\u{3000}'
}

pub fn is_white_char(c: char) -> (b: bool)
    ensures
        b == is_white(c),
{
    ('\t' <= c && c <= '\r') || c == ' ' || c == '\u{85}' || c == '\u{a0}' || c == '\u{1680}'
        || ('\u{2000}' <= c && c <= '\u{200a}') || c == '\u{2028}' || c == '\u{2029}' || c
        == '\u{202f}' || c == '\u{205f}' || c == '\u{3000}'
}

/// `u8::is_ascii_whitespace` / `char::is_ascii_whitespace`: space, tab, line
/// feed, form feed and carriage return (not vertical tab).
pub open spec fn is_ascii_white(c: char) -> bool {
    c == ' ' || c == '\t' || c == '\n' || c == '\x0C' || c == '\r'
}

pub fn is_ascii_white_char(c: char) -> (b: bool)
    ensures
        b == is_ascii_white(c),
{
    c == ' ' || c == '\t' || c == '\n' || c == '\x0C' || c == '\r'
}

pub open spec fn is_digit(c: char) -> bool {
    '0' <= c && c <= '9'
}

pub open spec fn is_ascii_alnum(c: char) -> bool {
    ('0' <= c && c <= '9') || ('a' <= c && c <= 'z') || ('A' <= c && c <= 'Z')
}

/// `char::to_ascii_lowercase`.
pub open spec fn lower(c: char) -> char {
    if 'A' <= c && c <= 'Z' {
        ((c as u32) + 32) as char
    } else {
        c
    }
}

pub fn lower_char(c: char) -> (out: char)
    ensures
        out == lower(c),
{
    if 'A' <= c && c <= 'Z' {
        let code: u32 = (c as u32) + 32;
        // `code` is an ASCII lowercase letter.
        let out = ((code as u8) as char);
        assert(out == ((c as u32) + 32) as char);
        out
    } else {
        c
    }
}

/// `str::to_ascii_lowercase`, on characters.
pub open spec fn lower_seq(s: Seq<char>) -> Seq<char> {
    s.map_values(|c: char| lower(c))
}

pub fn lower_chars(chars: &Vec<char>) -> (out: Vec<char>)
    ensures
        out@ == lower_seq(chars@),
{
    let mut out: Vec<char> = Vec::new();
    let mut i: usize = 0;
    while i < chars.len()
        invariant
            i <= chars@.len(),
            out@ == lower_seq(chars@.take(i as int)),
        decreases chars@.len() - i,
    {
        out.push(lower_char(chars[i]));
        i += 1;
        assert(lower_seq(chars@.take(i as int)) =~= lower_seq(chars@.take((i - 1) as int)).push(
            lower(chars@[i - 1]),
        ));
    }
    assert(chars@.take(chars@.len() as int) == chars@);
    out
}

/// Number of leading whitespace characters.
pub open spec fn lead(s: Seq<char>) -> nat
    decreases s.len(),
{
    if s.len() == 0 {
        0
    } else if is_white(s[0]) {
        1 + lead(s.skip(1))
    } else {
        0
    }
}

/// Number of trailing whitespace characters.
pub open spec fn trail(s: Seq<char>) -> nat
    decreases s.len(),
{
    if s.len() == 0 {
        0
    } else if is_white(s.last()) {
        1 + trail(s.drop_last())
    } else {
        0
    }
}

/// `str::trim_start`.
pub open spec fn trim_start(s: Seq<char>) -> Seq<char> {
    s.skip(lead(s) as int)
}

/// `str::trim_end`.
pub open spec fn trim_end(s: Seq<char>) -> Seq<char> {
    s.take(s.len() - trail(s))
}

/// `str::trim`.
pub open spec fn trim(s: Seq<char>) -> Seq<char> {
    trim_end(trim_start(s))
}

pub proof fn lemma_lead_bounds(s: Seq<char>)
    ensures
        lead(s) <= s.len(),
        forall|j: int| 0 <= j < lead(s) ==> is_white(#[trigger] s[j]),
        lead(s) < s.len() ==> !is_white(s[lead(s) as int]),
    decreases s.len(),
{
    if s.len() > 0 && is_white(s[0]) {
        lemma_lead_bounds(s.skip(1));
        assert forall|j: int| 0 <= j < lead(s) implies is_white(#[trigger] s[j]) by {
            if j > 0 {
                assert(s[j] == s.skip(1)[j - 1]);
            }
        }
        if lead(s) < s.len() {
            assert(s[lead(s) as int] == s.skip(1)[lead(s) - 1]);
        }
    }
}

pub proof fn lemma_lead_is(s: Seq<char>, k: int)
    requires
        0 <= k <= s.len(),
        forall|j: int| 0 <= j < k ==> is_white(#[trigger] s[j]),
        k < s.len() ==> !is_white(s[k]),
    ensures
        lead(s) == k,
    decreases s.len(),
{
    if k > 0 {
        assert(is_white(s[0]));
        assert forall|j: int| 0 <= j < k - 1 implies is_white(#[trigger] s.skip(1)[j]) by {
            assert(s.skip(1)[j] == s[j + 1]);
        }
        if k - 1 < s.skip(1).len() {
            assert(s.skip(1)[k - 1] == s[k]);
        }
        lemma_lead_is(s.skip(1), k - 1);
    }
}

pub proof fn lemma_trail_bounds(s: Seq<char>)
    ensures
        trail(s) <= s.len(),
        forall|j: int| s.len() - trail(s) <= j < s.len() ==> is_white(#[trigger] s[j]),
        trail(s) < s.len() ==> !is_white(s[s.len() - trail(s) - 1]),
    decreases s.len(),
{
    if s.len() > 0 && is_white(s.last()) {
        lemma_trail_bounds(s.drop_last());
        assert forall|j: int| s.len() - trail(s) <= j < s.len() implies is_white(
            #[trigger] s[j],
        ) by {
            if j < s.len() - 1 {
                assert(s[j] == s.drop_last()[j]);
            }
        }
        if trail(s) < s.len() {
            assert(s[s.len() - trail(s) - 1] == s.drop_last()[s.len() - trail(s) - 1]);
        }
    }
}

pub proof fn lemma_trail_is(s: Seq<char>, k: int)
    requires
        0 <= k <= s.len(),
        forall|j: int| s.len() - k <= j < s.len() ==> is_white(#[trigger] s[j]),
        k < s.len() ==> !is_white(s[s.len() - k - 1]),
    ensures
        trail(s) == k,
    decreases s.len(),
{
    if k > 0 {
        assert(is_white(s[s.len() - 1]));
        let d = s.drop_last();
        assert forall|j: int| d.len() - (k - 1) <= j < d.len() implies is_white(#[trigger] d[j]) by {
            assert(d[j] == s[j]);
        }
        if k - 1 < d.len() {
            assert(d[d.len() - (k - 1) - 1] == s[s.len() - k - 1]);
        }
        lemma_trail_is(d, k - 1);
    }
}

/// The number of leading whitespace characters of `chars[lo..hi]`, as an index.
pub fn lead_index(chars: &Vec<char>, lo: usize, hi: usize) -> (k: usize)
    requires
        lo <= hi <= chars@.len(),
    ensures
        lo <= k <= hi,
        k - lo == lead(chars@.subrange(lo as int, hi as int)),
{
    let mut k = lo;
    while k < hi && is_white_char(chars[k])
        invariant
            lo <= k <= hi <= chars@.len(),
            forall|j: int| lo <= j < k ==> is_white(#[trigger] chars@[j]),
        decreases hi - k,
    {
        k += 1;
    }
    proof {
        let s = chars@.subrange(lo as int, hi as int);
        assert forall|j: int| 0 <= j < k - lo implies is_white(#[trigger] s[j]) by {
            assert(s[j] == chars@[lo + j]);
        }
        if k - lo < s.len() {
            assert(s[k - lo] == chars@[k as int]);
        }
        lemma_lead_is(s, k - lo);
    }
    k
}

/// One past the last non-whitespace character of `chars[lo..hi]`.
pub fn trail_index(chars: &Vec<char>, lo: usize, hi: usize) -> (k: usize)
    requires
        lo <= hi <= chars@.len(),
    ensures
        lo <= k <= hi,
        hi - k == trail(chars@.subrange(lo as int, hi as int)),
{
    let mut k = hi;
    while k > lo && is_white_char(chars[k - 1])
        invariant
            lo <= k <= hi <= chars@.len(),
            forall|j: int| k <= j < hi ==> is_white(#[trigger] chars@[j]),
        decreases k - lo,
    {
        k -= 1;
    }
    proof {
        let s = chars@.subrange(lo as int, hi as int);
        assert forall|j: int| s.len() - (hi - k) <= j < s.len() implies is_white(
            #[trigger] s[j],
        ) by {
            assert(s[j] == chars@[lo + j]);
        }
        if hi - k < s.len() {
            assert(s[s.len() - (hi - k) - 1] == chars@[k - 1]);
        }
        lemma_trail_is(s, (hi - k) as int);
    }
    k
}

/// The bounds of `trim(chars[lo..hi])` within `chars`.
pub fn trim_bounds(chars: &Vec<char>, lo: usize, hi: usize) -> (r: (usize, usize))
    requires
        lo <= hi <= chars@.len(),
    ensures
        lo <= r.0 <= r.1 <= hi,
        chars@.subrange(r.0 as int, r.1 as int) == trim(chars@.subrange(lo as int, hi as int)),
{
    let a = lead_index(chars, lo, hi);
    let b = trail_index(chars, a, hi);
    proof {
        let s = chars@.subrange(lo as int, hi as int);
        assert(trim_start(s) =~= chars@.subrange(a as int, hi as int));
        assert(trim_end(trim_start(s)) =~= chars@.subrange(a as int, b as int));
    }
    (a, b)
}

pub fn trim_chars(chars: &Vec<char>) -> (out: Vec<char>)
    ensures
        out@ == trim(chars@),
{
    let (a, b) = trim_bounds(chars, 0, chars.len());
    assert(chars@.subrange(0, chars@.len() as int) == chars@);
    slice(chars, a, b)
}

/// Whether `s` begins with `prefix`.
pub open spec fn starts_with(s: Seq<char>, prefix: Seq<char>) -> bool {
    prefix.len() <= s.len() && s.take(prefix.len() as int) == prefix
}

pub fn has_prefix_at(chars: &Vec<char>, at: usize, prefix: &Vec<char>) -> (b: bool)
    requires
        at <= chars@.len(),
    ensures
        b == starts_with(chars@.skip(at as int), prefix@),
{
    if prefix.len() > chars.len() - at {
        return false;
    }
    let mut i: usize = 0;
    while i < prefix.len()
        invariant
            at + prefix@.len() <= chars.len(),
            i <= prefix@.len(),
            forall|j: int| 0 <= j < i ==> chars@[at + j] == prefix@[j],
        decreases prefix@.len() - i,
    {
        if chars[at + i] != prefix[i] {
            assert(chars@.skip(at as int).take(prefix@.len() as int)[i as int] != prefix@[i as int]);
            return false;
        }
        i += 1;
    }
    assert(chars@.skip(at as int).take(prefix@.len() as int) =~= prefix@);
    true
}

pub fn has_prefix(chars: &Vec<char>, prefix: &Vec<char>) -> (b: bool)
    ensures
        b == starts_with(chars@, prefix@),
{
    assert(chars@.skip(0) == chars@);
    has_prefix_at(chars, 0, prefix)
}

pub fn chars_eq(a: &Vec<char>, b: &Vec<char>) -> (r: bool)
    ensures
        r == (a@ == b@),
{
    if a.len() != b.len() {
        return false;
    }
    let mut i: usize = 0;
    while i < a.len()
        invariant
            a@.len() == b@.len(),
            i <= a@.len(),
            forall|j: int| 0 <= j < i ==> a@[j] == b@[j],
        decreases a@.len() - i,
    {
        if a[i] != b[i] {
            return false;
        }
        i += 1;
    }
    assert(a@ =~= b@);
    true
}

// ------------------------------------------------------------ predicates

/// Number of leading characters satisfying `p`.
pub open spec fn lead_by(s: Seq<char>, p: spec_fn(char) -> bool) -> nat
    decreases s.len(),
{
    if s.len() > 0 && p(s[0]) {
        1 + lead_by(s.skip(1), p)
    } else {
        0
    }
}

/// Number of trailing characters satisfying `p`.
pub open spec fn trail_by(s: Seq<char>, p: spec_fn(char) -> bool) -> nat
    decreases s.len(),
{
    if s.len() > 0 && p(s.last()) {
        1 + trail_by(s.drop_last(), p)
    } else {
        0
    }
}

/// `str::trim_matches` with a set of characters: strips every leading and
/// trailing character in the set.
pub open spec fn strip_by(s: Seq<char>, p: spec_fn(char) -> bool) -> Seq<char> {
    let front = s.skip(lead_by(s, p) as int);
    front.take(front.len() - trail_by(front, p))
}

pub proof fn lemma_lead_by_is(s: Seq<char>, p: spec_fn(char) -> bool, k: int)
    requires
        0 <= k <= s.len(),
        forall|j: int| 0 <= j < k ==> p(#[trigger] s[j]),
        k < s.len() ==> !p(s[k]),
    ensures
        lead_by(s, p) == k,
    decreases s.len(),
{
    if k > 0 {
        assert forall|j: int| 0 <= j < k - 1 implies p(#[trigger] s.skip(1)[j]) by {
            assert(s.skip(1)[j] == s[j + 1]);
        }
        if k - 1 < s.skip(1).len() {
            assert(s.skip(1)[k - 1] == s[k]);
        }
        lemma_lead_by_is(s.skip(1), p, k - 1);
    }
}

pub proof fn lemma_trail_by_is(s: Seq<char>, p: spec_fn(char) -> bool, k: int)
    requires
        0 <= k <= s.len(),
        forall|j: int| s.len() - k <= j < s.len() ==> p(#[trigger] s[j]),
        k < s.len() ==> !p(s[s.len() - k - 1]),
    ensures
        trail_by(s, p) == k,
    decreases s.len(),
{
    if k > 0 {
        let d = s.drop_last();
        assert(p(s[s.len() - 1]));
        assert forall|j: int| d.len() - (k - 1) <= j < d.len() implies p(#[trigger] d[j]) by {
            assert(d[j] == s[j]);
        }
        if k - 1 < d.len() {
            assert(d[d.len() - (k - 1) - 1] == s[s.len() - k - 1]);
        }
        lemma_trail_by_is(d, p, k - 1);
    }
}

pub open spec fn is_quote(c: char) -> bool {
    c == '"' || c == '\''
}

pub open spec fn is_square(c: char) -> bool {
    c == '[' || c == ']'
}

/// Strips leading and trailing quote characters.
pub fn strip_quotes(chars: &Vec<char>) -> (out: Vec<char>)
    ensures
        out@ == strip_by(chars@, |c: char| is_quote(c)),
{
    strip_set(chars, true)
}

/// Strips leading and trailing square brackets.
pub fn strip_squares(chars: &Vec<char>) -> (out: Vec<char>)
    ensures
        out@ == strip_by(chars@, |c: char| is_square(c)),
{
    strip_set(chars, false)
}

fn in_set(c: char, quotes: bool) -> (b: bool)
    ensures
        b == (if quotes {
            is_quote(c)
        } else {
            is_square(c)
        }),
{
    if quotes {
        c == '"' || c == '\''
    } else {
        c == '[' || c == ']'
    }
}

fn strip_set(chars: &Vec<char>, quotes: bool) -> (out: Vec<char>)
    ensures
        quotes ==> out@ == strip_by(chars@, |c: char| is_quote(c)),
        !quotes ==> out@ == strip_by(chars@, |c: char| is_square(c)),
{
    let ghost p: spec_fn(char) -> bool = if quotes {
        |c: char| is_quote(c)
    } else {
        |c: char| is_square(c)
    };
    let n = chars.len();
    let mut a: usize = 0;
    while a < n && in_set(chars[a], quotes)
        invariant
            a <= n == chars@.len(),
            forall|j: int| 0 <= j < a ==> p(#[trigger] chars@[j]),
            p == (if quotes {
                |c: char| is_quote(c)
            } else {
                |c: char| is_square(c)
            }),
        decreases n - a,
    {
        a += 1;
    }
    proof {
        if a < n {
            assert(!p(chars@[a as int]));
        }
        lemma_lead_by_is(chars@, p, a as int);
    }
    let mut b: usize = n;
    while b > a && in_set(chars[b - 1], quotes)
        invariant
            a <= b <= n == chars@.len(),
            forall|j: int| b <= j < n ==> p(#[trigger] chars@[j]),
            p == (if quotes {
                |c: char| is_quote(c)
            } else {
                |c: char| is_square(c)
            }),
        decreases b - a,
    {
        b -= 1;
    }
    proof {
        let front = chars@.skip(a as int);
        assert forall|j: int| front.len() - (n - b) <= j < front.len() implies p(
            #[trigger] front[j],
        ) by {
            assert(front[j] == chars@[a + j]);
        }
        if n - b < front.len() {
            assert(front[front.len() - (n - b) - 1] == chars@[b - 1]);
            assert(!p(chars@[b - 1]));
        }
        lemma_trail_by_is(front, p, (n - b) as int);
        assert(front.take(front.len() - (n - b)) =~= chars@.subrange(a as int, b as int));
    }
    slice(chars, a, b)
}

/// `eq_ignore_ascii_case`.
pub open spec fn eq_ignore_case(a: Seq<char>, b: Seq<char>) -> bool {
    lower_seq(a) == lower_seq(b)
}

pub fn eq_ignore_case_chars(a: &Vec<char>, b: &Vec<char>) -> (r: bool)
    ensures
        r == eq_ignore_case(a@, b@),
{
    let la = lower_chars(a);
    let lb = lower_chars(b);
    chars_eq(&la, &lb)
}

// ------------------------------------------------------------------ lines

/// The scanner state while splitting text into lines.
pub struct LineState {
    pub done: Seq<Seq<char>>,
    pub current: Seq<char>,
}

/// Drops one trailing carriage return.
pub open spec fn strip_cr(s: Seq<char>) -> Seq<char> {
    if s.len() > 0 && s.last() == '\r' {
        s.drop_last()
    } else {
        s
    }
}

pub open spec fn line_step(st: LineState, c: char) -> LineState {
    if c == '\n' {
        LineState { done: st.done.push(strip_cr(st.current)), current: Seq::empty() }
    } else {
        LineState { done: st.done, current: st.current.push(c) }
    }
}

pub open spec fn line_run(s: Seq<char>) -> LineState
    decreases s.len(),
{
    if s.len() == 0 {
        LineState { done: Seq::empty(), current: Seq::empty() }
    } else {
        line_step(line_run(s.drop_last()), s.last())
    }
}

/// `str::lines`: split at `\n` or `\r\n`; a final line ending is optional and
/// produces no empty last line.
pub open spec fn lines_of(s: Seq<char>) -> Seq<Seq<char>> {
    let st = line_run(s);
    if st.current.len() > 0 {
        st.done.push(st.current)
    } else {
        st.done
    }
}

/// The lines of `chars`, as `str::lines` yields them.
pub fn lines(chars: &Vec<char>) -> (out: Vec<Vec<char>>)
    ensures
        out@.len() == lines_of(chars@).len(),
        forall|i: int| 0 <= i < out@.len() ==> #[trigger] out@[i]@ == lines_of(chars@)[i],
{
    let mut done: Vec<Vec<char>> = Vec::new();
    let mut current: Vec<char> = Vec::new();
    let mut i: usize = 0;
    while i < chars.len()
        invariant
            i <= chars@.len(),
            line_run(chars@.take(i as int)).current == current@,
            line_run(chars@.take(i as int)).done.len() == done@.len(),
            forall|j: int|
                0 <= j < done@.len() ==> #[trigger] done@[j]@ == line_run(
                    chars@.take(i as int),
                ).done[j],
        decreases chars@.len() - i,
    {
        assert(chars@.take(i + 1).drop_last() == chars@.take(i as int));
        let c = chars[i];
        if c == '\n' {
            if current.len() > 0 && current[current.len() - 1] == '\r' {
                current.pop();
            }
            done.push(current);
            current = Vec::new();
        } else {
            current.push(c);
        }
        i += 1;
    }
    assert(chars@.take(chars@.len() as int) == chars@);
    if current.len() > 0 {
        done.push(current);
    }
    done
}

/// The text before the first `sep`, and the text after it.
pub open spec fn first_index_of(s: Seq<char>, sep: char) -> Option<int> {
    if exists|i: int| 0 <= i < s.len() && s[i] == sep {
        Some(choose|i: int| 0 <= i < s.len() && s[i] == sep && forall|j: int| 0 <= j < i ==> s[j] != sep)
    } else {
        None
    }
}

/// The index of the first `sep` in `chars`, if any.
pub fn find_char(chars: &Vec<char>, sep: char) -> (r: Option<usize>)
    ensures
        r is None ==> forall|i: int| 0 <= i < chars@.len() ==> chars@[i] != sep,
        r matches Some(k) ==> k < chars@.len() && chars@[k as int] == sep && forall|j: int|
            0 <= j < k ==> chars@[j] != sep,
{
    let mut i: usize = 0;
    while i < chars.len()
        invariant
            i <= chars@.len(),
            forall|j: int| 0 <= j < i ==> chars@[j] != sep,
        decreases chars@.len() - i,
    {
        if chars[i] == sep {
            return Some(i);
        }
        i += 1;
    }
    None
}

/// `str::split` on one character: the pieces between separators, empty ones
/// included.
pub struct SplitPieces {
    pub done: Seq<Seq<char>>,
    pub current: Seq<char>,
}

pub open spec fn split_run_on(s: Seq<char>, sep: char) -> SplitPieces
    decreases s.len(),
{
    if s.len() == 0 {
        SplitPieces { done: Seq::empty(), current: Seq::empty() }
    } else {
        let st = split_run_on(s.drop_last(), sep);
        if s.last() == sep {
            SplitPieces { done: st.done.push(st.current), current: Seq::empty() }
        } else {
            SplitPieces { done: st.done, current: st.current.push(s.last()) }
        }
    }
}

pub open spec fn split_on(s: Seq<char>, sep: char) -> Seq<Seq<char>> {
    let st = split_run_on(s, sep);
    st.done.push(st.current)
}

pub fn split_chars(chars: &Vec<char>, sep: char) -> (out: Vec<Vec<char>>)
    ensures
        out@.len() == split_on(chars@, sep).len(),
        forall|i: int| 0 <= i < out@.len() ==> #[trigger] out@[i]@ == split_on(chars@, sep)[i],
{
    let mut done: Vec<Vec<char>> = Vec::new();
    let mut current: Vec<char> = Vec::new();
    let mut i: usize = 0;
    while i < chars.len()
        invariant
            i <= chars@.len(),
            split_run_on(chars@.take(i as int), sep).current == current@,
            split_run_on(chars@.take(i as int), sep).done.len() == done@.len(),
            forall|j: int|
                0 <= j < done@.len() ==> #[trigger] done@[j]@ == split_run_on(
                    chars@.take(i as int),
                    sep,
                ).done[j],
        decreases chars@.len() - i,
    {
        assert(chars@.take(i + 1).drop_last() == chars@.take(i as int));
        if chars[i] == sep {
            done.push(current);
            current = Vec::new();
        } else {
            current.push(chars[i]);
        }
        i += 1;
    }
    assert(chars@.take(chars@.len() as int) == chars@);
    done.push(current);
    done
}

// ------------------------------------------------------------ one-sided strips

/// The predicate "is `a` or `b`".
pub open spec fn one_of(a: char, b: char) -> spec_fn(char) -> bool {
    |x: char| x == a || x == b
}

/// `str::trim_start_matches` with the characters `a` and `b`.
pub fn strip_leading(chars: &Vec<char>, a: char, b: char) -> (out: Vec<char>)
    ensures
        out@ == chars@.skip(lead_by(chars@, one_of(a, b)) as int),
{
    let n = chars.len();
    let mut k: usize = 0;
    while k < n && (chars[k] == a || chars[k] == b)
        invariant
            k <= n == chars@.len(),
            forall|j: int| 0 <= j < k ==> one_of(a, b)(#[trigger] chars@[j]),
        decreases n - k,
    {
        k += 1;
    }
    proof {
        lemma_lead_by_is(chars@, one_of(a, b), k as int);
    }
    slice(chars, k, n)
}

/// `str::trim_end_matches` with the characters `a` and `b`.
pub fn strip_trailing(chars: &Vec<char>, a: char, b: char) -> (out: Vec<char>)
    ensures
        out@ == chars@.take(chars@.len() - trail_by(chars@, one_of(a, b))),
{
    let n = chars.len();
    let mut k: usize = n;
    while k > 0 && (chars[k - 1] == a || chars[k - 1] == b)
        invariant
            k <= n == chars@.len(),
            forall|j: int| k <= j < n ==> one_of(a, b)(#[trigger] chars@[j]),
        decreases k,
    {
        k -= 1;
    }
    proof {
        if k > 0 {
            assert(chars@[n - (n - k) - 1] == chars@[k - 1]);
        }
        lemma_trail_by_is(chars@, one_of(a, b), (n - k) as int);
    }
    slice(chars, 0, k)
}

// ------------------------------------------------------------ UTF-8 lengths

/// `char::len_utf8`: the number of bytes that encode `c` in UTF-8.
pub open spec fn utf8_len(c: char) -> nat {
    if (c as u32) < 0x80 {
        1
    } else if (c as u32) < 0x800 {
        2
    } else if (c as u32) < 0x10000 {
        3
    } else {
        4
    }
}

/// The number of bytes that encode `s` in UTF-8.
pub open spec fn byte_len(s: Seq<char>) -> nat
    decreases s.len(),
{
    if s.len() == 0 {
        0
    } else {
        byte_len(s.drop_last()) + utf8_len(s.last())
    }
}

pub fn char_len_utf8(c: char) -> (n: usize)
    ensures
        n == utf8_len(c),
{
    let code = c as u32;
    if code < 0x80 {
        1
    } else if code < 0x800 {
        2
    } else if code < 0x10000 {
        3
    } else {
        4
    }
}

pub proof fn lemma_byte_len_append(a: Seq<char>, b: Seq<char>)
    ensures
        byte_len(a + b) == byte_len(a) + byte_len(b),
    decreases b.len(),
{
    if b.len() == 0 {
        assert(a + b =~= a);
    } else {
        assert((a + b).drop_last() =~= a + b.drop_last());
        lemma_byte_len_append(a, b.drop_last());
    }
}

pub proof fn lemma_byte_len_bounds(s: Seq<char>)
    ensures
        s.len() <= byte_len(s) <= 4 * s.len(),
    decreases s.len(),
{
    if s.len() > 0 {
        lemma_byte_len_bounds(s.drop_last());
    }
}

/// The bytes of a prefix are no more than those of the whole.
pub proof fn lemma_byte_len_prefix(s: Seq<char>, k: int)
    requires
        0 <= k <= s.len(),
    ensures
        byte_len(s.take(k)) <= byte_len(s),
{
    lemma_byte_len_append(s.take(k), s.skip(k));
    assert(s.take(k) + s.skip(k) =~= s);
}

/// The byte offset of character index `k` of `chars`.
pub fn byte_offset(chars: &Vec<char>, k: usize) -> (n: usize)
    requires
        k <= chars@.len(),
        byte_len(chars@) <= usize::MAX,
    ensures
        n == byte_len(chars@.take(k as int)),
{
    let mut n: usize = 0;
    let mut i: usize = 0;
    while i < k
        invariant
            i <= k <= chars@.len(),
            byte_len(chars@) <= usize::MAX,
            n == byte_len(chars@.take(i as int)),
        decreases k - i,
    {
        proof {
            assert(chars@.take(i + 1).drop_last() =~= chars@.take(i as int));
            lemma_byte_len_prefix(chars@, i + 1);
        }
        n = n + char_len_utf8(chars[i]);
        i += 1;
    }
    n
}

/// No line of a text has more bytes than the text itself.
pub proof fn lemma_line_bytes(s: Seq<char>)
    ensures
        forall|i: int| 0 <= i < lines_of(s).len() ==> byte_len(#[trigger] lines_of(s)[i]) <= byte_len(s),
{
    lemma_line_run_bytes(s);
}

proof fn lemma_line_run_bytes(s: Seq<char>)
    ensures
        byte_len(line_run(s).current) <= byte_len(s),
        forall|i: int| 0 <= i < line_run(s).done.len() ==> byte_len(#[trigger] line_run(s).done[i]) <= byte_len(s),
    decreases s.len(),
{
    if s.len() > 0 {
        let q = s.drop_last();
        lemma_line_run_bytes(q);
        let st = line_run(q);
        let c = s.last();
        if c == '\n' {
            let cur = st.current;
            if cur.len() > 0 && cur.last() == '\r' {
                assert(strip_cr(cur) == cur.drop_last());
            }
            assert(byte_len(strip_cr(cur)) <= byte_len(cur));
            let next = line_run(s);
            assert(next.done == st.done.push(strip_cr(cur)));
            assert(byte_len(next.current) == 0);
            assert forall|i: int| 0 <= i < next.done.len() implies byte_len(#[trigger] next.done[i]) <= byte_len(s) by {
                if i < st.done.len() {
                    assert(next.done[i] == st.done[i]);
                }
            }
        } else {
            assert(st.current.push(c).drop_last() =~= st.current);
        }
    }
}

// ------------------------------------------------------------ byte columns

/// How many leading characters of `s` fit in `col` bytes.
pub open spec fn chars_within(s: Seq<char>, col: int) -> nat
    decreases s.len(),
{
    if s.len() > 0 && utf8_len(s[0]) <= col {
        1 + chars_within(s.skip(1), col - utf8_len(s[0]))
    } else {
        0
    }
}

/// The text of `line` before byte column `col`.
pub open spec fn text_before(line: Seq<char>, col: int) -> Seq<char> {
    line.take(chars_within(line, col) as int)
}

pub proof fn lemma_chars_within(s: Seq<char>, col: int, k: int)
    requires
        0 <= k <= s.len(),
        col >= 0,
        forall|j: int| 0 <= j < k ==> byte_len(#[trigger] s.take(j + 1)) <= col,
        k < s.len() ==> byte_len(s.take(k + 1)) > col,
    ensures
        chars_within(s, col) == k,
    decreases s.len(),
{
    if s.len() > 0 {
        let t = s.skip(1);
        let first = utf8_len(s[0]);
        lemma_byte_len_single(s[0]);
        assert(s.take(1) =~= seq![s[0]]);
        if k > 0 {
            assert forall|j: int| 0 <= j < k - 1 implies byte_len(#[trigger] t.take(j + 1)) <= col - first by {
                lemma_prefix_bytes_shift(s, j + 1);
                let _ = s.take(j + 2);
            }
            if k - 1 < t.len() {
                lemma_prefix_bytes_shift(s, k);
            }
            lemma_chars_within(t, col - first, k - 1);
        }
    }
}

/// Bytes of a prefix of `s.skip(1)` are those of the longer prefix of `s`
/// without its first character.
pub proof fn lemma_prefix_bytes_shift(s: Seq<char>, n: int)
    requires
        1 <= s.len(),
        0 <= n < s.len(),
    ensures
        byte_len(s.take(n + 1)) == utf8_len(s[0]) + byte_len(s.skip(1).take(n)),
{
    lemma_byte_len_append(seq![s[0]], s.skip(1).take(n));
    assert(seq![s[0]] + s.skip(1).take(n) =~= s.take(n + 1));
    lemma_byte_len_single(s[0]);
}

pub proof fn lemma_byte_len_single(c: char)
    ensures
        byte_len(seq![c]) == utf8_len(c),
{
    assert(seq![c].drop_last() =~= Seq::<char>::empty());
    assert(seq![c].last() == c);
    assert(byte_len(Seq::<char>::empty()) == 0);
}

/// The characters of `line` before byte column `col`.
pub fn chars_before(line: &Vec<char>, col: u32) -> (out: Vec<char>)
    ensures
        out@ == text_before(line@, col as int),
{
    let mut used: u64 = 0;
    let mut k: usize = 0;
    while k < line.len() && used + (char_len_utf8(line[k]) as u64) <= col as u64
        invariant
            k <= line@.len(),
            used == byte_len(line@.take(k as int)),
            used <= col,
            forall|j: int| 0 <= j < k ==> byte_len(#[trigger] line@.take(j + 1)) <= col,
        decreases line@.len() - k,
    {
        assert(line@.take(k + 1).drop_last() =~= line@.take(k as int));
        used = used + (char_len_utf8(line[k]) as u64);
        k += 1;
    }
    proof {
        if k < line@.len() {
            assert(line@.take(k + 1).drop_last() =~= line@.take(k as int));
        }
        lemma_chars_within(line@, col as int, k as int);
    }
    slice(line, 0, k)
}

/// The characters before a byte column take no more bytes than the column.
pub proof fn lemma_chars_within_bytes(s: Seq<char>, col: int)
    ensures
        col >= 0 ==> byte_len(text_before(s, col)) <= col,
    decreases s.len(),
{
    if s.len() > 0 && col >= 0 && utf8_len(s[0]) <= col {
        let t = s.skip(1);
        let k = chars_within(s, col) as int;
        lemma_chars_within_bytes(t, col - utf8_len(s[0]));
        assert(k == 1 + chars_within(t, col - utf8_len(s[0])));
        lemma_chars_within_le(t, col - utf8_len(s[0]));
        lemma_prefix_bytes_shift(s, k - 1);
        assert(t.take(k - 1) == text_before(t, col - utf8_len(s[0])));
    } else if col >= 0 {
        assert(text_before(s, col) =~= Seq::<char>::empty());
    }
}

pub proof fn lemma_chars_within_le(s: Seq<char>, col: int)
    ensures
        chars_within(s, col) <= s.len(),
    decreases s.len(),
{
    if s.len() > 0 && utf8_len(s[0]) <= col {
        lemma_chars_within_le(s.skip(1), col - utf8_len(s[0]));
    }
}

} // verus!
