//! Choosing which registered patterns a line could match, and ranking the
//! ones that do.
//!
//! Skript has no grammar: deciding that `give 1 diamond to player` is the
//! effect `EffGive` means matching the line against every registered pattern
//! and picking the best fit. A pattern is only a candidate for a line when the
//! line holds the rarest of the words the pattern requires, so each pattern is
//! keyed by that word once all patterns are in.
use vstd::prelude::*;

use crate::matcher::{captures_view, match_pattern, matched, tokenize, tokens_of, tokens_view, CaptureView, Match};
use crate::parser::{
    has_regex_in, literal_choices, required_of, slots_in, specificity_of, strings_view, Pattern,
};
use crate::pattern::{nodes_view, NodeView};
use crate::strings::{byte_len, chars_of, chars_eq, is_ascii_white, is_ascii_white_char, utf8_len};

verus! {

// ------------------------------------------------------------ keys

/// How often `w` occurs in `ws`.
pub open spec fn count_in(ws: Seq<Seq<char>>, w: Seq<char>) -> int
    decreases ws.len(),
{
    if ws.len() == 0 {
        0
    } else {
        count_in(ws.drop_last(), w) + if ws.last() == w {
            1int
        } else {
            0int
        }
    }
}

/// How often `w` occurs among the required words of all the patterns.
pub open spec fn occurrences(reqs: Seq<Seq<Seq<char>>>, w: Seq<char>) -> int
    decreases reqs.len(),
{
    if reqs.len() == 0 {
        0
    } else {
        occurrences(reqs.drop_last(), w) + count_in(reqs.last(), w)
    }
}

/// The index of the first of `ws[..k]` that occurs least often.
pub open spec fn rarest_upto(ws: Seq<Seq<char>>, reqs: Seq<Seq<Seq<char>>>, k: int) -> int
    decreases k,
{
    if k <= 1 {
        0
    } else {
        let best = rarest_upto(ws, reqs, k - 1);
        if occurrences(reqs, ws[k - 1]) < occurrences(reqs, ws[best]) {
            k - 1
        } else {
            best
        }
    }
}

/// The word a pattern requiring `ws` is filed under: its rarest required
/// word, or none when it requires no word and must be tried on every line.
pub open spec fn key_for(ws: Seq<Seq<char>>, reqs: Seq<Seq<Seq<char>>>) -> Option<Seq<char>> {
    if ws.len() == 0 {
        None
    } else {
        Some(ws[rarest_upto(ws, reqs, ws.len() as int)])
    }
}

/// The required words of each pattern.
pub open spec fn requirements(ps: Seq<Seq<NodeView>>) -> Seq<Seq<Seq<char>>> {
    ps.map_values(|p: Seq<NodeView>| required_of(p))
}

/// The keys of all the patterns.
pub open spec fn keys_for(ps: Seq<Seq<NodeView>>) -> Seq<Option<Seq<char>>> {
    Seq::new(ps.len(), |i: int| key_for(required_of(ps[i]), requirements(ps)))
}

/// The number of required words over all the patterns.
pub open spec fn total_required(ps: Seq<Seq<NodeView>>) -> int
    decreases ps.len(),
{
    if ps.len() == 0 {
        0
    } else {
        total_required(ps.drop_last()) + required_of(ps.last()).len()
    }
}

// ------------------------------------------------------------ candidates

/// Whether the pattern filed under `key` is a candidate for a line with the
/// tokens `toks`.
pub open spec fn selected(key: Option<Seq<char>>, toks: Seq<crate::matcher::TokenView>) -> bool {
    match key {
        None => true,
        Some(w) => exists|k: int| 0 <= k < toks.len() && #[trigger] toks[k].text == w,
    }
}

/// The candidates among the first `n` patterns, in increasing order.
pub open spec fn candidates_upto(
    keys: Seq<Option<Seq<char>>>,
    toks: Seq<crate::matcher::TokenView>,
    n: int,
) -> Seq<int>
    decreases n,
{
    if n <= 0 {
        Seq::empty()
    } else if selected(keys[n - 1], toks) {
        candidates_upto(keys, toks, n - 1).push(n - 1)
    } else {
        candidates_upto(keys, toks, n - 1)
    }
}

// ------------------------------------------------------------ coverage

/// The bytes of `s` that are not ASCII whitespace.
pub open spec fn non_space(s: Seq<char>) -> int
    decreases s.len(),
{
    if s.len() == 0 {
        0
    } else {
        non_space(s.drop_last()) + if is_ascii_white(s.last()) {
            0
        } else {
            utf8_len(s.last()) as int
        }
    }
}

/// The character index at or after `k` where `byte` bytes of `s` end, if
/// `byte` falls on a character boundary.
pub open spec fn boundary_from(s: Seq<char>, k: int, byte: int) -> Option<int>
    decreases s.len() - k,
{
    if k < 0 || k > s.len() || byte_len(s.take(k)) > byte {
        None
    } else if byte_len(s.take(k)) == byte {
        Some(k)
    } else if k == s.len() {
        None
    } else {
        boundary_from(s, k + 1, byte)
    }
}

pub proof fn lemma_boundary_from(s: Seq<char>, k: int, byte: int)
    requires
        0 <= k,
    ensures
        boundary_from(s, k, byte) matches Some(j) ==> k <= j <= s.len() && byte_len(s.take(j))
            == byte,
    decreases s.len() - k,
{
    if k <= s.len() && byte_len(s.take(k)) < byte && k < s.len() {
        lemma_boundary_from(s, k + 1, byte);
    }
}

/// `str::get(start..end)`: the text between two byte offsets, when both are
/// character boundaries in order.
pub open spec fn byte_slice(s: Seq<char>, start: int, end: int) -> Option<Seq<char>> {
    match (boundary_from(s, 0, start), boundary_from(s, 0, end)) {
        (Some(a), Some(b)) => if a <= b {
            Some(s.subrange(a, b))
        } else {
            None
        },
        _ => None,
    }
}

/// The non-whitespace bytes the captures took.
pub open spec fn captured_bytes(s: Seq<char>, caps: Seq<CaptureView>) -> int
    decreases caps.len(),
{
    if caps.len() == 0 {
        0
    } else {
        captured_bytes(s, caps.drop_last()) + match byte_slice(s, caps.last().start, caps.last().end) {
            Some(piece) => non_space(piece),
            None => 0,
        }
    }
}

/// How much of the line the pattern pinned down with its own words: the
/// non-whitespace bytes outside the captures.
pub open spec fn coverage_of(s: Seq<char>, caps: Seq<CaptureView>) -> int {
    let rest = non_space(s) - captured_bytes(s, caps);
    if rest > 0 {
        rest
    } else {
        0
    }
}

/// A match's score: ten per byte of coverage (none for a pattern with a
/// regex, whose span cannot be measured) plus the pattern's specificity.
pub open spec fn score_of(s: Seq<char>, ns: Seq<NodeView>, caps: Seq<CaptureView>) -> int {
    10 * (if has_regex_in(ns) {
        0
    } else {
        coverage_of(s, caps)
    }) + specificity_of(ns)
}

/// Whether every score for this pattern and line fits in an `i32`.
pub open spec fn score_room(ns: Seq<NodeView>, s: Seq<char>) -> bool {
    10 * non_space(s) + 10 * required_of(ns).len() + 8 * literal_choices(ns) + 2 * slots_in(ns).len()
        <= i32::MAX
}

// ------------------------------------------------------------ ranking

/// The number of leading entries scoring at least `score`.
pub open spec fn first_below<T>(acc: Seq<(int, T, Seq<CaptureView>)>, score: int) -> int
    decreases acc.len(),
{
    if acc.len() == 0 || acc[0].0 < score {
        0
    } else {
        1 + first_below(acc.skip(1), score)
    }
}

/// `x` placed after every entry that scores at least as well.
pub open spec fn insert_ranked<T>(acc: Seq<(int, T, Seq<CaptureView>)>, x: (int, T, Seq<CaptureView>)) -> Seq<
    (int, T, Seq<CaptureView>),
> {
    let k = first_below(acc, x.0);
    acc.take(k).push(x) + acc.skip(k)
}

/// The entries ordered best first, equal scores keeping their order.
pub open spec fn ranked<T>(xs: Seq<(int, T, Seq<CaptureView>)>) -> Seq<(int, T, Seq<CaptureView>)>
    decreases xs.len(),
{
    if xs.len() == 0 {
        Seq::empty()
    } else {
        insert_ranked(ranked(xs.drop_last()), xs.last())
    }
}

/// The matches of the candidates `cands`, in their order, with their scores.
pub open spec fn scored<T>(ps: Seq<Seq<NodeView>>, vals: Seq<T>, s: Seq<char>, cands: Seq<int>) -> Seq<
    (int, T, Seq<CaptureView>),
>
    decreases cands.len(),
{
    if cands.len() == 0 {
        Seq::empty()
    } else {
        let prev = scored(ps, vals, s, cands.drop_last());
        let i = cands.last();
        match matched(s, ps[i]) {
            Some(caps) => prev.push((score_of(s, ps[i], caps), vals[i], caps)),
            None => prev,
        }
    }
}

pub open spec fn ranked_view<T>(v: Seq<(i32, &T, Match)>) -> Seq<(int, T, Seq<CaptureView>)> {
    v.map_values(|e: (i32, &T, Match)| (e.0 as int, *e.1, captures_view(e.2.captures@)))
}

pub open spec fn pairs_view<T>(v: Seq<(&T, Match)>) -> Seq<(T, Seq<CaptureView>)> {
    v.map_values(|e: (&T, Match)| (*e.0, captures_view(e.1.captures@)))
}

/// The entries without their scores.
pub open spec fn unscored<T>(xs: Seq<(int, T, Seq<CaptureView>)>) -> Seq<(T, Seq<CaptureView>)> {
    xs.map_values(|e: (int, T, Seq<CaptureView>)| (e.1, e.2))
}

pub proof fn lemma_candidates_below(
    keys: Seq<Option<Seq<char>>>,
    toks: Seq<crate::matcher::TokenView>,
    n: int,
)
    ensures
        forall|j: int|
            0 <= j < candidates_upto(keys, toks, n).len() ==> 0 <= #[trigger] candidates_upto(
                keys,
                toks,
                n,
            )[j] < n,
    decreases n,
{
    if n > 0 {
        lemma_candidates_below(keys, toks, n - 1);
        let prev = candidates_upto(keys, toks, n - 1);
        let all = candidates_upto(keys, toks, n);
        assert forall|j: int| 0 <= j < all.len() implies 0 <= #[trigger] all[j] < n by {
            if j < prev.len() {
                assert(all[j] == prev[j]);
            }
        }
    }
}

pub open spec fn is_ranked<T>(xs: Seq<(int, T, Seq<CaptureView>)>) -> bool {
    forall|i: int, j: int| 0 <= i < j < xs.len() ==> (#[trigger] xs[i]).0 >= (#[trigger] xs[j]).0
}


pub proof fn lemma_non_space_bounds(s: Seq<char>)
    ensures
        0 <= non_space(s) <= byte_len(s),
    decreases s.len(),
{
    if s.len() > 0 {
        lemma_non_space_bounds(s.drop_last());
    }
}

pub proof fn lemma_captured_nonneg(s: Seq<char>, caps: Seq<CaptureView>)
    ensures
        captured_bytes(s, caps) >= 0,
    decreases caps.len(),
{
    if caps.len() > 0 {
        lemma_captured_nonneg(s, caps.drop_last());
        if let Some(piece) = byte_slice(s, caps.last().start, caps.last().end) {
            lemma_non_space_bounds(piece);
        }
    }
}

/// The non-whitespace bytes of `chars[lo..hi]`.
fn non_space_in(chars: &Vec<char>, lo: usize, hi: usize) -> (n: usize)
    requires
        lo <= hi <= chars@.len(),
        byte_len(chars@) <= usize::MAX,
    ensures
        n == non_space(chars@.subrange(lo as int, hi as int)),
{
    let ghost s = chars@;
    let mut n: usize = 0;
    let mut i = lo;
    proof {
        crate::strings::lemma_byte_len_append(s.take(lo as int), s.skip(lo as int));
        assert(s.take(lo as int) + s.skip(lo as int) =~= s);
    }
    while i < hi
        invariant
            lo <= i <= hi <= s.len(),
            s == chars@,
            byte_len(s) <= usize::MAX,
            n == non_space(s.subrange(lo as int, i as int)),
        decreases hi - i,
    {
        proof {
            assert(s.subrange(lo as int, i + 1).drop_last() =~= s.subrange(lo as int, i as int));
            lemma_non_space_bounds(s.subrange(lo as int, i + 1));
            crate::strings::lemma_byte_len_append(s.take(lo as int), s.subrange(lo as int, i + 1));
            crate::strings::lemma_byte_len_append(s.take(i + 1), s.skip(i + 1));
            assert(s.take(lo as int) + s.subrange(lo as int, i + 1) =~= s.take(i + 1));
            assert(s.take(i + 1) + s.skip(i + 1) =~= s);
        }
        let c = chars[i];
        if !is_ascii_white_char(c) {
            n = n + crate::strings::char_len_utf8(c);
        }
        i += 1;
    }
    n
}

/// Where `byte` bytes of `chars` end, when that is a character boundary.
fn find_boundary(chars: &Vec<char>, byte: usize) -> (r: Option<usize>)
    requires
        byte_len(chars@) <= usize::MAX,
    ensures
        match boundary_from(chars@, 0, byte as int) {
            Some(k) => r == Some(k as usize),
            None => r is None,
        },
{
    let ghost s = chars@;
    let mut k: usize = 0;
    let mut bytes: usize = 0;
    assert(s.take(0) =~= Seq::<char>::empty());
    while k < chars.len()
        invariant
            k <= s.len(),
            s == chars@,
            byte_len(s) <= usize::MAX,
            bytes == byte_len(s.take(k as int)),
            boundary_from(s, 0, byte as int) == boundary_from(s, k as int, byte as int),
        decreases s.len() - k,
    {
        if bytes > byte {
            return None;
        }
        if bytes == byte {
            return Some(k);
        }
        proof {
            assert(s.take(k + 1).drop_last() =~= s.take(k as int));
            crate::strings::lemma_byte_len_prefix(s, k + 1);
        }
        bytes = bytes + crate::strings::char_len_utf8(chars[k]);
        k += 1;
    }
    if bytes == byte {
        Some(k)
    } else {
        None
    }
}

/// How much of the line the pattern pinned down with its own words: the
/// non-whitespace bytes outside the captured text.
pub fn literal_coverage(line: &str, found: &Match) -> (r: i32)
    requires
        byte_len(line@) <= usize::MAX,
        non_space(line@) <= i32::MAX,
    ensures
        r == coverage_of(line@, captures_view(found.captures@)),
{
    let chars = chars_of(line);
    let ghost s = chars@;
    let ghost caps = captures_view(found.captures@);
    assert(s.subrange(0, s.len() as int) =~= s);
    let total = non_space_in(&chars, 0, chars.len());
    let mut captured: usize = 0;
    let mut i: usize = 0;
    assert(caps.take(0) =~= Seq::<CaptureView>::empty());
    while i < found.captures.len()
        invariant
            i <= found.captures@.len(),
            s == chars@,
            s == line@,
            byte_len(s) <= usize::MAX,
            caps == captures_view(found.captures@),
            caps.len() == found.captures@.len(),
            non_space(s) <= i32::MAX,
            captured == if captured_bytes(s, caps.take(i as int)) < usize::MAX {
                captured_bytes(s, caps.take(i as int))
            } else {
                usize::MAX as int
            },
        decreases found.captures@.len() - i,
    {
        let c = &found.captures[i];
        proof {
            assert(caps.take(i + 1).drop_last() =~= caps.take(i as int));
            assert(caps.take(i + 1).last() == crate::matcher::capture_view(*c));
            lemma_captured_nonneg(s, caps.take(i as int));
            lemma_boundary_from(s, 0, c.start as int);
            lemma_boundary_from(s, 0, c.end as int);
        }
        let piece = match (find_boundary(&chars, c.start), find_boundary(&chars, c.end)) {
            (Some(a), Some(b)) => if a <= b {
                non_space_in(&chars, a, b)
            } else {
                0
            },
            _ => 0,
        };
        captured = captured.saturating_add(piece);
        i += 1;
    }
    assert(caps.take(caps.len() as int) =~= caps);
    proof {
        lemma_non_space_bounds(s);
    }
    let rest = total.saturating_sub(captured);
    rest as i32
}

pub proof fn lemma_count_in_bounds(ws: Seq<Seq<char>>, w: Seq<char>)
    ensures
        0 <= count_in(ws, w) <= ws.len(),
    decreases ws.len(),
{
    if ws.len() > 0 {
        lemma_count_in_bounds(ws.drop_last(), w);
    }
}

/// How often `w` occurs among the first `i` patterns' words and the first
/// `j` words of pattern `i`.
pub open spec fn seen(reqs: Seq<Seq<Seq<char>>>, i: int, j: int, w: Seq<char>) -> int {
    occurrences(reqs.take(i), w) + count_in(reqs[i].take(j), w)
}

pub proof fn lemma_occurrences_bound(reqs: Seq<Seq<Seq<char>>>, w: Seq<char>)
    ensures
        0 <= occurrences(reqs, w) <= total_words(reqs),
    decreases reqs.len(),
{
    if reqs.len() > 0 {
        lemma_occurrences_bound(reqs.drop_last(), w);
        lemma_count_in_bounds(reqs.last(), w);
    }
}

/// The number of words over all the lists.
pub open spec fn total_words(reqs: Seq<Seq<Seq<char>>>) -> int
    decreases reqs.len(),
{
    if reqs.len() == 0 {
        0
    } else {
        total_words(reqs.drop_last()) + reqs.last().len()
    }
}

pub proof fn lemma_total_words_prefix(reqs: Seq<Seq<Seq<char>>>, i: int)
    requires
        0 <= i <= reqs.len(),
    ensures
        total_words(reqs.take(i)) <= total_words(reqs),
        i < reqs.len() ==> total_words(reqs.take(i)) + reqs[i].len() <= total_words(reqs),
    decreases reqs.len() - i,
{
    if i < reqs.len() {
        lemma_total_words_prefix(reqs, i + 1);
        assert(reqs.take(i + 1).drop_last() =~= reqs.take(i));
    } else {
        assert(reqs.take(i) =~= reqs);
    }
}

pub proof fn lemma_total_required(ps: Seq<Seq<NodeView>>)
    ensures
        total_words(requirements(ps)) == total_required(ps),
    decreases ps.len(),
{
    if ps.len() > 0 {
        lemma_total_required(ps.drop_last());
        assert(requirements(ps).drop_last() =~= requirements(ps.drop_last()));
    }
}

/// Word counts as two parallel lists: distinct words, each with how often it
/// has been seen so far; a word not listed has not been seen.
pub open spec fn counts_complete(
    words: Seq<Vec<char>>,
    nums: Seq<usize>,
    reqs: Seq<Seq<Seq<char>>>,
    i: int,
    j: int,
) -> bool {
    &&& nums.len() == words.len()
    &&& forall|k: int| 0 <= k < words.len() ==> nums[k] == seen(reqs, i, j, (#[trigger] words[k])@)
    &&& forall|k: int, m: int| 0 <= k < m < words.len() ==> (#[trigger] words[k])@ != (#[trigger] words[m])@
    &&& forall|w: Seq<char>|
        (forall|k: int| 0 <= k < words.len() ==> (#[trigger] words[k])@ != w) ==> #[trigger] seen(
            reqs,
            i,
            j,
            w,
        ) == 0
}

/// The position of `w` in `words`, if it is there.
fn find_word(words: &Vec<Vec<char>>, w: &Vec<char>) -> (r: Option<usize>)
    ensures
        match r {
            Some(k) => k < words@.len() && words@[k as int]@ == w@,
            None => forall|k: int| 0 <= k < words@.len() ==> (#[trigger] words@[k])@ != w@,
        },
{
    let mut k: usize = 0;
    while k < words.len()
        invariant
            k <= words@.len(),
            forall|j: int| 0 <= j < k ==> (#[trigger] words@[j])@ != w@,
        decreases words@.len() - k,
    {
        if chars_eq(&words[k], w) {
            return Some(k);
        }
        k += 1;
    }
    None
}

fn count_of(
    words: &Vec<Vec<char>>,
    nums: &Vec<usize>,
    w: &Vec<char>,
    reqs: Ghost<Seq<Seq<Seq<char>>>>,
    i: Ghost<int>,
) -> (n: usize)
    requires
        counts_complete(words@, nums@, reqs@, i@, 0),
    ensures
        n == seen(reqs@, i@, 0, w@),
{
    match find_word(words, w) {
        Some(k) => nums[k],
        None => 0,
    }
}

pub proof fn lemma_first_below<T>(acc: Seq<(int, T, Seq<CaptureView>)>, score: int)
    ensures
        0 <= first_below(acc, score) <= acc.len(),
        forall|j: int| 0 <= j < first_below(acc, score) ==> (#[trigger] acc[j]).0 >= score,
        first_below(acc, score) < acc.len() ==> acc[first_below(acc, score)].0 < score,
    decreases acc.len(),
{
    if acc.len() > 0 && acc[0].0 >= score {
        lemma_first_below(acc.skip(1), score);
        assert forall|j: int| 0 <= j < first_below(acc, score) implies (#[trigger] acc[j]).0 >= score by {
            if j > 0 {
                assert(acc[j] == acc.skip(1)[j - 1]);
            }
        }
        if first_below(acc, score) < acc.len() {
            assert(acc[first_below(acc, score)] == acc.skip(1)[first_below(acc.skip(1), score)]);
        }
    }
}

/// Matches come best first: whatever the entries, the ranking never puts a
/// lower score before a higher one.
pub proof fn lemma_ranked_best_first<T>(xs: Seq<(int, T, Seq<CaptureView>)>)
    ensures
        is_ranked(ranked(xs)),
        ranked(xs).len() == xs.len(),
    decreases xs.len(),
{
    if xs.len() > 0 {
        let acc = ranked(xs.drop_last());
        let x = xs.last();
        lemma_ranked_best_first(xs.drop_last());
        lemma_first_below(acc, x.0);
        let k = first_below(acc, x.0);
        let out = insert_ranked(acc, x);
        assert(out.len() == acc.len() + 1);
        assert forall|i: int, j: int| 0 <= i < j < out.len() implies (#[trigger] out[i]).0 >= (#[trigger] out[j]).0 by {
            if j < k {
                assert(out[i] == acc[i] && out[j] == acc[j]);
            } else if j == k {
                assert(out[j] == x);
                assert(out[i] == acc[i]);
            } else if i < k {
                assert(out[i] == acc[i]);
                assert(out[j] == acc[j - 1]);
            } else if i == k {
                assert(out[i] == x);
                assert(out[j] == acc[j - 1]);
                assert(acc[k].0 < x.0);
                if j - 1 > k {
                    assert(acc[k].0 >= acc[j - 1].0);
                }
            } else {
                assert(out[i] == acc[i - 1] && out[j] == acc[j - 1]);
            }
        }
    }
}

/// A collection of patterns with values, filed under their rarest required
/// words so that a line is matched against a handful of them.
pub struct PatternIndex<T> {
    entries: Vec<(Pattern, T)>,
    /// The word each of the first patterns is filed under, as chosen by the
    /// last `finish`; `None` for a pattern tried on every line.
    keys: Vec<Option<Vec<char>>>,
}

impl<T> PatternIndex<T> {
    /// The filed patterns are the first ones, each under the key the last
    /// `finish` chose for it.
    pub closed spec fn wf(&self) -> bool {
        &&& self.keys@.len() <= self.entries@.len()
        &&& self.keys() == keys_for(self.patterns().take(self.keys@.len() as int))
    }

    /// The patterns, in the order they were inserted.
    pub closed spec fn patterns(&self) -> Seq<Seq<NodeView>> {
        self.entries@.map_values(|e: (Pattern, T)| nodes_view(e.0.nodes@))
    }

    /// The values, in the order they were inserted.
    pub closed spec fn values(&self) -> Seq<T> {
        self.entries@.map_values(|e: (Pattern, T)| e.1)
    }

    /// The words the patterns are filed under, as of the last `finish`.
    pub closed spec fn keys(&self) -> Seq<Option<Seq<char>>> {
        self.keys@.map_values(|k: Option<Vec<char>>| match k {
            Some(w) => Some(w@),
            None => None,
        })
    }

    pub fn new() -> (index: Self)
        ensures
            index.wf(),
            index.patterns() == Seq::<Seq<NodeView>>::empty(),
            index.values() == Seq::<T>::empty(),
            index.keys() == Seq::<Option<Seq<char>>>::empty(),
    {
        let index = PatternIndex { entries: Vec::new(), keys: Vec::new() };
        assert(index.patterns() =~= Seq::<Seq<NodeView>>::empty());
        assert(keys_for(index.patterns().take(0)) =~= Seq::<Option<Seq<char>>>::empty());
        assert(index.values() =~= Seq::<T>::empty());
        assert(index.keys() =~= Seq::<Option<Seq<char>>>::empty());
        index
    }

    /// Adds a pattern. It is filed, and so found, only once `finish` has run:
    /// the rarest word can be chosen only when every pattern is in.
    pub fn insert(&mut self, pattern: Pattern, value: T)
        requires
            old(self).wf(),
        ensures
            final(self).wf(),
            final(self).patterns() == old(self).patterns().push(nodes_view(pattern.nodes@)),
            final(self).values() == old(self).values().push(value),
            final(self).keys() == old(self).keys(),
    {
        let ghost nv = nodes_view(pattern.nodes@);
        self.entries.push((pattern, value));
        assert(self.patterns() =~= old(self).patterns().push(nv));
        assert(self.patterns().take(self.keys@.len() as int) =~= old(self).patterns().take(
            self.keys@.len() as int,
        ));
        assert(self.values() =~= old(self).values().push(value));
    }

    /// Files every pattern under its rarest required word: the one fewest
    /// patterns require, the first such when several tie.
    pub fn finish(&mut self)
        requires
            old(self).wf(),
            total_required(old(self).patterns()) <= usize::MAX,
        ensures
            final(self).wf(),
            final(self).patterns() == old(self).patterns(),
            final(self).values() == old(self).values(),
            final(self).keys() == keys_for(old(self).patterns()),
    {
        let ghost ps = self.patterns();
        let ghost rq = requirements(ps);
        proof {
            lemma_total_required(ps);
        }
        let n = self.entries.len();
        let mut reqs: Vec<Vec<Vec<char>>> = Vec::new();
        let mut i: usize = 0;
        while i < n
            invariant
                n == self.entries@.len(),
                ps == self.patterns(),
                rq == requirements(ps),
                i <= n,
                reqs@.len() == i,
                forall|k: int| 0 <= k < i ==> crate::pattern::vecs_view((#[trigger] reqs@[k])@) == rq[k],
            decreases n - i,
        {
            let words = self.entries[i].0.required_literals();
            assert(ps[i as int] == nodes_view(self.entries@[i as int].0.nodes@));
            let mut list: Vec<Vec<char>> = Vec::new();
            let mut j: usize = 0;
            while j < words.len()
                invariant
                    j <= words@.len(),
                    crate::pattern::vecs_view(list@) == strings_view(words@).take(j as int),
                decreases words@.len() - j,
            {
                let ghost prev = list@;
                list.push(chars_of(words[j].as_str()));
                assert(crate::pattern::vecs_view(list@) =~= crate::pattern::vecs_view(prev).push(words@[j as int]@));
                assert(strings_view(words@).take(j + 1) =~= strings_view(words@).take(j as int).push(words@[j as int]@));
                j += 1;
            }
            assert(strings_view(words@).take(words@.len() as int) =~= strings_view(words@));
            reqs.push(list);
            i += 1;
        }
        // How often each word is required, over all the patterns.
        let mut words: Vec<Vec<char>> = Vec::new();
        let mut nums: Vec<usize> = Vec::new();
        i = 0;
        assert(rq.take(0) =~= Seq::<Seq<Seq<char>>>::empty());
        assert forall|w: Seq<char>| #[trigger] seen(rq, 0, 0, w) == 0 by {
            assert(rq[0].take(0) =~= Seq::<Seq<char>>::empty());
        }
        while i < n
            invariant
                n == reqs@.len(),
                rq.len() == n,
                rq == requirements(ps),
                total_words(rq) <= usize::MAX,
                i <= n,
                forall|k: int| 0 <= k < n ==> crate::pattern::vecs_view((#[trigger] reqs@[k])@) == rq[k],
                counts_complete(words@, nums@, rq, i as int, 0),
            decreases n - i,
        {
            let list = &reqs[i];
            let ghost ws = rq[i as int];
            assert(list@.len() == ws.len());
            let mut j: usize = 0;
            while j < list.len()
                invariant
                    n == reqs@.len(),
                    rq.len() == n,
                    i < n,
                    total_words(rq) <= usize::MAX,
                    ws == rq[i as int],
                    crate::pattern::vecs_view(list@) == ws,
                    j <= list@.len(),
                    counts_complete(words@, nums@, rq, i as int, j as int),
                decreases list@.len() - j,
            {
                let w = &list[j];
                assert(w@ == ws[j as int]);
                proof {
                    assert(ws.take(j + 1).drop_last() =~= ws.take(j as int));
                    assert forall|x: Seq<char>|
                        #[trigger] seen(rq, i as int, j + 1, x) == seen(rq, i as int, j as int, x) + if x
                            == w@ {
                            1int
                        } else {
                            0int
                        } by {}
                    lemma_occurrences_bound(rq.take(i as int), w@);
                    lemma_count_in_bounds(ws.take(j as int), w@);
                    lemma_total_words_prefix(rq, i as int);
                }
                match find_word(&words, w) {
                    Some(k) => {
                        let bumped = nums[k] + 1;
                        nums.set(k, bumped);
                        assert forall|m: int| 0 <= m < words@.len() implies nums@[m] == seen(
                            rq,
                            i as int,
                            j + 1,
                            (#[trigger] words@[m])@,
                        ) by {
                            if m != k {
                                assert(words@[m]@ != words@[k as int]@);
                            }
                        }
                    },
                    None => {
                        let ghost old_words = words@;
                        let ghost old_nums = nums@;
                        assert(seen(rq, i as int, j as int, w@) == 0);
                        words.push(crate::strings::slice(w, 0, w.len()));
                        assert(w@.subrange(0, w@.len() as int) =~= w@);
                        nums.push(1);
                        assert(words@[words@.len() - 1]@ == w@);
                        assert forall|m: int| 0 <= m < words@.len() implies nums@[m] == seen(
                            rq,
                            i as int,
                            j + 1,
                            (#[trigger] words@[m])@,
                        ) by {
                            if m < old_words.len() {
                                assert(words@[m] == old_words[m]);
                                assert(old_words[m]@ != w@);
                            }
                        }
                        assert forall|m: int, q: int| 0 <= m < q < words@.len() implies (#[trigger] words@[m])@
                            != (#[trigger] words@[q])@ by {
                            assert(words@[m] == old_words[m]);
                            if q < old_words.len() {
                                assert(words@[q] == old_words[q]);
                            } else {
                                assert(old_words[m]@ != w@);
                            }
                        }
                        assert forall|x: Seq<char>|
                            (forall|m: int| 0 <= m < words@.len() ==> (#[trigger] words@[m])@ != x) implies #[trigger] seen(
                            rq,
                            i as int,
                            j + 1,
                            x,
                        ) == 0 by {
                            assert(words@[words@.len() - 1]@ != x);
                            assert forall|m: int| 0 <= m < old_words.len() implies (#[trigger] old_words[m])@ != x by {
                                assert(words@[m] == old_words[m]);
                            }
                        }
                    },
                }
                j += 1;
            }
            proof {
                assert(ws.take(ws.len() as int) =~= ws);
                assert(rq.take(i + 1).drop_last() =~= rq.take(i as int));
                assert forall|x: Seq<char>| #[trigger] seen(rq, i + 1, 0, x) == seen(rq, i as int, ws.len() as int, x) by {
                    assert(rq[i + 1].take(0) =~= Seq::<Seq<char>>::empty());
                }
            }
            i += 1;
        }
        assert(rq.take(n as int) =~= rq);
        assert forall|x: Seq<char>| #[trigger] seen(rq, n as int, 0, x) == occurrences(rq, x) by {
            assert(rq[n as int].take(0) =~= Seq::<Seq<char>>::empty());
        }
        // The rarest word of each pattern.
        let mut keys: Vec<Option<Vec<char>>> = Vec::new();
        i = 0;
        while i < n
            invariant
                n == reqs@.len(),
                rq.len() == n,
                rq == requirements(ps),
                ps.len() == n,
                i <= n,
                forall|k: int| 0 <= k < n ==> crate::pattern::vecs_view((#[trigger] reqs@[k])@) == rq[k],
                counts_complete(words@, nums@, rq, n as int, 0),
                forall|x: Seq<char>| #[trigger] seen(rq, n as int, 0, x) == occurrences(rq, x),
                keys@.len() == i,
                forall|k: int| 0 <= k < i ==> (match #[trigger] keys@[k] {
                    Some(w) => Some(w@),
                    None => None,
                }) == keys_for(ps)[k],
            decreases n - i,
        {
            let list = &reqs[i];
            let ghost ws = rq[i as int];
            assert(ws == required_of(ps[i as int]));
            if list.len() == 0 {
                keys.push(None);
            } else {
                let mut best: usize = 0;
                let mut best_count = count_of(&words, &nums, &list[0], Ghost(rq), Ghost(n as int));
                let mut j: usize = 1;
                while j < list.len()
                    invariant
                        1 <= j <= list@.len(),
                        crate::pattern::vecs_view(list@) == ws,
                        counts_complete(words@, nums@, rq, n as int, 0),
                        forall|x: Seq<char>| #[trigger] seen(rq, n as int, 0, x) == occurrences(rq, x),
                        best < j,
                        best == rarest_upto(ws, rq, j as int),
                        best_count == occurrences(rq, ws[best as int]),
                    decreases list@.len() - j,
                {
                    let here = count_of(&words, &nums, &list[j], Ghost(rq), Ghost(n as int));
                    if here < best_count {
                        best = j;
                        best_count = here;
                    }
                    j += 1;
                }
                keys.push(Some(crate::strings::slice(&list[best], 0, list[best].len())));
                assert(list@[best as int]@.subrange(0, list@[best as int]@.len() as int) =~= list@[best as int]@);
            }
            i += 1;
        }
        self.keys = keys;
        assert(self.keys() =~= keys_for(ps));
        assert(self.patterns().take(self.keys@.len() as int) =~= ps);
    }

    /// Every pattern that could match `line`, in increasing order, without
    /// running the matcher: those filed under no word, and those whose word
    /// is one of the line's tokens.
    pub fn candidates(&self, line: &str) -> (r: Vec<usize>)
        requires
            byte_len(line@) <= usize::MAX,
        ensures
            r@.map_values(|i: usize| i as int) == candidates_upto(
                self.keys(),
                tokens_of(line@),
                self.keys().len() as int,
            ),
    {
        let tokens = tokenize(line);
        let ghost toks = tokens_of(line@);
        let mut texts: Vec<Vec<char>> = Vec::new();
        let mut t: usize = 0;
        while t < tokens.len()
            invariant
                t <= tokens@.len(),
                tokens_view(tokens@) == toks,
                texts@.len() == t,
                forall|k: int| 0 <= k < t ==> (#[trigger] texts@[k])@ == toks[k].text,
            decreases tokens@.len() - t,
        {
            assert(crate::matcher::token_view(tokens@[t as int]) == toks[t as int]);
            texts.push(chars_of(tokens[t].text.as_str()));
            t += 1;
        }
        assert(toks.len() == tokens@.len());
        let ghost keys = self.keys();
        let mut out: Vec<usize> = Vec::new();
        let mut i: usize = 0;
        assert(out@.map_values(|i: usize| i as int) =~= Seq::<int>::empty());
        while i < self.keys.len()
            invariant
                i <= self.keys@.len(),
                keys == self.keys(),
                keys.len() == self.keys@.len(),
                texts@.len() == toks.len(),
                forall|k: int| 0 <= k < toks.len() ==> (#[trigger] texts@[k])@ == toks[k].text,
                out@.map_values(|i: usize| i as int) == candidates_upto(keys, toks, i as int),
            decreases self.keys@.len() - i,
        {
            let keep = match &self.keys[i] {
                None => true,
                Some(word) => {
                    let mut hit = false;
                    let mut k: usize = 0;
                    while k < texts.len()
                        invariant
                            k <= texts@.len(),
                            texts@.len() == toks.len(),
                            forall|m: int| 0 <= m < toks.len() ==> (#[trigger] texts@[m])@ == toks[m].text,
                            hit ==> exists|m: int| 0 <= m < toks.len() && #[trigger] toks[m].text == word@,
                            !hit ==> forall|m: int| 0 <= m < k ==> #[trigger] toks[m].text != word@,
                        decreases texts@.len() - k,
                    {
                        if !hit && chars_eq(&texts[k], word) {
                            hit = true;
                            assert(toks[k as int].text == word@);
                        }
                        k += 1;
                    }
                    hit
                },
            };
            assert(keep == selected(keys[i as int], toks));
            if keep {
                let ghost prev = out@;
                out.push(i);
                assert(out@.map_values(|i: usize| i as int) =~= prev.map_values(|i: usize| i as int).push(
                    i as int,
                ));
            }
            i += 1;
        }
        out
    }

    /// Matches `line` against every candidate and returns each match with
    /// its score, best first; equal scores keep the patterns' order.
    pub fn matches_scored(&self, line: &str) -> (r: Vec<(i32, &T, Match)>)
        requires
            self.wf(),
            byte_len(line@) <= usize::MAX,
            forall|i: int| 0 <= i < self.patterns().len() ==> score_room(#[trigger] self.patterns()[i], line@),
        ensures
            ranked_view(r@) == ranked(
                scored(
                    self.patterns(),
                    self.values(),
                    line@,
                    candidates_upto(self.keys(), tokens_of(line@), self.keys().len() as int),
                ),
            ),
    {
        let ghost ps = self.patterns();
        let ghost vals = self.values();
        let ghost s = line@;
        let cands = self.candidates(line);
        let ghost cv = cands@.map_values(|i: usize| i as int);
        proof {
            lemma_candidates_below(self.keys(), tokens_of(line@), self.keys().len() as int);
        }
        let mut results: Vec<(i32, &T, Match)> = Vec::new();
        let mut k: usize = 0;
        assert(cv.take(0) =~= Seq::<int>::empty());
        assert(ranked_view(results@) =~= Seq::<(int, T, Seq<CaptureView>)>::empty());
        while k < cands.len()
            invariant
                self.wf(),
                ps == self.patterns(),
                vals == self.values(),
                s == line@,
                byte_len(s) <= usize::MAX,
                forall|i: int| 0 <= i < ps.len() ==> score_room(#[trigger] ps[i], s),
                cv == cands@.map_values(|i: usize| i as int),
                forall|j: int| 0 <= j < cv.len() ==> 0 <= #[trigger] cv[j] < self.keys().len(),
                self.keys().len() == self.keys@.len(),
                k <= cands@.len(),
                ranked_view(results@) == ranked(scored(ps, vals, s, cv.take(k as int))),
            decreases cands@.len() - k,
        {
            let idx = cands[k];
            assert(cv[k as int] == idx as int);
            let entry = &self.entries[idx];
            assert(ps[idx as int] == nodes_view(entry.0.nodes@));
            assert(vals[idx as int] == entry.1);
            proof {
                assert(cv.take(k + 1).drop_last() =~= cv.take(k as int));
                assert(cv.take(k + 1).last() == idx as int);
            }
            let ghost done = scored(ps, vals, s, cv.take(k as int));
            proof {
                assert(scored(ps, vals, s, cv.take(k + 1)) == match matched(s, ps[idx as int]) {
                    Some(caps) => done.push((score_of(s, ps[idx as int], caps), vals[idx as int], caps)),
                    None => done,
                });
            }
            match match_pattern(&entry.0, line) {
                Some(found) => {
                    let ghost ns = ps[idx as int];
                    let ghost caps = captures_view(found.captures@);
                    proof {
                        assert(score_room(ns, s));
                        lemma_non_space_bounds(s);
                        crate::parser::lemma_literal_choices_bounds(ns, 0);
                        assert(ns.take(0) =~= Seq::<NodeView>::empty());
                        crate::parser::lemma_slot_score_bounds(slots_in(ns));
                        lemma_captured_nonneg(s, caps);
                    }
                    let coverage = if entry.0.has_regex() {
                        0
                    } else {
                        literal_coverage(line, &found)
                    };
                    let score = coverage * 10 + entry.0.specificity();
                    let ghost x = (score as int, entry.1, caps);
                    assert(x == (score_of(s, ns, caps), vals[idx as int], caps));
                    let ghost before = ranked_view(results@);
                    proof {
                        assert(done.push(x).drop_last() =~= done);
                        assert(ranked(done.push(x)) == insert_ranked(ranked(done), x));
                        assert(before.skip(0) =~= before);
                    }
                    let mut at: usize = 0;
                    while at < results.len() && results[at].0 >= score
                        invariant
                            at <= results@.len(),
                            before == ranked_view(results@),
                            first_below(before, score as int) == at + first_below(before.skip(at as int), score as int),
                        decreases results@.len() - at,
                    {
                        assert(before.skip(at as int)[0].0 == results@[at as int].0);
                        assert(before.skip(at as int).skip(1) =~= before.skip(at + 1));
                        at += 1;
                    }
                    proof {
                        if at < results@.len() {
                            assert(before.skip(at as int)[0].0 == results@[at as int].0);
                        } else {
                            assert(before.skip(at as int).len() == 0);
                        }
                    }
                    results.insert(at, (score, &entry.1, found));
                    assert(ranked_view(results@) =~= before.take(at as int).push(x) + before.skip(at as int));
                },
                None => {},
            }
            k += 1;
        }
        assert(cv.take(cands@.len() as int) =~= cv);
        results
    }

    /// As `matches_scored`, without the scores.
    pub fn matches(&self, line: &str) -> (r: Vec<(&T, Match)>)
        requires
            self.wf(),
            byte_len(line@) <= usize::MAX,
            forall|i: int| 0 <= i < self.patterns().len() ==> score_room(#[trigger] self.patterns()[i], line@),
        ensures
            pairs_view(r@) == unscored(
                ranked(
                    scored(
                        self.patterns(),
                        self.values(),
                        line@,
                        candidates_upto(self.keys(), tokens_of(line@), self.keys().len() as int),
                    ),
                ),
            ),
    {
        let mut all = self.matches_scored(line);
        let ghost whole = ranked_view(all@);
        let total = all.len();
        let mut out: Vec<(&T, Match)> = Vec::new();
        let mut taken: usize = 0;
        assert(all@.skip(0) =~= all@);
        assert(pairs_view(out@) =~= Seq::<(T, Seq<CaptureView>)>::empty());
        while all.len() > 0
            invariant
                taken + all@.len() == whole.len(),
                whole.len() == total,
                ranked_view(all@) == whole.skip(taken as int),
                pairs_view(out@) == unscored(whole.take(taken as int)),
            decreases all@.len(),
        {
            let ghost rest = all@;
            let (_, value, found) = all.remove(0);
            proof {
                assert(ranked_view(rest)[0] == whole[taken as int]);
                assert(ranked_view(all@) =~= ranked_view(rest).skip(1));
                assert(whole.skip(taken as int).skip(1) =~= whole.skip(taken + 1));
            }
            let ghost prev = out@;
            out.push((value, found));
            assert(unscored(whole.take(taken + 1)) =~= unscored(whole.take(taken as int)).push(
                (whole[taken as int].1, whole[taken as int].2),
            ));
            assert(pairs_view(out@) =~= pairs_view(prev).push((*value, captures_view(found.captures@))));
            taken += 1;
        }
        assert(whole.take(whole.len() as int) =~= whole);
        out
    }

    /// The single best match, or none when the line matches nothing.
    pub fn best_match(&self, line: &str) -> (r: Option<(&T, Match)>)
        requires
            self.wf(),
            byte_len(line@) <= usize::MAX,
            forall|i: int| 0 <= i < self.patterns().len() ==> score_room(#[trigger] self.patterns()[i], line@),
        ensures
            ({
                let all = ranked(
                    scored(
                        self.patterns(),
                        self.values(),
                        line@,
                        candidates_upto(self.keys(), tokens_of(line@), self.keys().len() as int),
                    ),
                );
                if all.len() == 0 {
                    r is None
                } else {
                    r matches Some(best) && *best.0 == all[0].1 && captures_view(best.1.captures@)
                        == all[0].2
                }
            }),
    {
        let mut all = self.matches(line);
        let ghost ranking = ranked(
            scored(
                self.patterns(),
                self.values(),
                line@,
                candidates_upto(self.keys(), tokens_of(line@), self.keys().len() as int),
            ),
        );
        assert(pairs_view(all@).len() == all@.len());
        assert(unscored(ranking).len() == ranking.len());
        if all.len() == 0 {
            None
        } else {
            let ghost v = pairs_view(all@);
            let best = all.remove(0);
            assert(v[0] == (*best.0, captures_view(best.1.captures@)));
            assert(unscored(ranking)[0] == (ranking[0].1, ranking[0].2));
            Some(best)
        }
    }

    pub fn len(&self) -> (n: usize)
        ensures
            n == self.patterns().len(),
    {
        self.entries.len()
    }

    pub fn is_empty(&self) -> (b: bool)
        ensures
            b == (self.patterns().len() == 0),
    {
        self.entries.len() == 0
    }
}


pub proof fn lemma_rarest_within(ws: Seq<Seq<char>>, reqs: Seq<Seq<Seq<char>>>, k: int)
    requires
        1 <= k,
    ensures
        0 <= rarest_upto(ws, reqs, k) < k,
    decreases k,
{
    if k > 1 {
        lemma_rarest_within(ws, reqs, k - 1);
    }
}

pub proof fn lemma_selected_is_candidate(
    keys: Seq<Option<Seq<char>>>,
    toks: Seq<crate::matcher::TokenView>,
    n: int,
    i: int,
)
    requires
        0 <= i < n,
        selected(keys[i], toks),
    ensures
        candidates_upto(keys, toks, n).contains(i),
    decreases n,
{
    if i < n - 1 {
        lemma_selected_is_candidate(keys, toks, n - 1, i);
        let prev = candidates_upto(keys, toks, n - 1);
        let j = choose|j: int| 0 <= j < prev.len() && prev[j] == i;
        if selected(keys[n - 1], toks) {
            assert(candidates_upto(keys, toks, n)[j] == i);
        }
    } else {
        let all = candidates_upto(keys, toks, n);
        assert(all[all.len() - 1] == i);
    }
}

/// The index never loses a match: a filed pattern that matches a line is
/// always among the line's candidates, because the word it is filed under is
/// one it requires, and every required word is a token of a line it matches.
pub proof fn lemma_filed_matches_are_candidates<T>(index: PatternIndex<T>, line: Seq<char>, i: int)
    requires
        index.wf(),
        0 <= i < index.keys().len(),
        matched(line, index.patterns()[i]) is Some,
    ensures
        candidates_upto(index.keys(), tokens_of(line), index.keys().len() as int).contains(i),
{
    let n = index.keys@.len() as int;
    let ps = index.patterns().take(n);
    let p = index.patterns()[i];
    assert(ps[i] == p);
    let ws = required_of(p);
    assert(index.keys()[i] == key_for(ws, requirements(ps)));
    crate::matcher::lemma_matched_lines_hold_the_required_words(line, p);
    if ws.len() > 0 {
        let r = rarest_upto(ws, requirements(ps), ws.len() as int);
        lemma_rarest_within(ws, requirements(ps), ws.len() as int);
        assert(crate::matcher::appears(line, ws[r]));
        let k = choose|k: int|
            0 <= k < crate::matcher::token_count(line) && #[trigger] tokens_of(line)[k].text == ws[r];
        assert(tokens_of(line)[k].text == ws[r]);
        assert(selected(index.keys()[i], tokens_of(line)));
    }
    lemma_selected_is_candidate(index.keys(), tokens_of(line), n, i);
}

/// How many of the first `n` patterns match `s`.
pub open spec fn matching_count(ps: Seq<Seq<NodeView>>, s: Seq<char>, n: int) -> int
    decreases n,
{
    if n <= 0 {
        0
    } else {
        matching_count(ps, s, n - 1) + if matched(s, ps[n - 1]) is Some {
            1int
        } else {
            0
        }
    }
}

proof fn lemma_ranked_len<T>(xs: Seq<(int, T, Seq<CaptureView>)>)
    ensures
        ranked(xs).len() == xs.len(),
    decreases xs.len(),
{
    if xs.len() > 0 {
        lemma_ranked_len(xs.drop_last());
        lemma_first_below(ranked(xs.drop_last()), xs.last().0);
    }
}

proof fn lemma_candidate_is_selected(keys: Seq<Option<Seq<char>>>, toks: Seq<crate::matcher::TokenView>, n: int, i: int)
    requires
        candidates_upto(keys, toks, n).contains(i),
    ensures
        0 <= i < n,
        selected(keys[i], toks),
    decreases n,
{
    if n > 0 {
        let prev = candidates_upto(keys, toks, n - 1);
        if selected(keys[n - 1], toks) {
            let all = prev.push(n - 1);
            let j = choose|j: int| 0 <= j < all.len() && all[j] == i;
            if j < prev.len() {
                assert(prev[j] == i);
                lemma_candidate_is_selected(keys, toks, n - 1, i);
            }
        } else {
            lemma_candidate_is_selected(keys, toks, n - 1, i);
        }
    }
}

proof fn lemma_count_upto<T>(index: PatternIndex<T>, line: Seq<char>, n: int)
    requires
        index.wf(),
        index.keys().len() == index.patterns().len(),
        0 <= n <= index.keys().len(),
    ensures
        scored(index.patterns(), index.values(), line, candidates_upto(index.keys(), tokens_of(line), n)).len()
            == matching_count(index.patterns(), line, n),
    decreases n,
{
    if n > 0 {
        lemma_count_upto(index, line, n - 1);
        let keys = index.keys();
        let toks = tokens_of(line);
        let ps = index.patterns();
        let prev = candidates_upto(keys, toks, n - 1);
        if selected(keys[n - 1], toks) {
            let all = prev.push(n - 1);
            assert(all.drop_last() =~= prev);
        } else if matched(line, ps[n - 1]) is Some {
            lemma_filed_matches_are_candidates(index, line, n - 1);
            lemma_candidate_is_selected(keys, toks, keys.len() as int, n - 1);
        }
    }
}

/// The index loses no match and invents none: once every pattern is filed,
/// the matches `matches_scored` ranks for a line are as many as the patterns
/// that match it.
pub proof fn lemma_every_match_is_ranked<T>(index: PatternIndex<T>, line: Seq<char>)
    requires
        index.wf(),
        index.keys().len() == index.patterns().len(),
    ensures
        ranked(
            scored(
                index.patterns(),
                index.values(),
                line,
                candidates_upto(index.keys(), tokens_of(line), index.keys().len() as int),
            ),
        ).len() == matching_count(index.patterns(), line, index.patterns().len() as int),
{
    lemma_count_upto(index, line, index.keys().len() as int);
    lemma_ranked_len(
        scored(
            index.patterns(),
            index.values(),
            line,
            candidates_upto(index.keys(), tokens_of(line), index.keys().len() as int),
        ),
    );
}

/// Candidates come out in increasing order, each index once.
pub proof fn lemma_candidates_ascend(keys: Seq<Option<Seq<char>>>, toks: Seq<crate::matcher::TokenView>, n: int)
    ensures
        forall|i: int, j: int|
            0 <= i < j < candidates_upto(keys, toks, n).len() ==> #[trigger] candidates_upto(keys, toks, n)[i]
                < #[trigger] candidates_upto(keys, toks, n)[j],
    decreases n,
{
    if n > 0 {
        lemma_candidates_ascend(keys, toks, n - 1);
        lemma_candidates_below(keys, toks, n - 1);
        let prev = candidates_upto(keys, toks, n - 1);
        let all = candidates_upto(keys, toks, n);
        assert forall|i: int, j: int| 0 <= i < j < all.len() implies #[trigger] all[i] < #[trigger] all[j] by {
            if selected(keys[n - 1], toks) {
                assert(all[i] == prev[i]);
                if j < prev.len() {
                    assert(all[j] == prev[j]);
                } else {
                    assert(all[j] == n - 1);
                }
            }
        }
    }
}

} // verus!
