//! The syntax database with its patterns compiled and filed for matching:
//! what hover, completion and diagnostics ask to place a line of script.
use vstd::prelude::*;

use crate::catalog::{event_wrapper, role_allows, strip_event_wrapper, tiers_of, Category, EntryId, LineRole};
use crate::diagnostics::{block_comment_lines, diagnostics_view, finding, is_prose, push_finding, Diagnostic, DiagnosticView, Options, Severity};
use crate::docs::{render, rendered, Entry, EntryView};
use crate::index::Document;
use crate::symbols::{derefs, flatten, Symbol, SymbolKind};
use crate::text::{Position, Range};
use crate::source::{append_chars, append_str};
use crate::version::{display_version, version_lt, Version};
use crate::manifest::strings_view;
use crate::matcher::{all_point_into, captures_view, points_into, tokens_of, CaptureView, Match, SlotCapture};
use crate::parser::{parsed, Pattern};
use crate::pattern::{nodes_view, NodeView};
use crate::pattern_index::{
    candidates_upto, insert_ranked, keys_for, non_space, ranked, score_room, scored, total_required, unscored,
    PatternIndex, first_below, lemma_first_below, pairs_view, ranked_view,
};
use crate::strings::{
    byte_len, chars_of, eq_ignore_case, eq_ignore_case_chars, lead, lead_index, trim, trim_start, is_ascii_white, lemma_byte_len_append, lemma_byte_len_prefix, one_of, slice,
    string_of, strip_trailing, trail, trail_by, lines, lines_of, char_len_utf8, byte_offset, trail_index, trim_end, utf8_len,
};

verus! {

/// The catalog as plain values: its entries with their categories, and the
/// patterns filed for matching with the entry each belongs to.
pub struct CatalogView {
    pub entries: Seq<(Category, EntryView)>,
    pub patterns: Seq<Seq<NodeView>>,
    pub ids: Seq<EntryId>,
    pub keys: Seq<Option<Seq<char>>>,
}

/// Every pattern source of the entries, in order, with the entry it belongs
/// to: the entry's category and its position among the entries.
pub open spec fn pattern_sources(entries: Seq<(Category, EntryView)>) -> Seq<(Seq<char>, EntryId)>
    decreases entries.len(),
{
    if entries.len() == 0 {
        Seq::empty()
    } else {
        let k = entries.len() - 1;
        let e = entries.last();
        pattern_sources(entries.drop_last()) + e.1.patterns.map_values(
            |p: Seq<char>| (p, EntryId { category: e.0, index: k as usize }),
        )
    }
}

/// The sources that parse, as patterns, with their entries.
pub open spec fn filed(srcs: Seq<(Seq<char>, EntryId)>) -> Seq<(Seq<NodeView>, EntryId)>
    decreases srcs.len(),
{
    if srcs.len() == 0 {
        Seq::empty()
    } else {
        let rest = filed(srcs.drop_last());
        match parsed(srcs.last().0) {
            Ok(nodes) => rest.push((nodes, srcs.last().1)),
            Err(_) => rest,
        }
    }
}

/// How many sources do not parse. One unparsable pattern must not cost the
/// others; the count is kept so that a regression is visible.
pub open spec fn unparsable(srcs: Seq<(Seq<char>, EntryId)>) -> nat
    decreases srcs.len(),
{
    if srcs.len() == 0 {
        0
    } else {
        unparsable(srcs.drop_last()) + match parsed(srcs.last().0) {
            Ok(_) => 0nat,
            Err(_) => 1nat,
        }
    }
}

pub open spec fn entries_view(v: Seq<(Category, Entry)>) -> Seq<(Category, EntryView)> {
    v.map_values(|e: (Category, Entry)| (e.0, e.1@))
}

/// The searchable catalog.
pub struct Catalog {
    entries: Vec<(Category, Entry)>,
    index: PatternIndex<EntryId>,
    unparsable: usize,
    /// The Skript version the user targets, when known.
    target: Option<Version>,
}

impl View for Catalog {
    type V = CatalogView;

    closed spec fn view(&self) -> CatalogView {
        CatalogView {
            entries: entries_view(self.entries@),
            patterns: self.index.patterns(),
            ids: self.index.values(),
            keys: self.index.keys(),
        }
    }
}

impl Catalog {
    /// Every pattern is filed under its key, and belongs to an entry.
    pub closed spec fn wf(&self) -> bool {
        &&& self.index.wf()
        &&& self@.keys == keys_for(self@.patterns)
        &&& self@.ids.len() == self@.patterns.len()
        &&& forall|i: int| 0 <= i < self@.ids.len() ==> names_entry(self@.entries, #[trigger] self@.ids[i])
    }

    /// Compiles every pattern of every entry and files it for matching.
    pub fn build(entries: Vec<(Category, Entry)>) -> (c: Catalog)
        requires
            pattern_sources(entries_view(entries@)).len() <= usize::MAX,
            forall|j: int| 0 <= j < pattern_sources(entries_view(entries@)).len()
                ==> byte_len(#[trigger] pattern_sources(entries_view(entries@))[j].0) <= usize::MAX,
            total_required(filed(pattern_sources(entries_view(entries@))).map_values(
                |f: (Seq<NodeView>, EntryId)| f.0,
            )) <= usize::MAX,
        ensures
            c.wf(),
            c@.entries == entries_view(entries@),
            c@.patterns == filed(pattern_sources(entries_view(entries@))).map_values(|f: (Seq<NodeView>, EntryId)| f.0),
            c@.ids == filed(pattern_sources(entries_view(entries@))).map_values(|f: (Seq<NodeView>, EntryId)| f.1),
            c.unparsable_patterns() == unparsable(pattern_sources(entries_view(entries@))),
    {
        let ghost ev = entries_view(entries@);
        let ghost all = pattern_sources(ev);
        let mut index: PatternIndex<EntryId> = PatternIndex::new();
        let mut failed: usize = 0;
        let mut k: usize = 0;
        let ghost mut done: int = 0;
        while k < entries.len()
            invariant
                k <= entries@.len(),
                ev == entries_view(entries@),
                all == pattern_sources(ev),
                index.wf(),
                done == pattern_sources(ev.take(k as int)).len(),
                pattern_sources(ev.take(k as int)) == all.take(done),
                done <= all.len(),
                all.len() <= usize::MAX,
                forall|j: int| 0 <= j < all.len() ==> byte_len(#[trigger] all[j].0) <= usize::MAX,
                index.patterns() == filed(all.take(done)).map_values(|f: (Seq<NodeView>, EntryId)| f.0),
                index.values() == filed(all.take(done)).map_values(|f: (Seq<NodeView>, EntryId)| f.1),
                failed == unparsable(all.take(done)),
                failed <= done,
            decreases entries@.len() - k,
        {
            let category = entries[k].0;
            let patterns = &entries[k].1.patterns;
            let ghost ek = ev[k as int];
            proof {
                lemma_sources_prefix(ev, k as int);
            }
            let mut j: usize = 0;
            while j < patterns.len()
                invariant
                    k < entries@.len(),
                    j <= patterns@.len(),
                    ev == entries_view(entries@),
                    all == pattern_sources(ev),
                    ek == ev[k as int],
                    ek.0 == category,
                    ek.1.patterns == strings_view(patterns@),
                    patterns@ == entries@[k as int].1.patterns@,
                    pattern_sources(ev.take(k + 1)) == pattern_sources(ev.take(k as int)) + ek.1.patterns.map_values(
                        |p: Seq<char>| (p, EntryId { category: ek.0, index: k }),
                    ),
                    pattern_sources(ev.take(k + 1)) == all.take(pattern_sources(ev.take(k + 1)).len() as int),
                    pattern_sources(ev.take(k + 1)).len() <= all.len(),
                    index.wf(),
                    done == pattern_sources(ev.take(k as int)).len() + j,
                    done <= all.len(),
                    all.len() <= usize::MAX,
                    pattern_sources(ev.take(k as int)) == all.take(pattern_sources(ev.take(k as int)).len() as int),
                    forall|m: int| 0 <= m < all.len() ==> byte_len(#[trigger] all[m].0) <= usize::MAX,
                    index.patterns() == filed(all.take(done)).map_values(|f: (Seq<NodeView>, EntryId)| f.0),
                    index.values() == filed(all.take(done)).map_values(|f: (Seq<NodeView>, EntryId)| f.1),
                    failed == unparsable(all.take(done)),
                    failed <= done,
                decreases patterns@.len() - j,
            {
                let ghost src = all[done];
                proof {
                    let here = ek.1.patterns.map_values(|p: Seq<char>| (p, EntryId { category: ek.0, index: k }));
                    let before = pattern_sources(ev.take(k as int));
                    assert(pattern_sources(ev.take(k + 1))[done] == here[j as int]);
                    assert(all[done] == all.take(pattern_sources(ev.take(k + 1)).len() as int)[done]);
                    assert(src == (patterns@[j as int]@, EntryId { category, index: k }));
                    assert(all.take(done + 1).drop_last() =~= all.take(done));
                    assert(all.take(done + 1).last() == src);
                    assert(byte_len(all[done].0) <= usize::MAX);
                    assert(done < all.len());
                }
                let id = EntryId { category, index: k };
                match Pattern::parse(patterns[j].as_str()) {
                    Ok(pattern) => {
                        let ghost nodes = nodes_view(pattern.nodes@);
                        index.insert(pattern, id);
                        proof {
                            assert(index.patterns() =~= filed(all.take(done + 1)).map_values(
                                |f: (Seq<NodeView>, EntryId)| f.0,
                            ));
                            assert(index.values() =~= filed(all.take(done + 1)).map_values(
                                |f: (Seq<NodeView>, EntryId)| f.1,
                            ));
                        }
                    },
                    Err(_) => {
                        failed = failed + 1;
                    },
                }
                j += 1;
                proof {
                    done = done + 1;
                }
            }
            proof {
                assert(ek.1.patterns.len() == patterns@.len());
            }
            k += 1;
        }
        proof {
            assert(ev.take(entries@.len() as int) =~= ev);
            assert(all.take(done) =~= all);
            assert(ev.len() == entries.len());
            lemma_sources_ids_below(ev);
            lemma_filed_within(all, ev);
        }
        index.finish();
        Catalog { entries, index, unparsable: failed, target: None }
    }

    /// How many patterns did not parse.
    pub closed spec fn unparsable_patterns(&self) -> nat {
        self.unparsable as nat
    }

    pub fn unparsable_count(&self) -> (n: usize)
        ensures
            n == self.unparsable_patterns(),
    {
        self.unparsable
    }

    /// The entry an id names, if any.
    pub fn entry(&self, id: EntryId) -> (r: Option<&Entry>)
        ensures
            match r {
                Some(e) => id.index < self@.entries.len() && self@.entries[id.index as int].0 == id.category
                    && e@ == self@.entries[id.index as int].1,
                None => !(id.index < self@.entries.len() && self@.entries[id.index as int].0 == id.category),
            },
    {
        if id.index < self.entries.len() && self.entries[id.index].0 == id.category {
            Some(&self.entries[id.index].1)
        } else {
            None
        }
    }
}

proof fn lemma_sources_prefix(ev: Seq<(Category, EntryView)>, k: int)
    requires
        0 <= k < ev.len(),
    ensures
        pattern_sources(ev.take(k + 1)) == pattern_sources(ev.take(k)) + ev[k].1.patterns.map_values(
            |p: Seq<char>| (p, EntryId { category: ev[k].0, index: k as usize }),
        ),
        pattern_sources(ev.take(k)) == pattern_sources(ev).take(pattern_sources(ev.take(k)).len() as int),
        pattern_sources(ev.take(k + 1)) == pattern_sources(ev).take(pattern_sources(ev.take(k + 1)).len() as int),
        pattern_sources(ev.take(k + 1)).len() <= pattern_sources(ev).len(),
    decreases ev.len(),
{
    assert(ev.take(k + 1).drop_last() =~= ev.take(k));
    if k + 1 == ev.len() {
        assert(ev.take(k + 1) =~= ev);
        let s = pattern_sources(ev);
        assert(s.take(s.len() as int) =~= s);
        assert(pattern_sources(ev.take(k)) == pattern_sources(ev.drop_last()));
        assert(ev.take(k) =~= ev.drop_last());
        assert(s =~= pattern_sources(ev.drop_last()) + ev.last().1.patterns.map_values(
            |p: Seq<char>| (p, EntryId { category: ev.last().0, index: k as usize }),
        ));
        assert(s.take(pattern_sources(ev.take(k)).len() as int) =~= pattern_sources(ev.take(k)));
    } else {
        let d = ev.drop_last();
        lemma_sources_prefix(d, k);
        assert(d.take(k) =~= ev.take(k));
        assert(d.take(k + 1) =~= ev.take(k + 1));
        let s = pattern_sources(ev);
        let sd = pattern_sources(d);
        assert(s =~= sd + ev.last().1.patterns.map_values(
            |p: Seq<char>| (p, EntryId { category: ev.last().0, index: (ev.len() - 1) as usize }),
        ));
        assert(sd.take(pattern_sources(ev.take(k)).len() as int) =~= s.take(pattern_sources(ev.take(k)).len() as int));
        assert(sd.take(pattern_sources(ev.take(k + 1)).len() as int) =~= s.take(
            pattern_sources(ev.take(k + 1)).len() as int,
        ));
    }
}

/// Whether `id` names an entry of `ev`, of its own category.
pub open spec fn names_entry(ev: Seq<(Category, EntryView)>, id: EntryId) -> bool {
    id.index < ev.len() && ev[id.index as int].0 == id.category
}

proof fn lemma_sources_ids_below(ev: Seq<(Category, EntryView)>)
    requires
        ev.len() <= usize::MAX,
    ensures
        forall|j: int| 0 <= j < pattern_sources(ev).len() ==> names_entry(ev, (#[trigger] pattern_sources(ev)[j]).1),
    decreases ev.len(),
{
    if ev.len() > 0 {
        let d = ev.drop_last();
        lemma_sources_ids_below(d);
        let rest = pattern_sources(d);
        let here = ev.last().1.patterns.map_values(
            |p: Seq<char>| (p, EntryId { category: ev.last().0, index: (ev.len() - 1) as usize }),
        );
        assert forall|j: int| 0 <= j < pattern_sources(ev).len() implies names_entry(ev, (#[trigger] pattern_sources(ev)[j]).1) by {
            if j < rest.len() {
                assert(pattern_sources(ev)[j] == rest[j]);
                assert(names_entry(d, rest[j].1));
                assert(ev[rest[j].1.index as int] == d[rest[j].1.index as int]);
            } else {
                assert(pattern_sources(ev)[j] == here[j - rest.len()]);
            }
        }
    }
}

proof fn lemma_filed_within(srcs: Seq<(Seq<char>, EntryId)>, ev: Seq<(Category, EntryView)>)
    requires
        forall|j: int| 0 <= j < srcs.len() ==> names_entry(ev, (#[trigger] srcs[j]).1),
    ensures
        forall|j: int| 0 <= j < filed(srcs).len() ==> names_entry(ev, (#[trigger] filed(srcs)[j]).1),
    decreases srcs.len(),
{
    if srcs.len() > 0 {
        lemma_filed_within(srcs.drop_last(), ev);
        let rest = filed(srcs.drop_last());
        assert forall|j: int| 0 <= j < filed(srcs).len() implies names_entry(ev, (#[trigger] filed(srcs)[j]).1) by {
            if j < rest.len() {
                assert(filed(srcs)[j] == rest[j]);
            } else {
                assert(srcs.last() == srcs[srcs.len() - 1]);
            }
        }
    }
}

// ------------------------------------------------------------ classification

/// A line without trailing whitespace and colons: `on join:` is matched as
/// `on join`.
pub open spec fn line_code(line: Seq<char>) -> Seq<char> {
    let a = trim_end(line);
    let b = a.take(a.len() - trail_by(a, one_of(':', ':')));
    trim_end(b)
}

/// The matches of `s`, scored and best first, with the entries they belong to.
pub open spec fn ranked_for(c: CatalogView, s: Seq<char>) -> Seq<(int, EntryId, Seq<CaptureView>)> {
    ranked(scored(c.patterns, c.ids, s, candidates_upto(c.keys, tokens_of(s), c.keys.len() as int)))
}

/// Whether `id` names an entry that an addon provides.
pub open spec fn from_addon(c: CatalogView, id: EntryId) -> bool {
    id.index < c.entries.len() && c.entries[id.index as int].0 == id.category
        && c.entries[id.index as int].1.addon is Some
}

/// Whether `id` names an entry of Skript itself.
pub open spec fn from_core(c: CatalogView, id: EntryId) -> bool {
    id.index < c.entries.len() && c.entries[id.index as int].0 == id.category
        && c.entries[id.index as int].1.addon is None
}

/// The best match of `category` from position `i` on, given the best so far:
/// a strictly higher score wins; at an equal score Skript's own syntax
/// displaces an addon's, which has to be more specific to outrank it.
pub open spec fn pick_from(
    c: CatalogView,
    rk: Seq<(int, EntryId, Seq<CaptureView>)>,
    category: Category,
    i: int,
    best: Option<(int, EntryId, Seq<CaptureView>)>,
) -> Option<(int, EntryId, Seq<CaptureView>)>
    decreases rk.len() - i,
{
    if i < 0 || i >= rk.len() {
        best
    } else {
        let x = rk[i];
        let next = if x.1.category != category {
            best
        } else {
            match best {
                None => Some(x),
                Some(b) => if x.0 > b.0 {
                    Some(x)
                } else if x.0 == b.0 && from_addon(c, b.1) && from_core(c, x.1) {
                    Some(x)
                } else {
                    best
                },
            }
        };
        pick_from(c, rk, category, i + 1, next)
    }
}

/// The best match of `category` for `s`.
pub open spec fn best_of(c: CatalogView, s: Seq<char>, category: Category) -> Option<(EntryId, Seq<CaptureView>)> {
    match pick_from(c, ranked_for(c, s), category, 0, None) {
        Some(x) => Some((x.1, x.2)),
        None => None,
    }
}

/// The first match from `j` on whose category is in `tier`.
pub open spec fn first_in_tier(rk: Seq<(EntryId, Seq<CaptureView>)>, tier: Seq<Category>, j: int) -> Option<int>
    decreases rk.len() - j,
{
    if j < 0 || j >= rk.len() {
        None
    } else if tier.contains(rk[j].0.category) {
        Some(j)
    } else {
        first_in_tier(rk, tier, j + 1)
    }
}

/// The best match of the first tier from `t` on that has one.
pub open spec fn tier_choice(rk: Seq<(EntryId, Seq<CaptureView>)>, tiers: Seq<Seq<Category>>, t: int) -> Option<
    (EntryId, Seq<CaptureView>),
>
    decreases tiers.len() - t,
{
    if t < 0 || t >= tiers.len() {
        None
    } else {
        match first_in_tier(rk, tiers[t], 0) {
            Some(j) => Some(rk[j]),
            None => tier_choice(rk, tiers, t + 1),
        }
    }
}

/// Captures moved `by` bytes to the right.
pub open spec fn shifted(caps: Seq<CaptureView>, by: int) -> Seq<CaptureView> {
    caps.map_values(|x: CaptureView| CaptureView { start: x.start + by, end: x.end + by, ..x })
}

/// The event a line names once Skript's `on ...` wrapper is taken off, with
/// its captures shifted back onto the line.
pub open spec fn event_choice(c: CatalogView, code: Seq<char>) -> Option<(EntryId, Seq<CaptureView>)> {
    match event_wrapper(code) {
        Some((bare, at)) => match best_of(c, bare, Category::Event) {
            Some((id, caps)) => Some((id, shifted(caps, byte_len(code.take(at)) as int))),
            None => None,
        },
        None => None,
    }
}

/// How a whole line is classified in its role. A line that the role allows
/// to be an event is first tried, without Skript's `on ...` wrapper, against
/// the events alone, its captures shifted back onto the line; otherwise the
/// line's matches are filtered tier by tier, best first.
pub open spec fn classification(c: CatalogView, line: Seq<char>, role: LineRole) -> Option<(EntryId, Seq<CaptureView>)> {
    let code = line_code(line);
    let by_event = if role_allows(role, Category::Event) {
        event_choice(c, code)
    } else {
        None
    };
    if by_event is Some {
        by_event
    } else {
        tier_choice(unscored(ranked_for(c, code)), tiers_of(role), 0)
    }
}

pub open spec fn classified_view(r: Option<(EntryId, Match)>) -> Option<(EntryId, Seq<CaptureView>)> {
    match r {
        Some((id, m)) => Some((id, captures_view(m.captures@))),
        None => None,
    }
}

// ------------------------------------------------------------ lemmas

/// Captures that point into `s` and follow one another in its order.
pub open spec fn sound_caps(s: Seq<char>, caps: Seq<CaptureView>) -> bool {
    all_point_into(s, caps) && crate::matcher::ordered_from(caps, 0)
}

proof fn lemma_non_space_concat(a: Seq<char>, b: Seq<char>)
    ensures
        non_space(a + b) == non_space(a) + non_space(b),
    decreases b.len(),
{
    if b.len() == 0 {
        assert(a + b =~= a);
    } else {
        assert((a + b).drop_last() =~= a + b.drop_last());
        lemma_non_space_concat(a, b.drop_last());
    }
}

proof fn lemma_non_space_nonneg(s: Seq<char>)
    ensures
        non_space(s) >= 0,
    decreases s.len(),
{
    if s.len() > 0 {
        lemma_non_space_nonneg(s.drop_last());
    }
}

/// A piece of a line has no more non-space bytes than the line, so every
/// pattern with room to score the line has room to score the piece.
pub proof fn lemma_room_in_piece(ps: Seq<Seq<NodeView>>, s: Seq<char>, a: int, b: int)
    requires
        0 <= a <= b <= s.len(),
        forall|i: int| 0 <= i < ps.len() ==> score_room(#[trigger] ps[i], s),
    ensures
        forall|i: int| 0 <= i < ps.len() ==> score_room(#[trigger] ps[i], s.subrange(a, b)),
{
    let x = s.take(a);
    let y = s.subrange(a, b);
    let z = s.skip(b);
    assert(s =~= x + y + z);
    lemma_non_space_concat(x + y, z);
    lemma_non_space_concat(x, y);
    lemma_non_space_nonneg(x);
    lemma_non_space_nonneg(z);
}

proof fn lemma_trail_by_bounds(s: Seq<char>, p: spec_fn(char) -> bool)
    ensures
        trail_by(s, p) <= s.len(),
    decreases s.len(),
{
    if s.len() > 0 {
        lemma_trail_by_bounds(s.drop_last(), p);
    }
}

proof fn lemma_code_is_prefix(line: Seq<char>)
    ensures
        line_code(line).len() <= line.len(),
        line_code(line) == line.take(line_code(line).len() as int),
{
    crate::strings::lemma_trail_bounds(line);
    let a = trim_end(line);
    crate::strings::lemma_trail_bounds(a);
    let b = a.take(a.len() - trail_by(a, one_of(':', ':')));
    lemma_trail_by_bounds(a, one_of(':', ':'));
    crate::strings::lemma_trail_bounds(b);
    assert(line_code(line) =~= line.take(line_code(line).len() as int));
}

proof fn lemma_scored_point_into(ps: Seq<Seq<NodeView>>, ids: Seq<EntryId>, s: Seq<char>, cands: Seq<int>)
    ensures
        forall|j: int| 0 <= j < scored(ps, ids, s, cands).len() ==> sound_caps(s, (#[trigger] scored(ps, ids, s, cands)[j]).2),
    decreases cands.len(),
{
    if cands.len() > 0 {
        lemma_scored_point_into(ps, ids, s, cands.drop_last());
        crate::matcher::lemma_captures_point_into_the_line(s, ps[cands.last()]);
        crate::matcher::lemma_captures_are_ordered(s, ps[cands.last()]);
        let prev = scored(ps, ids, s, cands.drop_last());
        assert forall|j: int| 0 <= j < scored(ps, ids, s, cands).len() implies sound_caps(
            s,
            (#[trigger] scored(ps, ids, s, cands)[j]).2,
        ) by {
            if j < prev.len() {
                assert(scored(ps, ids, s, cands)[j] == prev[j]);
            }
        }
    }
}

proof fn lemma_ranked_point_into(s: Seq<char>, xs: Seq<(int, EntryId, Seq<CaptureView>)>)
    requires
        forall|j: int| 0 <= j < xs.len() ==> sound_caps(s, (#[trigger] xs[j]).2),
    ensures
        forall|j: int| 0 <= j < ranked(xs).len() ==> sound_caps(s, (#[trigger] ranked(xs)[j]).2),
        ranked(xs).len() == xs.len(),
    decreases xs.len(),
{
    if xs.len() > 0 {
        assert forall|j: int| 0 <= j < xs.drop_last().len() implies sound_caps(s, (#[trigger] xs.drop_last()[j]).2) by {
            assert(xs.drop_last()[j] == xs[j]);
        }
        lemma_ranked_point_into(s, xs.drop_last());
        let acc = ranked(xs.drop_last());
        let x = xs.last();
        lemma_first_below(acc, x.0);
        let k = first_below(acc, x.0);
        let out = insert_ranked(acc, x);
        assert(out =~= acc.take(k).push(x) + acc.skip(k));
        assert forall|j: int| 0 <= j < out.len() implies sound_caps(s, (#[trigger] out[j]).2) by {
            if j < k {
                assert(out[j] == acc[j]);
            } else if j == k {
                assert(out[j] == x);
            } else {
                assert(out[j] == acc[j - 1]);
            }
        }
    }
}

proof fn lemma_ranked_for_point_into(c: CatalogView, s: Seq<char>)
    ensures
        forall|j: int| 0 <= j < ranked_for(c, s).len() ==> sound_caps(s, (#[trigger] ranked_for(c, s)[j]).2),
{
    let cands = candidates_upto(c.keys, tokens_of(s), c.keys.len() as int);
    lemma_scored_point_into(c.patterns, c.ids, s, cands);
    lemma_ranked_point_into(s, scored(c.patterns, c.ids, s, cands));
}

proof fn lemma_pick_point_into(
    c: CatalogView,
    s: Seq<char>,
    rk: Seq<(int, EntryId, Seq<CaptureView>)>,
    category: Category,
    i: int,
    best: Option<(int, EntryId, Seq<CaptureView>)>,
)
    requires
        forall|j: int| 0 <= j < rk.len() ==> sound_caps(s, (#[trigger] rk[j]).2),
        best matches Some(b) ==> sound_caps(s, b.2),
    ensures
        pick_from(c, rk, category, i, best) matches Some(b) ==> sound_caps(s, b.2),
    decreases rk.len() - i,
{
    if 0 <= i < rk.len() {
        let x = rk[i];
        let next = if x.1.category != category {
            best
        } else {
            match best {
                None => Some(x),
                Some(b) => if x.0 > b.0 {
                    Some(x)
                } else if x.0 == b.0 && from_addon(c, b.1) && from_core(c, x.1) {
                    Some(x)
                } else {
                    best
                },
            }
        };
        lemma_pick_point_into(c, s, rk, category, i + 1, next);
    }
}

/// A capture that points into `s` ends within its bytes.
proof fn lemma_capture_within(s: Seq<char>, x: CaptureView)
    requires
        points_into(s, x),
    ensures
        0 <= x.start <= x.end <= byte_len(s),
{
    let (a, b) = choose|a: int, b: int|
        0 <= a <= b <= s.len() && x.text == #[trigger] s.subrange(a, b) && x.start == byte_len(s.take(a))
            && x.end == byte_len(s.take(b));
    lemma_byte_len_prefix(s, b);
    lemma_byte_len_prefix(s.take(b), a);
    assert(s.take(b).take(a) =~= s.take(a));
}

proof fn lemma_rfind_from_bounds(s: Seq<char>, pat: Seq<char>, i: int)
    ensures
        crate::catalog::rfind_from(s, pat, i) matches Some(k) ==> 0 <= k <= s.len() && k < i,
    decreases i,
{
    if i > 0 {
        lemma_rfind_from_bounds(s, pat, i - 1);
    }
}

/// The bare event text lies inside the line at the index the wrapper gives.
proof fn lemma_wrapper_within(line: Seq<char>)
    ensures
        event_wrapper(line) matches Some((bare, at)) ==> 0 <= at && at + bare.len() <= line.len() && bare
            == line.subrange(at, at + bare.len()),
{
    if let Some((bare, at)) = event_wrapper(line) {
        let lower = crate::strings::lower_seq(line);
        let off = "on "@.len() + crate::catalog::modifier_len(lower.skip("on "@.len() as int));
        let rest = line.skip(off as int);
        let b0 = match crate::catalog::rfind(lower.skip(off as int), " with priority "@) {
            Some(k) => rest.take(k),
            None => rest,
        };
        crate::strings::lemma_lead_bounds(b0);
        let t0 = b0.skip(lead(b0) as int);
        crate::strings::lemma_trail_bounds(t0);
        assert(bare == trim_end(t0));
        assert(at == off + lead(b0));
        assert(lower.len() == line.len());
        let r3 = lower.skip("on "@.len() as int);
        assert(crate::catalog::modifier_len(r3) <= r3.len());
        assert(off <= line.len());
        match crate::catalog::rfind(lower.skip(off as int), " with priority "@) {
            Some(k) => {
                lemma_rfind_from_bounds(lower.skip(off as int), " with priority "@, lower.skip(off as int).len() + 1int);
                assert(b0.len() <= rest.len());
            },
            None => {},
        }
        assert(off + b0.len() <= line.len());
        assert(bare =~= line.subrange(at, at + bare.len()));
    }
}

proof fn lemma_point_into_prefix(s: Seq<char>, m: int, x: CaptureView)
    requires
        0 <= m <= s.len(),
        points_into(s.take(m), x),
    ensures
        points_into(s, x),
{
    let t = s.take(m);
    let (a, b) = choose|a: int, b: int|
        0 <= a <= b <= t.len() && x.text == #[trigger] t.subrange(a, b) && x.start == byte_len(t.take(a))
            && x.end == byte_len(t.take(b));
    assert(t.subrange(a, b) =~= s.subrange(a, b));
    assert(t.take(a) =~= s.take(a));
    assert(t.take(b) =~= s.take(b));
    assert(x.text == s.subrange(a, b) && x.start == byte_len(s.take(a)) && x.end == byte_len(s.take(b)));
}

proof fn lemma_point_into_shift(code: Seq<char>, at: int, bare: Seq<char>, x: CaptureView)
    requires
        0 <= at,
        at + bare.len() <= code.len(),
        bare == code.subrange(at, at + bare.len()),
        points_into(bare, x),
    ensures
        points_into(
            code,
            CaptureView { start: x.start + byte_len(code.take(at)), end: x.end + byte_len(code.take(at)), ..x },
        ),
{
    let (a, b) = choose|a: int, b: int|
        0 <= a <= b <= bare.len() && x.text == #[trigger] bare.subrange(a, b) && x.start == byte_len(bare.take(a))
            && x.end == byte_len(bare.take(b));
    let y = CaptureView { start: x.start + byte_len(code.take(at)), end: x.end + byte_len(code.take(at)), ..x };
    assert(code.take(at + a) =~= code.take(at) + bare.take(a));
    assert(code.take(at + b) =~= code.take(at) + bare.take(b));
    lemma_byte_len_append(code.take(at), bare.take(a));
    lemma_byte_len_append(code.take(at), bare.take(b));
    assert(bare.subrange(a, b) =~= code.subrange(at + a, at + b));
    assert(y.text == code.subrange(at + a, at + b) && y.start == byte_len(code.take(at + a)) && y.end == byte_len(
        code.take(at + b),
    ));
}

proof fn lemma_tier_choice_sound(s: Seq<char>, rk: Seq<(EntryId, Seq<CaptureView>)>, tiers: Seq<Seq<Category>>, t: int)
    requires
        forall|j: int| 0 <= j < rk.len() ==> sound_caps(s, (#[trigger] rk[j]).1),
    ensures
        tier_choice(rk, tiers, t) matches Some(x) ==> sound_caps(s, x.1),
    decreases tiers.len() - t,
{
    if 0 <= t < tiers.len() {
        lemma_first_in_tier_bounds(rk, tiers[t], 0);
        lemma_tier_choice_sound(s, rk, tiers, t + 1);
    }
}

proof fn lemma_first_in_tier_bounds(rk: Seq<(EntryId, Seq<CaptureView>)>, tier: Seq<Category>, j: int)
    ensures
        first_in_tier(rk, tier, j) matches Some(k) ==> 0 <= k < rk.len(),
    decreases rk.len() - j,
{
    if 0 <= j < rk.len() && !tier.contains(rk[j].0.category) {
        lemma_first_in_tier_bounds(rk, tier, j + 1);
    }
}

/// What classifying a line captures points into that line, in its order.
pub proof fn lemma_classification_sound(c: CatalogView, line: Seq<char>, role: LineRole)
    ensures
        classification(c, line, role) matches Some(x) ==> sound_caps(line, x.1),
{
    let code = line_code(line);
    lemma_code_is_prefix(line);
    let m = code.len() as int;
    if let Some(x) = classification(c, line, role) {
        let by_event = if role_allows(role, Category::Event) {
            event_choice(c, code)
        } else {
            None
        };
        let caps = x.1;
        if by_event is Some {
            lemma_wrapper_within(code);
            let (bare, at) = event_wrapper(code).unwrap();
            lemma_ranked_for_point_into(c, bare);
            lemma_pick_point_into(c, bare, ranked_for(c, bare), Category::Event, 0, None);
            let inner = pick_from(c, ranked_for(c, bare), Category::Event, 0, None).unwrap().2;
            let off = byte_len(code.take(at)) as int;
            assert(caps == shifted(inner, off));
            assert forall|j: int| 0 <= j < caps.len() implies points_into(line, #[trigger] caps[j]) by {
                assert(inner[j] == inner[j]);
                lemma_point_into_shift(code, at, bare, inner[j]);
                assert(caps[j] == CaptureView { start: inner[j].start + off, end: inner[j].end + off, ..inner[j] });
                assert(line.take(m) == code);
                lemma_point_into_prefix(line, m, caps[j]);
            }
            assert(crate::matcher::ordered_from(caps, 0)) by {
                assert forall|j: int| 0 <= j < caps.len() implies 0 <= (#[trigger] caps[j]).start < caps[j].end by {
                    assert(caps[j].start == inner[j].start + off);
                }
                assert forall|j: int, k: int| 0 <= j < k < caps.len() implies (#[trigger] caps[j]).end <= (
                #[trigger] caps[k]).start by {
                    assert(caps[j].end == inner[j].end + off);
                    assert(caps[k].start == inner[k].start + off);
                    assert(inner[j].end <= inner[k].start);
                }
            }
        } else {
            let rk = unscored(ranked_for(c, code));
            lemma_ranked_for_point_into(c, code);
            assert forall|j: int| 0 <= j < rk.len() implies sound_caps(code, (#[trigger] rk[j]).1) by {
                assert(rk[j].1 == ranked_for(c, code)[j].2);
            }
            lemma_tier_choice_sound(code, rk, tiers_of(role), 0);
            assert forall|j: int| 0 <= j < caps.len() implies points_into(line, #[trigger] caps[j]) by {
                assert(line.take(m) == code);
                lemma_point_into_prefix(line, m, caps[j]);
            }
        }
    }
}

proof fn lemma_scored_ids(c: CatalogView, s: Seq<char>, cands: Seq<int>)
    requires
        c.ids.len() == c.patterns.len(),
        forall|i: int| 0 <= i < c.ids.len() ==> names_entry(c.entries, #[trigger] c.ids[i]),
        forall|j: int| 0 <= j < cands.len() ==> 0 <= #[trigger] cands[j] < c.ids.len(),
    ensures
        forall|j: int| 0 <= j < scored(c.patterns, c.ids, s, cands).len() ==> names_entry(
            c.entries,
            (#[trigger] scored(c.patterns, c.ids, s, cands)[j]).1,
        ),
    decreases cands.len(),
{
    if cands.len() > 0 {
        assert forall|j: int| 0 <= j < cands.drop_last().len() implies 0 <= #[trigger] cands.drop_last()[j] < c.ids.len() by {
            assert(cands.drop_last()[j] == cands[j]);
        }
        lemma_scored_ids(c, s, cands.drop_last());
        let prev = scored(c.patterns, c.ids, s, cands.drop_last());
        let all = scored(c.patterns, c.ids, s, cands);
        assert(0 <= cands.last() < c.ids.len()) by {
            assert(cands.last() == cands[cands.len() - 1]);
        }
        assert forall|j: int| 0 <= j < all.len() implies names_entry(c.entries, (#[trigger] all[j]).1) by {
            if j < prev.len() {
                assert(all[j] == prev[j]);
            }
        }
    }
}

proof fn lemma_ranked_ids(c: CatalogView, xs: Seq<(int, EntryId, Seq<CaptureView>)>)
    requires
        forall|j: int| 0 <= j < xs.len() ==> names_entry(c.entries, (#[trigger] xs[j]).1),
    ensures
        forall|j: int| 0 <= j < ranked(xs).len() ==> names_entry(c.entries, (#[trigger] ranked(xs)[j]).1),
    decreases xs.len(),
{
    if xs.len() > 0 {
        assert forall|j: int| 0 <= j < xs.drop_last().len() implies names_entry(c.entries, (#[trigger] xs.drop_last()[j]).1) by {
            assert(xs.drop_last()[j] == xs[j]);
        }
        lemma_ranked_ids(c, xs.drop_last());
        let acc = ranked(xs.drop_last());
        let x = xs.last();
        lemma_first_below(acc, x.0);
        let k = first_below(acc, x.0);
        let out = insert_ranked(acc, x);
        assert(out =~= acc.take(k).push(x) + acc.skip(k));
        assert forall|j: int| 0 <= j < out.len() implies names_entry(c.entries, (#[trigger] out[j]).1) by {
            if j < k {
                assert(out[j] == acc[j]);
            } else if j == k {
                assert(out[j] == x);
            } else {
                assert(out[j] == acc[j - 1]);
            }
        }
    }
}

proof fn lemma_ranked_for_ids(c: CatalogView, s: Seq<char>)
    requires
        c.ids.len() == c.patterns.len(),
        c.keys.len() == c.patterns.len(),
        forall|i: int| 0 <= i < c.ids.len() ==> names_entry(c.entries, #[trigger] c.ids[i]),
    ensures
        forall|j: int| 0 <= j < ranked_for(c, s).len() ==> names_entry(c.entries, (#[trigger] ranked_for(c, s)[j]).1),
{
    let cands = candidates_upto(c.keys, tokens_of(s), c.keys.len() as int);
    crate::pattern_index::lemma_candidates_below(c.keys, tokens_of(s), c.keys.len() as int);
    lemma_scored_ids(c, s, cands);
    lemma_ranked_ids(c, scored(c.patterns, c.ids, s, cands));
}

proof fn lemma_pick_category(
    c: CatalogView,
    rk: Seq<(int, EntryId, Seq<CaptureView>)>,
    category: Category,
    i: int,
    best: Option<(int, EntryId, Seq<CaptureView>)>,
)
    requires
        forall|j: int| 0 <= j < rk.len() ==> names_entry(c.entries, (#[trigger] rk[j]).1),
        best matches Some(b) ==> b.1.category == category && names_entry(c.entries, b.1),
    ensures
        pick_from(c, rk, category, i, best) matches Some(b) ==> b.1.category == category && names_entry(c.entries, b.1),
    decreases rk.len() - i,
{
    if 0 <= i < rk.len() {
        let x = rk[i];
        let next = if x.1.category != category {
            best
        } else {
            match best {
                None => Some(x),
                Some(b) => if x.0 > b.0 {
                    Some(x)
                } else if x.0 == b.0 && from_addon(c, b.1) && from_core(c, x.1) {
                    Some(x)
                } else {
                    best
                },
            }
        };
        lemma_pick_category(c, rk, category, i + 1, next);
    }
}

proof fn lemma_tier_choice_allowed(
    c: CatalogView,
    rk: Seq<(EntryId, Seq<CaptureView>)>,
    role: LineRole,
    t: int,
)
    requires
        forall|j: int| 0 <= j < rk.len() ==> names_entry(c.entries, (#[trigger] rk[j]).0),
    ensures
        tier_choice(rk, tiers_of(role), t) matches Some(x) ==> role_allows(role, x.0.category) && names_entry(
            c.entries,
            x.0,
        ),
    decreases tiers_of(role).len() - t,
{
    let tiers = tiers_of(role);
    if 0 <= t < tiers.len() {
        lemma_first_in_tier_bounds(rk, tiers[t], 0);
        lemma_first_in_tier_hit(rk, tiers[t], 0);
        lemma_tier_choice_allowed(c, rk, role, t + 1);
        if let Some(j) = first_in_tier(rk, tiers[t], 0) {
            assert(tiers[t].contains(rk[j].0.category));
        }
    }
}

proof fn lemma_first_in_tier_hit(rk: Seq<(EntryId, Seq<CaptureView>)>, tier: Seq<Category>, j: int)
    ensures
        first_in_tier(rk, tier, j) matches Some(k) ==> tier.contains(rk[k].0.category),
    decreases rk.len() - j,
{
    if 0 <= j < rk.len() && !tier.contains(rk[j].0.category) {
        lemma_first_in_tier_hit(rk, tier, j + 1);
    }
}

/// A line is never classified into a category its position rules out, and
/// what it is classified as is an entry of the catalog, of that category.
pub proof fn lemma_classify_line_respects_the_role(catalog: &Catalog, line: Seq<char>, role: LineRole)
    requires
        catalog.wf(),
    ensures
        classification(catalog@, line, role) matches Some(x) ==> role_allows(role, x.0.category) && x.0.index
            < catalog@.entries.len() && catalog@.entries[x.0.index as int].0 == x.0.category,
{
    let c = catalog@;
    assert(c.keys.len() == c.patterns.len());
    let code = line_code(line);
    if let Some(x) = classification(c, line, role) {
        let by_event = if role_allows(role, Category::Event) {
            event_choice(c, code)
        } else {
            None
        };
        if by_event is Some {
            let (bare, at) = event_wrapper(code).unwrap();
            lemma_ranked_for_ids(c, bare);
            lemma_pick_category(c, ranked_for(c, bare), Category::Event, 0, None);
        } else {
            lemma_ranked_for_ids(c, code);
            let rk = unscored(ranked_for(c, code));
            assert forall|j: int| 0 <= j < rk.len() implies names_entry(c.entries, (#[trigger] rk[j]).0) by {
                assert(rk[j].0 == ranked_for(c, code)[j].1);
            }
            lemma_tier_choice_allowed(c, rk, role, 0);
        }
    }
}

// ------------------------------------------------------------ the queries

fn shift_captures(m: Match, by: usize) -> (out: Match)
    requires
        forall|j: int| 0 <= j < m.captures@.len() ==> (#[trigger] m.captures@[j]).start + by <= usize::MAX
            && m.captures@[j].end + by <= usize::MAX,
    ensures
        captures_view(out.captures@) == shifted(captures_view(m.captures@), by as int),
{
    let ghost given = m.captures@;
    let mut rest = m.captures;
    let mut out: Vec<SlotCapture> = Vec::new();
    let mut k: usize = 0;
    let n = rest.len();
    while rest.len() > 0
        invariant
            rest@ == given.skip(k as int),
            k + rest@.len() == n == given.len(),
            forall|j: int| 0 <= j < given.len() ==> (#[trigger] given[j]).start + by <= usize::MAX
                && given[j].end + by <= usize::MAX,
            captures_view(out@) == shifted(captures_view(given.take(k as int)), by as int),
        decreases rest@.len(),
    {
        let mut c = rest.remove(0);
        assert(c == given[k as int]);
        c.start = c.start + by;
        c.end = c.end + by;
        let ghost before = out@;
        out.push(c);
        proof {
            assert(rest@ =~= given.skip(k + 1));
            assert(captures_view(given.take(k + 1)) =~= captures_view(given.take(k as int)).push(
                crate::matcher::capture_view(given[k as int]),
            ));
            assert(captures_view(out@) =~= captures_view(before).push(crate::matcher::capture_view(c)));
            assert(captures_view(out@) =~= shifted(captures_view(given.take(k + 1)), by as int));
        }
        k += 1;
    }
    assert(given.take(k as int) =~= given);
    Match { captures: out }
}

fn tier_has(tier: &Vec<Category>, c: Category) -> (b: bool)
    ensures
        b == tier@.contains(c),
{
    let mut i: usize = 0;
    while i < tier.len()
        invariant
            i <= tier@.len(),
            forall|j: int| 0 <= j < i ==> tier@[j] != c,
        decreases tier@.len() - i,
    {
        if tier[i] == c {
            assert(tier@[i as int] == c);
            return true;
        }
        i += 1;
    }
    false
}

impl Catalog {
    fn is_addon(&self, id: EntryId) -> (b: bool)
        ensures
            b == from_addon(self@, id),
    {
        match self.entry(id) {
            Some(e) => e.addon.is_some(),
            None => false,
        }
    }

    fn is_core(&self, id: EntryId) -> (b: bool)
        ensures
            b == from_core(self@, id),
    {
        match self.entry(id) {
            Some(e) => e.addon.is_none(),
            None => false,
        }
    }

    /// The best match of `category` for `line`, ranked by specificity; an
    /// addon has to be more specific than Skript's own syntax to outrank it.
    fn best_in(&self, line: &str, category: Category) -> (r: Option<(EntryId, Match)>)
        requires
            self.wf(),
            byte_len(line@) <= usize::MAX,
            forall|i: int| 0 <= i < self@.patterns.len() ==> score_room(#[trigger] self@.patterns[i], line@),
        ensures
            classified_view(r) == best_of(self@, line@, category),
    {
        let mut found = self.index.matches_scored(line);
        let ghost rk = ranked_view(found@);
        assert(rk == ranked_for(self@, line@));
        let mut best: Option<usize> = None;
        let mut top: i32 = 0;
        let mut i: usize = 0;
        while i < found.len()
            invariant
                i <= found@.len(),
                rk == ranked_view(found@),
                rk == ranked_for(self@, line@),
                best matches Some(b) ==> b < i && top as int == rk[b as int].0,
                pick_from(self@, rk, category, 0, None) == pick_from(
                    self@,
                    rk,
                    category,
                    i as int,
                    match best {
                        Some(b) => Some(rk[b as int]),
                        None => None,
                    },
                ),
            decreases found@.len() - i,
        {
            let score = found[i].0;
            let id = *found[i].1;
            assert(rk[i as int].0 == score as int && rk[i as int].1 == id);
            if id.category == category {
                match best {
                    None => {
                        best = Some(i);
                        top = score;
                    },
                    Some(b) => {
                        if score > top {
                            best = Some(i);
                            top = score;
                        } else if score == top {
                            let incumbent = *found[b].1;
                            assert(rk[b as int].1 == incumbent);
                            if self.is_addon(incumbent) && self.is_core(id) {
                                best = Some(i);
                                top = score;
                            }
                        }
                    },
                }
            }
            i += 1;
        }
        match best {
            Some(b) => {
                let ghost x = rk[b as int];
                let (_, id, m) = found.remove(b);
                assert(x.1 == *id && x.2 == captures_view(m.captures@));
                Some((*id, m))
            },
            None => None,
        }
    }

    /// The event `code` names once Skript's `on ...` wrapper is taken off.
    fn event_in(&self, code: &Vec<char>) -> (r: Option<(EntryId, Match)>)
        requires
            self.wf(),
            byte_len(code@) <= usize::MAX,
            forall|i: int| 0 <= i < self@.patterns.len() ==> score_room(#[trigger] self@.patterns[i], code@),
        ensures
            classified_view(r) == event_choice(self@, code@),
    {
        let ghost c = self@;
        proof {
            lemma_wrapper_within(code@);
        }
        match strip_event_wrapper(code) {
            Some((bare, offset)) => {
                let ghost at = event_wrapper(code@).unwrap().1;
                proof {
                    lemma_room_in_piece(self@.patterns, code@, at, at + bare@.len());
                    let x = code@.take(at);
                    let z = code@.skip(at + bare@.len());
                    assert(code@ =~= x + bare@ + z);
                    lemma_byte_len_append(x + bare@, z);
                    lemma_byte_len_append(x, bare@);
                    assert(code@.subrange(at, at + bare@.len()) == bare@);
                }
                let text = string_of(&bare);
                match self.best_in(text.as_str(), Category::Event) {
                    Some((id, m)) => {
                        proof {
                            lemma_ranked_for_point_into(c, bare@);
                            lemma_pick_point_into(c, bare@, ranked_for(c, bare@), Category::Event, 0, None);
                            assert forall|j: int| 0 <= j < m.captures@.len() implies (#[trigger] m.captures@[j]).start
                                + offset <= usize::MAX && m.captures@[j].end + offset <= usize::MAX by {
                                assert(captures_view(m.captures@)[j] == crate::matcher::capture_view(m.captures@[j]));
                                lemma_capture_within(bare@, captures_view(m.captures@)[j]);
                            }
                        }
                        let moved = shift_captures(m, offset);
                        Some((id, moved))
                    },
                    None => None,
                }
            },
            None => None,
        }
    }

    /// The best match of the first tier of `role` that has one.
    fn tiered(&self, code: &Vec<char>, role: LineRole) -> (r: Option<(EntryId, Match)>)
        requires
            self.wf(),
            byte_len(code@) <= usize::MAX,
            forall|i: int| 0 <= i < self@.patterns.len() ==> score_room(#[trigger] self@.patterns[i], code@),
        ensures
            classified_view(r) == tier_choice(unscored(ranked_for(self@, code@)), tiers_of(role), 0),
    {
        let code_text = string_of(code);
        let mut found = self.index.matches(code_text.as_str());
        let ghost rk = pairs_view(found@);
        assert(rk == unscored(ranked_for(self@, code@)));
        let tiers = role.tiers();
        let ghost ts = tiers_of(role);
        let mut t: usize = 0;
        while t < tiers.len()
            invariant
                t <= tiers@.len(),
                ts == tiers_of(role),
                crate::catalog::category_vecs_view(tiers@) == ts,
                ts.len() == tiers@.len(),
                rk == pairs_view(found@),
                rk == unscored(ranked_for(self@, code@)),
                tier_choice(rk, ts, 0) == tier_choice(rk, ts, t as int),
            decreases tiers@.len() - t,
        {
            assert(tiers@[t as int]@ == ts[t as int]);
            let mut j: usize = 0;
            while j < found.len()
                invariant
                    t < tiers@.len(),
                    ts.len() == tiers@.len(),
                    j <= found@.len(),
                    tiers@[t as int]@ == ts[t as int],
                    tier_choice(rk, ts, 0) == tier_choice(rk, ts, t as int),
                    rk == unscored(ranked_for(self@, code@)),
                    ts == tiers_of(role),
                    rk == pairs_view(found@),
                    first_in_tier(rk, ts[t as int], 0) == first_in_tier(rk, ts[t as int], j as int),
                decreases found@.len() - j,
            {
                let category = found[j].0.category;
                assert(rk[j as int].0.category == category);
                if tier_has(&tiers[t], category) {
                    let ghost x = rk[j as int];
                    assert(ts[t as int].contains(category));
                    assert(first_in_tier(rk, ts[t as int], j as int) == Some(j as int));
                    assert(tier_choice(rk, ts, t as int) == Some(x));
                    let (id, m) = found.remove(j);
                    assert(x == (*id, captures_view(m.captures@)));
                    return Some((*id, m));
                }
                j += 1;
            }
            assert(first_in_tier(rk, ts[t as int], found@.len() as int) is None);
            assert(tier_choice(rk, ts, t as int) == tier_choice(rk, ts, t + 1));
            t += 1;
        }
        None
    }

    /// Classifies a whole line, using its position in the script to rule out
    /// the categories that cannot explain it.
    pub fn classify_line(&self, line: &str, role: LineRole) -> (r: Option<(EntryId, Match)>)
        requires
            self.wf(),
            byte_len(line@) <= usize::MAX,
            forall|i: int| 0 <= i < self@.patterns.len() ==> score_room(#[trigger] self@.patterns[i], line@),
        ensures
            classified_view(r) == classification(self@, line@, role),
    {
        let chars = chars_of(line);
        let a = slice(&chars, 0, trail_index(&chars, 0, chars.len()));
        proof {
            assert(chars@.subrange(0, chars@.len() as int) =~= chars@);
            crate::strings::lemma_trail_bounds(chars@);
            assert(a@ =~= trim_end(line@));
        }
        let b = strip_trailing(&a, ':', ':');
        let code = slice(&b, 0, trail_index(&b, 0, b.len()));
        proof {
            assert(b@.subrange(0, b@.len() as int) =~= b@);
            assert(code@ =~= line_code(line@));
            lemma_code_is_prefix(line@);
            lemma_byte_len_prefix(line@, code@.len() as int);
            lemma_room_in_piece(self@.patterns, line@, 0, code@.len() as int);
            assert(line@.subrange(0, code@.len() as int) =~= code@);
        }
        if role.allows(Category::Event) {
            let found = self.event_in(&code);
            if found.is_some() {
                return found;
            }
        }
        self.tiered(&code, role)
    }
}

// ------------------------------------------------------------ hover

/// The note an entry needs when the target version predates it: `None` when
/// there is no target, no parsed minimum, or the minimum is not newer.
pub open spec fn availability_note(target: Option<Version>, e: EntryView) -> Option<Seq<char>> {
    match (target, e.min_version) {
        (Some(t), Some(m)) => if version_lt(t, m) {
            Some("needs Skript "@ + display_version(m) + "+"@)
        } else {
            None
        },
        _ => None,
    }
}

/// The line of a hover card that names the addon an entry comes from, with
/// the version it needs and whether the server lacks it.
pub open spec fn addon_note(e: EntryView, installed: Seq<Seq<char>>, known: bool) -> Option<Seq<char>> {
    match e.addon {
        Some(a) => {
            let label = if a.url.len() == 0 {
                a.name
            } else {
                "["@ + a.name + "]("@ + a.url + ")"@
            };
            let version = match a.since_version {
                Some(v) => " ≥ "@ + v,
                None => Seq::empty(),
            };
            let present = exists|k: int| 0 <= k < installed.len() && eq_ignore_case(#[trigger] installed[k], a.name);
            let missing = if known && !present {
                " — not installed"@
            } else {
                Seq::empty()
            };
            Some("from "@ + label + version + missing)
        },
        None => None,
    }
}

/// The text of a line that hover describes: trimmed, trailing colons off.
pub open spec fn hover_code(line: Seq<char>) -> Seq<char> {
    let t = trim(line);
    t.take(t.len() - trail_by(t, one_of(':', ':')))
}

/// The role a line's indentation gives it.
pub open spec fn role_of(line: Seq<char>) -> LineRole {
    if lead(line) == 0 {
        LineRole::TopLevel
    } else {
        LineRole::Statement
    }
}

/// The hover card for the syntax a whole line resolves to: the entry's card,
/// under its availability and addon notes when it has any.
pub open spec fn hover_of(c: CatalogView, target: Option<Version>, line: Seq<char>, installed: Seq<Seq<char>>, known: bool) -> Option<
    Seq<char>,
> {
    match classification(c, hover_code(line), role_of(line)) {
        Some((id, _)) => if id.index < c.entries.len() && c.entries[id.index as int].0 == id.category {
            let e = c.entries[id.index as int].1;
            let text = rendered(id.category, e);
            let n1: Seq<Seq<char>> = match availability_note(target, e) {
                Some(n) => seq!["⚠️ "@ + n],
                None => Seq::empty(),
            };
            let n2: Seq<Seq<char>> = match addon_note(e, installed, known) {
                Some(n) => seq![n],
                None => Seq::empty(),
            };
            let notes = n1 + n2;
            if notes.len() == 0 {
                Some(text)
            } else {
                Some(crate::docs::joined(notes, " · "@) + "\n\n"@ + text)
            }
        } else {
            None
        },
        None => None,
    }
}

proof fn lemma_hover_code_is_piece(line: Seq<char>)
    ensures
        lead(line) + hover_code(line).len() <= line.len(),
        hover_code(line) == line.subrange(lead(line) as int, (lead(line) + hover_code(line).len()) as int),
{
    crate::strings::lemma_lead_bounds(line);
    let a = trim_start(line);
    crate::strings::lemma_trail_bounds(a);
    let t = trim(line);
    lemma_trail_by_bounds(t, one_of(':', ':'));
    assert(hover_code(line) =~= line.subrange(lead(line) as int, (lead(line) + hover_code(line).len()) as int));
}

impl Catalog {
    /// Records the Skript version the user targets. It labels syntax that
    /// needs something newer and never hides it.
    pub fn with_target_version(self, version: Option<Version>) -> (c: Catalog)
        requires
            self.wf(),
        ensures
            c.wf(),
            c@ == self@,
            c.target_version_spec() == version,
            c.unparsable_patterns() == self.unparsable_patterns(),
    {
        Catalog { entries: self.entries, index: self.index, unparsable: self.unparsable, target: version }
    }

    pub closed spec fn target_version_spec(&self) -> Option<Version> {
        self.target
    }

    pub fn target_version(&self) -> (v: Option<Version>)
        ensures
            v == self.target_version_spec(),
    {
        self.target
    }

    /// The hover card of the entry `id` names.
    pub fn hover(&self, id: EntryId) -> (r: Option<String>)
        ensures
            match r {
                Some(text) => id.index < self@.entries.len() && self@.entries[id.index as int].0 == id.category
                    && text@ == rendered(id.category, self@.entries[id.index as int].1),
                None => !(id.index < self@.entries.len() && self@.entries[id.index as int].0 == id.category),
            },
    {
        match self.entry(id) {
            Some(e) => Some(render(id.category, e)),
            None => None,
        }
    }

    /// How the entry's availability should be described, if at all.
    pub fn availability(&self, id: EntryId) -> (r: Option<String>)
        ensures
            match r {
                Some(text) => id.index < self@.entries.len() && self@.entries[id.index as int].0 == id.category
                    && availability_note(self.target_version_spec(), self@.entries[id.index as int].1) == Some(text@),
                None => !(id.index < self@.entries.len() && self@.entries[id.index as int].0 == id.category)
                    || availability_note(self.target_version_spec(), self@.entries[id.index as int].1) is None,
            },
    {
        let target = match self.target {
            Some(t) => t,
            None => return None,
        };
        let entry = match self.entry(id) {
            Some(e) => e,
            None => return None,
        };
        let minimum = match entry.min_version {
            Some(m) => m,
            None => return None,
        };
        if target.lt(&minimum) {
            let mut out: Vec<char> = Vec::new();
            append_str(&mut out, "needs Skript ");
            let shown = minimum.to_string();
            append_str(&mut out, shown.as_str());
            append_str(&mut out, "+");
            Some(string_of(&out))
        } else {
            None
        }
    }
}

fn addon_note_of(e: &Entry, installed: &Vec<String>, known: bool) -> (r: Option<Vec<char>>)
    ensures
        match r {
            Some(t) => addon_note(e@, strings_view(installed@), known) == Some(t@),
            None => addon_note(e@, strings_view(installed@), known) is None,
        },
{
    match &e.addon {
        Some(a) => {
            let mut out: Vec<char> = Vec::new();
            append_str(&mut out, "from ");
            let url = chars_of(a.url.as_str());
            if url.len() == 0 {
                append_str(&mut out, a.name.as_str());
            } else {
                append_str(&mut out, "[");
                append_str(&mut out, a.name.as_str());
                append_str(&mut out, "](");
                append_chars(&mut out, &url);
                append_str(&mut out, ")");
            }
            match &a.since_version {
                Some(v) => {
                    append_str(&mut out, " ≥ ");
                    append_str(&mut out, v.as_str());
                },
                None => {},
            }
            let name = chars_of(a.name.as_str());
            let mut present = false;
            let mut k: usize = 0;
            while k < installed.len()
                invariant
                    k <= installed@.len(),
                    name@ == a.name@,
                    present == exists|m: int| 0 <= m < k && eq_ignore_case(#[trigger] strings_view(installed@)[m], a.name@),
                decreases installed@.len() - k,
            {
                let here = chars_of(installed[k].as_str());
                if eq_ignore_case_chars(&here, &name) {
                    present = true;
                }
                proof {
                    assert(strings_view(installed@)[k as int] == installed@[k as int]@);
                }
                k += 1;
            }
            if known && !present {
                append_str(&mut out, " — not installed");
            }
            Some(out)
        },
        None => None,
    }
}

/// The hover card for the syntax `line` resolves to in `catalog`, for a
/// server whose installed addons are `installed` (`known` says whether that
/// list could be read at all).
pub fn hover_text(catalog: &Catalog, line: &str, installed: &Vec<String>, known: bool) -> (r: Option<String>)
    requires
        catalog.wf(),
        byte_len(line@) <= usize::MAX,
        forall|i: int| 0 <= i < catalog@.patterns.len() ==> score_room(#[trigger] catalog@.patterns[i], line@),
    ensures
        match r {
            Some(t) => hover_of(catalog@, catalog.target_version_spec(), line@, strings_view(installed@), known) == Some(t@),
            None => hover_of(catalog@, catalog.target_version_spec(), line@, strings_view(installed@), known) is None,
        },
{
    let chars = chars_of(line);
    let start = lead_index(&chars, 0, chars.len());
    let end = trail_index(&chars, start, chars.len());
    let t = slice(&chars, start, end);
    let code = strip_trailing(&t, ':', ':');
    proof {
        assert(chars@.subrange(0, chars@.len() as int) =~= chars@);
        assert(t@ =~= trim(line@)) by {
            crate::strings::lemma_lead_bounds(line@);
            assert(chars@.subrange(start as int, chars@.len() as int) =~= trim_start(line@));
        }
        assert(code@ == hover_code(line@));
        lemma_hover_code_is_piece(line@);
        let a = lead(line@) as int;
        lemma_room_in_piece(catalog@.patterns, line@, a, a + code@.len());
        lemma_byte_len_prefix(line@.skip(a), code@.len() as int);
        assert(line@.skip(a).take(code@.len() as int) =~= code@);
        lemma_byte_len_append(line@.take(a), line@.skip(a));
        assert(line@ =~= line@.take(a) + line@.skip(a));
    }
    let role = if start == 0 {
        LineRole::TopLevel
    } else {
        LineRole::Statement
    };
    let code_text = string_of(&code);
    let id = match catalog.classify_line(code_text.as_str(), role) {
        Some((id, _)) => id,
        None => return None,
    };
    let text = match catalog.hover(id) {
        Some(text) => text,
        None => return None,
    };
    let entry = match catalog.entry(id) {
        Some(e) => e,
        None => return None,
    };
    let mut notes: Vec<Vec<char>> = Vec::new();
    match catalog.availability(id) {
        Some(note) => {
            let mut line_note: Vec<char> = Vec::new();
            append_str(&mut line_note, "⚠️ ");
            append_str(&mut line_note, note.as_str());
            notes.push(line_note);
        },
        None => {},
    }
    match addon_note_of(entry, installed, known) {
        Some(note) => notes.push(note),
        None => {},
    }
    proof {
        let e = catalog@.entries[id.index as int].1;
        let n1: Seq<Seq<char>> = match availability_note(catalog.target_version_spec(), e) {
            Some(n) => seq!["⚠️ "@ + n],
            None => Seq::empty(),
        };
        let n2: Seq<Seq<char>> = match addon_note(e, strings_view(installed@), known) {
            Some(n) => seq![n],
            None => Seq::empty(),
        };
        assert(crate::docs::char_vecs(notes@) =~= n1 + n2);
    }
    if notes.len() == 0 {
        Some(text)
    } else {
        let mut out: Vec<char> = Vec::new();
        crate::docs::append_joined(&mut out, &notes, " · ");
        append_str(&mut out, "\n\n");
        append_str(&mut out, text.as_str());
        Some(string_of(&out))
    }
}

// ------------------------------------------------------------ diagnostics

/// Whether a declaration of this kind sits on a structure's entry line, such
/// as `description:` in a command or `prefix:` in `options:`: such lines are
/// entries, not statements, and no syntax pattern can explain them.
pub open spec fn entry_kind(kind: SymbolKind) -> bool {
    kind is Entry || kind is Option || kind is Alias || kind is GlobalVariable || kind is LocalVariable
}

pub open spec fn entry_line(flat: Seq<Symbol>, n: int) -> bool {
    exists|k: int| 0 <= k < flat.len() && entry_kind((#[trigger] flat[k]).kind) && flat[k].range.start.line == n
}

/// A line no syntax check looks at: blank, a comment, prose inside a `###`
/// block, or a structure's entry.
pub open spec fn passed_over(ls: Seq<Seq<char>>, flat: Seq<Symbol>, n: int) -> bool {
    let t = trim(ls[n]);
    t.len() == 0 || t[0] == '#' || is_prose(ls, n) || entry_line(flat, n as int)
}

pub open spec fn deprecation_message(e: EntryView) -> Seq<char> {
    "`"@ + e.name + "` is deprecated."@ + match e.deprecation_note {
        Some(note) => " "@ + note,
        None => Seq::empty(),
    }
}

pub open spec fn missing_addon_message(addon: Seq<char>, since: Option<Seq<char>>) -> Seq<char> {
    "This is `"@ + addon + "` syntax, and `"@ + addon + "`"@ + match since {
        Some(v) => " "@ + v + " or newer"@,
        None => Seq::empty(),
    } + " is not installed on this server."@
}

pub open spec fn unknown_syntax_message() -> Seq<char> {
    "This line does not match any known syntax. If it comes from an addon, add it to your server or list it in `addons`."@
}

/// The addon, and the version of it, whose syntax a line is in a catalog of
/// addons the server does not have.
pub open spec fn addon_from(u: Option<CatalogView>, code: Seq<char>, role: LineRole) -> Option<(Seq<char>, Option<Seq<char>>)> {
    match u {
        Some(uc) => match classification(uc, code, role) {
            Some((id, _)) => if id.index < uc.entries.len() && uc.entries[id.index as int].0 == id.category {
                match uc.entries[id.index as int].1.addon {
                    Some(a) => Some((a.name, a.since_version)),
                    None => None,
                }
            } else {
                None
            },
            None => None,
        },
        None => None,
    }
}

/// What the catalog says of line `n`, whose text is `raw`: deprecated syntax,
/// syntax of an addon the server lacks, or, when asked for, syntax nothing
/// explains.
pub open spec fn line_finding(c: CatalogView, u: Option<CatalogView>, options: Options, raw: Seq<char>, n: int) -> Option<DiagnosticView> {
    let code = hover_code(raw);
    let role = role_of(raw);
    let range = Range {
        start: Position { line: n as u32, character: byte_len(raw.take(lead(raw) as int)) as u32 },
        end: Position { line: n as u32, character: byte_len(trim_end(raw)) as u32 },
    };
    match classification(c, code, role) {
        Some((id, _)) => if options.deprecated_syntax && id.index < c.entries.len() && c.entries[id.index as int].0
            == id.category && c.entries[id.index as int].1.deprecated {
            Some(finding(range, Severity::Warning, deprecation_message(c.entries[id.index as int].1), "deprecated-syntax"@))
        } else {
            None
        },
        None => match addon_from(u, code, role) {
            Some((addon, since)) => Some(
                finding(range, Severity::Warning, missing_addon_message(addon, since), "requires-addon"@),
            ),
            None => if options.unknown_syntax {
                Some(finding(range, Severity::Hint, unknown_syntax_message(), "unknown-syntax"@))
            } else {
                None
            },
        },
    }
}

pub open spec fn catalog_findings_upto(
    c: CatalogView,
    u: Option<CatalogView>,
    options: Options,
    ls: Seq<Seq<char>>,
    flat: Seq<Symbol>,
    n: int,
) -> Seq<DiagnosticView>
    decreases n,
{
    if n <= 0 {
        Seq::empty()
    } else {
        let rest = catalog_findings_upto(c, u, options, ls, flat, n - 1);
        if passed_over(ls, flat, n - 1) {
            rest
        } else {
            match line_finding(c, u, options, ls[n - 1], n - 1) {
                Some(d) => rest.push(d),
                None => rest,
            }
        }
    }
}

pub open spec fn catalog_view_option(u: Option<&Catalog>) -> Option<CatalogView> {
    match u {
        Some(x) => Some(x@),
        None => None,
    }
}

/// Every line the catalogs have something to say about, in order.
pub open spec fn catalog_findings(text: Seq<char>, symbols: Seq<Symbol>, c: CatalogView, u: Option<CatalogView>, options: Options) -> Seq<
    DiagnosticView,
> {
    let ls = lines_of(text);
    catalog_findings_upto(c, u, options, ls, flatten(symbols), ls.len() as int)
}

/// Whether every line fits a protocol position and every pattern of
/// `patterns` has room to score it.
pub open spec fn lines_fit(text: Seq<char>, patterns: Seq<Seq<NodeView>>) -> bool {
    &&& lines_of(text).len() <= u32::MAX
    &&& forall|n: int| 0 <= n < lines_of(text).len() ==> byte_len(#[trigger] lines_of(text)[n]) <= u32::MAX
    &&& forall|n: int, i: int|
        0 <= n < lines_of(text).len() && 0 <= i < patterns.len() ==> score_room(
            #[trigger] patterns[i],
            #[trigger] lines_of(text)[n],
        )
}

fn on_entry_line(flat: &Vec<&Symbol>, n: u32) -> (b: bool)
    ensures
        b == entry_line(derefs(flat@), n as int),
{
    let ghost f = derefs(flat@);
    let mut k: usize = 0;
    while k < flat.len()
        invariant
            k <= flat@.len(),
            f == derefs(flat@),
            f.len() == flat@.len(),
            forall|j: int| 0 <= j < k ==> !(entry_kind((#[trigger] f[j]).kind) && f[j].range.start.line == n),
        decreases flat@.len() - k,
    {
        let s = flat[k];
        assert(f[k as int] == *s);
        if (s.kind == SymbolKind::Entry || s.kind == SymbolKind::Option || s.kind == SymbolKind::Alias
            || s.kind == SymbolKind::GlobalVariable || s.kind == SymbolKind::LocalVariable) && s.range.start.line == n {
            return true;
        }
        k += 1;
    }
    false
}

proof fn line_room(c: CatalogView, text: Seq<char>, n: int)
    requires
        lines_fit(text, c.patterns),
        0 <= n < lines_of(text).len(),
    ensures
        forall|i: int| 0 <= i < c.patterns.len() ==> score_room(#[trigger] c.patterns[i], lines_of(text)[n]),
{
}

/// What the catalogs say of one line `raw`, numbered `line_no`, whose
/// trimmed text is `trimmed`, running from `a` to `b`.
#[verifier::rlimit(40)]
fn check_line(
    catalog: &Catalog,
    uninstalled: Option<&Catalog>,
    options: Options,
    trimmed: &Vec<char>,
    raw: &Vec<char>,
    a: usize,
    b: usize,
    line_no: u32,
    out: &mut Vec<Diagnostic>,
)
    requires
        catalog.wf(),
        uninstalled matches Some(x) ==> x.wf(),
        a == lead(raw@),
        b <= raw@.len(),
        raw@.len() - b == trail(raw@.subrange(a as int, raw@.len() as int)),
        a <= b,
        trimmed@ == trim(raw@),
        trimmed@ == raw@.subrange(a as int, b as int),
        byte_len(raw@) <= u32::MAX,
        forall|i: int| 0 <= i < catalog@.patterns.len() ==> score_room(#[trigger] catalog@.patterns[i], raw@),
        uninstalled matches Some(x) ==> forall|i: int| 0 <= i < x@.patterns.len() ==> score_room(#[trigger] x@.patterns[i], raw@),
    ensures
        diagnostics_view(final(out)@) == diagnostics_view(old(out)@) + match line_finding(
            catalog@,
            catalog_view_option(uninstalled),
            options,
            raw@,
            line_no as int,
        ) {
            Some(d) => seq![d],
            None => Seq::<DiagnosticView>::empty(),
        },
{
    let ghost r = raw@;
    let ghost c = catalog@;
    let ghost start = diagnostics_view(out@);
    let code = strip_trailing(trimmed, ':', ':');
    assert(code@ == hover_code(r));
    proof {
        lemma_hover_code_is_piece(r);
        let q = lead(r) as int;
        lemma_room_in_piece(c.patterns, r, q, q + code@.len());
        assert(r.subrange(q, q + code@.len()) == code@);
        lemma_byte_len_prefix(r.skip(q), code@.len() as int);
        assert(r.skip(q).take(code@.len() as int) =~= code@);
        lemma_byte_len_append(r.take(q), r.skip(q));
        assert(r =~= r.take(q) + r.skip(q));
        assert(byte_len(r) <= u32::MAX);
        lemma_byte_len_prefix(r, q);
    }
    let role = if a == 0 {
        LineRole::TopLevel
    } else {
        LineRole::Statement
    };
    let e = trail_index(raw, 0, raw.len());
    proof {
        assert(r.subrange(0, r.len() as int) =~= r);
        assert(trim_end(r) =~= r.take(e as int));
        lemma_byte_len_prefix(r, e as int);
    }
    let indent = byte_offset(raw, a) as u32;
    let end = byte_offset(raw, e) as u32;
    let range = Range {
        start: Position { line: line_no, character: indent },
        end: Position { line: line_no, character: end },
    };
    let ghost u = catalog_view_option(uninstalled);
    let ghost want = line_finding(c, u, options, r, line_no as int);
    assert(role == role_of(r));
    assert(range == Range {
        start: Position { line: line_no as int as u32, character: byte_len(r.take(lead(r) as int)) as u32 },
        end: Position { line: line_no as int as u32, character: byte_len(trim_end(r)) as u32 },
    });
    let code_text = string_of(&code);
    match catalog.classify_line(code_text.as_str(), role) {
        Some((id, _)) => {
            if options.deprecated_syntax {
                match catalog.entry(id) {
                    Some(entry) => {
                        if entry.deprecated {
                            let mut message: Vec<char> = Vec::new();
                            append_str(&mut message, "`");
                            append_str(&mut message, entry.name.as_str());
                            append_str(&mut message, "` is deprecated.");
                            match &entry.deprecation_note {
                                Some(note) => {
                                    append_str(&mut message, " ");
                                    append_str(&mut message, note.as_str());
                                },
                                None => {},
                            }
                            assert(message@ =~= deprecation_message(entry@));
                            assert(want == Some(finding(range, Severity::Warning, message@, "deprecated-syntax"@)));
                            push_finding(out, range, Severity::Warning, message, "deprecated-syntax");
                        }
                    },
                    None => {},
                }
            }
        },
        None => {
            let mut from_addon: Option<(String, Option<String>)> = None;
            match uninstalled {
                Some(rest) => {
                    proof {
                        lemma_room_in_piece(rest@.patterns, r, lead(r) as int, (lead(r) + code@.len()) as int);
                    }
                    match rest.classify_line(code_text.as_str(), role) {
                        Some((id, _)) => match rest.entry(id) {
                            Some(entry) => match &entry.addon {
                                Some(addon) => {
                                    let since = match &addon.since_version {
                                        Some(v) => Some(v.clone()),
                                        None => None,
                                    };
                                    from_addon = Some((addon.name.clone(), since));
                                },
                                None => {},
                            },
                            None => {},
                        },
                        None => {},
                    }
                },
                None => {},
            }
            assert(match from_addon {
                Some((x, sv)) => addon_from(u, code@, role) == Some((x@, crate::docs::string_option_view(sv))),
                None => addon_from(u, code@, role) is None,
            });
            match from_addon {
                Some((addon, since)) => {
                    let mut message: Vec<char> = Vec::new();
                    append_str(&mut message, "This is `");
                    append_str(&mut message, addon.as_str());
                    append_str(&mut message, "` syntax, and `");
                    append_str(&mut message, addon.as_str());
                    append_str(&mut message, "`");
                    match &since {
                        Some(v) => {
                            append_str(&mut message, " ");
                            append_str(&mut message, v.as_str());
                            append_str(&mut message, " or newer");
                        },
                        None => {},
                    }
                    append_str(&mut message, " is not installed on this server.");
                    assert(message@ =~= missing_addon_message(addon@, crate::docs::string_option_view(since)));
                    assert(want == Some(finding(range, Severity::Warning, message@, "requires-addon"@)));
                    push_finding(out, range, Severity::Warning, message, "requires-addon");
                },
                None => {
                    if options.unknown_syntax {
                        let message = chars_of(
                            "This line does not match any known syntax. If it comes from an addon, add it to your server or list it in `addons`.",
                        );
                        assert(want == Some(finding(range, Severity::Hint, message@, "unknown-syntax"@)));
                        push_finding(out, range, Severity::Hint, message, "unknown-syntax");
                    }
                },
            }
        },
    }
    proof {
        assert(diagnostics_view(out@) =~= start + match line_finding(c, catalog_view_option(uninstalled), options, r, line_no as int) {
            Some(d) => seq![d],
            None => Seq::<DiagnosticView>::empty(),
        });
    }
}

/// Reports, line by line, what the catalog of installed syntax and the
/// catalog of addons the server lacks say of a document.
pub fn check_catalog(
    document: &Document,
    catalog: &Catalog,
    uninstalled: Option<&Catalog>,
    options: Options,
    out: &mut Vec<Diagnostic>,
)
    requires
        catalog.wf(),
        lines_fit(document@.text, catalog@.patterns),
        uninstalled matches Some(u) ==> u.wf() && lines_fit(document@.text, u@.patterns),
    ensures
        diagnostics_view(final(out)@) == diagnostics_view(old(out)@) + catalog_findings(
            document@.text,
            document@.symbols.symbols@,
            catalog@,
            catalog_view_option(uninstalled),
            options,
        ),
{
    let text = document.text();
    let chars = chars_of(text);
    let ls = lines(&chars);
    let prose = block_comment_lines(text);
    let flat = document.symbols().flat();
    let ghost all = lines_of(text@);
    let ghost f = flatten(document@.symbols.symbols@);
    let ghost start = diagnostics_view(out@);
    let ghost c = catalog@;
    let ghost u = catalog_view_option(uninstalled);
    let mut n: usize = 0;
    while n < ls.len()
        invariant
            n <= ls@.len(),
            ls@.len() == all.len(),
            all == lines_of(document@.text),
            forall|i: int| 0 <= i < ls@.len() ==> #[trigger] ls@[i]@ == all[i],
            prose@.len() == all.len(),
            forall|i: int| 0 <= i < prose@.len() ==> #[trigger] prose@[i] == is_prose(all, i),
            derefs(flat@) == f,
            f == flatten(document@.symbols.symbols@),
            c == catalog@,
            u == catalog_view_option(uninstalled),
            catalog.wf(),
            lines_fit(document@.text, catalog@.patterns),
            uninstalled matches Some(x) ==> x.wf() && lines_fit(document@.text, x@.patterns),
            diagnostics_view(out@) == start + catalog_findings_upto(c, u, options, all, f, n as int),
        decreases ls@.len() - n,
    {
        let raw = &ls[n];
        let ghost r = all[n as int];
        assert(raw@ == r);
        proof {
            crate::strings::lemma_lead_bounds(r);
        }
        let a = lead_index(raw, 0, raw.len());
        let b = trail_index(raw, a, raw.len());
        let trimmed = slice(raw, a, b);
        proof {
            assert(raw@.subrange(0, raw@.len() as int) =~= raw@);
            assert(raw@.subrange(a as int, raw@.len() as int) =~= trim_start(r));
            assert(trimmed@ =~= trim(r));
        }
        let line_no = n as u32;
        let skip = trimmed.len() == 0 || trimmed[0] == '#' || prose[n] || on_entry_line(&flat, line_no);
        let ghost before = diagnostics_view(out@);
        if !skip {
            proof {
                line_room(c, document@.text, n as int);
                if let Some(x) = uninstalled {
                    line_room(x@, document@.text, n as int);
                }
            }
            check_line(catalog, uninstalled, options, &trimmed, raw, a, b, line_no, out);
        }
        proof {
            assert(skip == passed_over(all, f, n as int));
            assert(catalog_findings_upto(c, u, options, all, f, n + 1) == if passed_over(all, f, n as int) {
                catalog_findings_upto(c, u, options, all, f, n as int)
            } else {
                match line_finding(c, u, options, r, n as int) {
                    Some(d) => catalog_findings_upto(c, u, options, all, f, n as int).push(d),
                    None => catalog_findings_upto(c, u, options, all, f, n as int),
                }
            });
        }
        proof {
            assert(all.take(n + 1).drop_last() =~= all.take(n as int));
        }
        n += 1;
    }
}

// ------------------------------------------------------------ lookups

/// Whether an entry's name or one of its patterns contains `needle`,
/// ignoring ASCII case; every entry matches an empty needle.
pub open spec fn entry_matches(e: EntryView, needle: Seq<char>) -> bool {
    needle.len() == 0 || crate::index::contains_text(crate::strings::lower_seq(e.name), needle) || exists|j: int|
        0 <= j < e.patterns.len() && crate::index::contains_text(crate::strings::lower_seq(#[trigger] e.patterns[j]), needle)
}

/// The entries of `cat` among the first `k` that match `needle`, in order.
pub open spec fn searched(c: CatalogView, cat: Category, needle: Seq<char>, k: int) -> Seq<EntryId>
    decreases k,
{
    if k <= 0 {
        Seq::empty()
    } else {
        let rest = searched(c, cat, needle, k - 1);
        if c.entries[k - 1].0 == cat && entry_matches(c.entries[k - 1].1, needle) {
            rest.push(EntryId { category: cat, index: (k - 1) as usize })
        } else {
            rest
        }
    }
}

impl Catalog {
    /// Every match of `line`, best first, with the entry each belongs to.
    pub fn classify(&self, line: &str) -> (r: Vec<(EntryId, Match)>)
        requires
            self.wf(),
            byte_len(line@) <= usize::MAX,
            forall|i: int| 0 <= i < self@.patterns.len() ==> score_room(#[trigger] self@.patterns[i], line@),
        ensures
            r@.map_values(|x: (EntryId, Match)| (x.0, captures_view(x.1.captures@))) == unscored(ranked_for(self@, line@)),
    {
        let found = self.index.matches(line);
        let ghost want = pairs_view(found@);
        let mut rest = found;
        let mut out: Vec<(EntryId, Match)> = Vec::new();
        let n = rest.len();
        let mut k: usize = 0;
        while rest.len() > 0
            invariant
                want == pairs_view(found@),
                k + rest@.len() == n,
                n == want.len(),
                pairs_view(rest@) == want.skip(k as int),
                out@.map_values(|x: (EntryId, Match)| (x.0, captures_view(x.1.captures@))) == want.take(k as int),
            decreases rest@.len(),
        {
            let ghost before = out@;
            let ghost old_rest = rest@;
            let (id, m) = rest.remove(0);
            assert(want[k as int] == (*id, captures_view(m.captures@))) by {
                assert(want.skip(k as int)[0] == want[k as int]);
                assert(pairs_view(old_rest)[0] == (*old_rest[0].0, captures_view(old_rest[0].1.captures@)));
            }
            out.push((*id, m));
            proof {
                assert(rest@ =~= old_rest.subrange(1, old_rest.len() as int));
                assert forall|j: int| 0 <= j < pairs_view(rest@).len() implies pairs_view(rest@)[j] == want.skip(k + 1)[j] by {
                    assert(rest@[j] == old_rest[j + 1]);
                    assert(pairs_view(old_rest)[j + 1] == want.skip(k as int)[j + 1]);
                }
                assert(pairs_view(rest@) =~= want.skip(k + 1));
                assert(out@ == before.push((*id, m)));
                assert(out@.map_values(|x: (EntryId, Match)| (x.0, captures_view(x.1.captures@))) =~= before.map_values(
                    |x: (EntryId, Match)| (x.0, captures_view(x.1.captures@)),
                ).push((*id, captures_view(m.captures@))));
                assert(want.take(k + 1) =~= want.take(k as int).push(want[k as int]));
                assert(out@.map_values(|x: (EntryId, Match)| (x.0, captures_view(x.1.captures@))) =~= want.take(k + 1));
            }
            k += 1;
        }
        assert(want.take(k as int) =~= want);
        out
    }

    /// The single best classification of `line`, whatever its role.
    pub fn classify_best(&self, line: &str) -> (r: Option<(EntryId, Match)>)
        requires
            self.wf(),
            byte_len(line@) <= usize::MAX,
            forall|i: int| 0 <= i < self@.patterns.len() ==> score_room(#[trigger] self@.patterns[i], line@),
        ensures
            match r {
                Some(x) => unscored(ranked_for(self@, line@)).len() > 0 && (x.0, captures_view(x.1.captures@))
                    == unscored(ranked_for(self@, line@))[0],
                None => unscored(ranked_for(self@, line@)).len() == 0,
            },
    {
        let mut all = self.classify(line);
        if all.len() == 0 {
            None
        } else {
            let ghost v = all@;
            let first = all.remove(0);
            assert(v[0] == first);
            Some(first)
        }
    }

    /// The entries of `category` whose name or patterns contain `query`,
    /// ignoring ASCII case; all of them for an empty query. Substring matching
    /// on purpose: the client does the fuzzy ranking.
    pub fn search(&self, category: Category, query: &str) -> (r: Vec<(EntryId, &Entry)>)
        ensures
            r@.map_values(|x: (EntryId, &Entry)| x.0) == searched(
                self@,
                category,
                crate::strings::lower_seq(query@),
                self@.entries.len() as int,
            ),
            forall|j: int| 0 <= j < r@.len() ==> (#[trigger] r@[j]).0.index < self@.entries.len() && r@[j].1@
                == self@.entries[r@[j].0.index as int].1,
    {
        let needle = crate::strings::lower_chars(&chars_of(query));
        let ghost c = self@;
        let mut out: Vec<(EntryId, &Entry)> = Vec::new();
        let mut k: usize = 0;
        while k < self.entries.len()
            invariant
                k <= self.entries@.len(),
                c == self@,
                c.entries.len() == self.entries@.len(),
                needle@ == crate::strings::lower_seq(query@),
                out@.map_values(|x: (EntryId, &Entry)| x.0) == searched(c, category, needle@, k as int),
                forall|j: int| 0 <= j < out@.len() ==> (#[trigger] out@[j]).0.index < c.entries.len() && out@[j].1@
                    == c.entries[out@[j].0.index as int].1,
            decreases self.entries@.len() - k,
        {
            let entry = &self.entries[k].1;
            assert(c.entries[k as int] == (self.entries@[k as int].0, entry@));
            if self.entries[k].0 == category {
                let mut hit = needle.len() == 0;
                if !hit {
                    let name = crate::strings::lower_chars(&chars_of(entry.name.as_str()));
                    hit = crate::index::contains_chars(&name, &needle);
                }
                let mut j: usize = 0;
                let ghost e = entry@;
                while !hit && j < entry.patterns.len()
                    invariant
                        j <= entry.patterns@.len(),
                        e == entry@,
                        e.patterns.len() == entry.patterns@.len(),
                        !hit ==> forall|m: int| 0 <= m < j ==> !crate::index::contains_text(
                            crate::strings::lower_seq(#[trigger] e.patterns[m]),
                            needle@,
                        ),
                        hit ==> entry_matches(e, needle@),
                        needle.len() == 0 ==> hit,
                        !hit ==> !crate::index::contains_text(crate::strings::lower_seq(e.name), needle@),
                    decreases entry.patterns@.len() - j,
                {
                    let p = crate::strings::lower_chars(&chars_of(entry.patterns[j].as_str()));
                    assert(e.patterns[j as int] == entry.patterns@[j as int]@);
                    if crate::index::contains_chars(&p, &needle) {
                        hit = true;
                    }
                    j += 1;
                }
                assert(hit == entry_matches(entry@, needle@));
                if hit {
                    let ghost before = out@;
                    out.push((EntryId { category, index: k }, entry));
                    assert(out@.map_values(|x: (EntryId, &Entry)| x.0) =~= before.map_values(|x: (EntryId, &Entry)| x.0).push(
                        EntryId { category, index: k },
                    ));
                }
            }
            k += 1;
        }
        out
    }
}

/// The entry a name finds, ignoring ASCII case, among the entries of the
/// first `t` categories in their usual order and, within category `t`, the
/// first `k` entries: the last one seen, as a table keyed by name keeps it.
pub open spec fn named_upto(c: CatalogView, cats: Seq<Category>, wanted: Seq<char>, t: int, k: int) -> Option<int>
    decreases t, k,
{
    if t <= 0 || t > cats.len() || k < 0 || k > c.entries.len() {
        None
    } else if k == 0 {
        named_upto(c, cats, wanted, t - 1, c.entries.len() as int)
    } else {
        let e = c.entries[k - 1];
        if e.0 == cats[t - 1] && e.1.name.len() > 0 && crate::strings::lower_seq(e.1.name) == wanted {
            Some(k - 1)
        } else {
            named_upto(c, cats, wanted, t, k - 1)
        }
    }
}

impl Catalog {
    /// How many patterns are filed.
    pub fn pattern_count(&self) -> (n: usize)
        ensures
            n == self@.patterns.len(),
    {
        self.index.len()
    }

    /// The entry called `name`, ignoring ASCII case; of several, the last in
    /// category order, then catalog order.
    pub fn find_by_name(&self, name: &str) -> (r: Option<(EntryId, &Entry)>)
        ensures
            match named_upto(
                self@,
                crate::catalog::all_categories(),
                crate::strings::lower_seq(name@),
                8,
                self@.entries.len() as int,
            ) {
                Some(k) => r matches Some((id, e)) && id == (EntryId { category: self@.entries[k].0, index: k as usize })
                    && e@ == self@.entries[k].1,
                None => r is None,
            },
    {
        let wanted = crate::strings::lower_chars(&chars_of(name));
        let cats = Category::all();
        let ghost c = self@;
        let ghost all = crate::catalog::all_categories();
        let n = self.entries.len();
        let mut t: usize = 8;
        while t > 0
            invariant
                t <= 8,
                cats@ == all,
                all == crate::catalog::all_categories(),
                all.len() == 8,
                c == self@,
                n == c.entries.len(),
                n == self.entries@.len(),
                wanted@ == crate::strings::lower_seq(name@),
                named_upto(c, all, wanted@, 8, n as int) == named_upto(c, all, wanted@, t as int, n as int),
            decreases t,
        {
            let cat = cats[t - 1];
            let mut k: usize = n;
            while k > 0
                invariant
                    0 < t <= 8,
                    k <= n,
                    cats@ == all,
                    all == crate::catalog::all_categories(),
                    all.len() == 8,
                    cat == all[t - 1],
                    c == self@,
                    n == c.entries.len(),
                    n == self.entries@.len(),
                    wanted@ == crate::strings::lower_seq(name@),
                    named_upto(c, all, wanted@, 8, n as int) == named_upto(c, all, wanted@, t as int, k as int),
                decreases k,
            {
                let entry = &self.entries[k - 1];
                assert(c.entries[k - 1] == (entry.0, entry.1@));
                if entry.0 == cat {
                    let here = chars_of(entry.1.name.as_str());
                    if here.len() > 0 && crate::strings::chars_eq(&crate::strings::lower_chars(&here), &wanted) {
                        assert(named_upto(c, all, wanted@, t as int, k as int) == Some(k - 1));
                        assert(named_upto(self@, crate::catalog::all_categories(), crate::strings::lower_seq(name@), 8, self@.entries.len() as int) == Some(k - 1));
                        assert(self@.entries[k - 1].0 == cat);
                        assert(self@.entries[k - 1].1 == entry.1@);
                        let found = (EntryId { category: cat, index: k - 1 }, &entry.1);
                        assert(found.0 == (EntryId { category: self@.entries[k - 1].0, index: (k - 1) as usize }));
                        return Some(found);
                    }
                }
                k -= 1;
            }
            assert(named_upto(c, all, wanted@, t as int, 0) == named_upto(c, all, wanted@, t - 1, n as int));
            t -= 1;
        }
        assert(named_upto(c, all, wanted@, 0, n as int) is None);
        None
    }
}

// ------------------------------------------------------------ completion

/// One syntax entry offered as a completion.
pub struct SyntaxCompletion {
    pub id: EntryId,
    /// The entry's documentation title.
    pub label: String,
    /// Where it comes from, its category and its first pattern, after any
    /// availability note.
    pub detail: String,
    /// The title and the pattern, so typing either finds it.
    pub filter_text: String,
    /// Skript's own syntax first, then addons', then what the target Skript
    /// cannot run.
    pub sort_text: String,
    /// The snippet that replaces what has been typed of the phrase.
    pub new_text: String,
    pub deprecated: bool,
}

pub struct CompletionView {
    pub id: EntryId,
    pub label: Seq<char>,
    pub detail: Seq<char>,
    pub filter_text: Seq<char>,
    pub sort_text: Seq<char>,
    pub new_text: Seq<char>,
    pub deprecated: bool,
}

pub open spec fn completion_view(c: SyntaxCompletion) -> CompletionView {
    CompletionView {
        id: c.id,
        label: c.label@,
        detail: c.detail@,
        filter_text: c.filter_text@,
        sort_text: c.sort_text@,
        new_text: c.new_text@,
        deprecated: c.deprecated,
    }
}

pub open spec fn completions_view(v: Seq<SyntaxCompletion>) -> Seq<CompletionView> {
    v.map_values(|c: SyntaxCompletion| completion_view(c))
}

/// The completion for entry `k`, of category `cat`, given what has been typed
/// of the phrase; `None` for an entry without a pattern.
pub open spec fn completion_of(c: CatalogView, target: Option<Version>, cat: Category, k: int, typed: Seq<char>) -> Option<CompletionView> {
    let e = c.entries[k].1;
    if e.patterns.len() == 0 {
        None
    } else {
        let pattern = e.patterns[0];
        let base = match e.addon {
            Some(a) => a.name + " · "@ + crate::catalog::category_label(cat),
            None => crate::catalog::category_label(cat),
        } + " · "@ + pattern;
        let note = availability_note(target, e);
        let detail = match note {
            Some(n) => n + " · "@ + base,
            None => base,
        };
        let rank = if note is Some {
            '3'
        } else if e.addon is None {
            '0'
        } else {
            '1'
        };
        Some(
            CompletionView {
                id: EntryId { category: cat, index: k as usize },
                label: e.name,
                detail,
                filter_text: crate::completion::filter_text(e.name, pattern),
                sort_text: seq![rank] + e.name,
                new_text: crate::completion::snippet(pattern, typed),
                deprecated: e.deprecated,
            },
        )
    }
}

/// The completions of the entries of `cat` among the first `k`, in order.
pub open spec fn category_completions(c: CatalogView, target: Option<Version>, cat: Category, k: int, typed: Seq<char>) -> Seq<
    CompletionView,
>
    decreases k,
{
    if k <= 0 {
        Seq::empty()
    } else {
        let rest = category_completions(c, target, cat, k - 1, typed);
        if c.entries[k - 1].0 == cat {
            match completion_of(c, target, cat, k - 1, typed) {
                Some(x) => rest.push(x),
                None => rest,
            }
        } else {
            rest
        }
    }
}

pub open spec fn completions_upto(c: CatalogView, target: Option<Version>, cats: Seq<Category>, n: int, typed: Seq<char>) -> Seq<
    CompletionView,
>
    decreases n,
{
    if n <= 0 {
        Seq::empty()
    } else {
        completions_upto(c, target, cats, n - 1, typed) + category_completions(
            c,
            target,
            cats[n - 1],
            c.entries.len() as int,
            typed,
        )
    }
}

/// Every entry that can appear where `prefix` ends, category by category as
/// the context allows them, each category's entries in catalog order.
pub open spec fn syntax_completions(c: CatalogView, target: Option<Version>, prefix: Seq<char>) -> Seq<CompletionView> {
    let cats = crate::editor::completion_categories(prefix);
    let typed = prefix.skip(crate::editor::fragment_chars(prefix));
    completions_upto(c, target, cats, cats.len() as int, typed)
}

impl Catalog {
    fn complete_entry(&self, cat: Category, k: usize, typed: &str) -> (r: Option<SyntaxCompletion>)
        requires
            k < self@.entries.len(),
            forall|j: int| 0 <= j < self@.entries.len() && self@.entries[j].1.patterns.len() > 0 ==> (#[trigger] self@.entries[j]).1.patterns[0].len() <= i32::MAX,
        ensures
            match r {
                Some(x) => completion_of(self@, self.target_version_spec(), cat, k as int, typed@) == Some(completion_view(x)),
                None => completion_of(self@, self.target_version_spec(), cat, k as int, typed@) is None,
            },
    {
        let entry = &self.entries[k].1;
        assert(self@.entries[k as int].1 == entry@);
        if entry.patterns.len() == 0 {
            return None;
        }
        let pattern = entry.patterns[0].as_str();
        assert(self@.entries[k as int].1.patterns[0] == pattern@);
        let mut detail: Vec<char> = Vec::new();
        let ghost note = availability_note(self.target, entry@);
        let mut base: Vec<char> = Vec::new();
        match &entry.addon {
            Some(a) => {
                append_str(&mut base, a.name.as_str());
                append_str(&mut base, " · ");
                append_str(&mut base, cat.label());
            },
            None => {
                append_str(&mut base, cat.label());
            },
        }
        append_str(&mut base, " · ");
        append_str(&mut base, pattern);
        let mut noted = false;
        match (self.target, entry.min_version) {
            (Some(t), Some(m)) => {
                if t.lt(&m) {
                    append_str(&mut detail, "needs Skript ");
                    let shown = m.to_string();
                    append_str(&mut detail, shown.as_str());
                    append_str(&mut detail, "+");
                    append_str(&mut detail, " · ");
                    noted = true;
                }
            },
            _ => {},
        }
        assert(noted == note is Some);
        append_chars(&mut detail, &base);
        let rank = if noted {
            '3'
        } else if entry.addon.is_none() {
            '0'
        } else {
            '1'
        };
        let mut sort: Vec<char> = Vec::new();
        sort.push(rank);
        append_str(&mut sort, entry.name.as_str());
        let result = SyntaxCompletion {
            id: EntryId { category: cat, index: k },
            label: entry.name.clone(),
            detail: string_of(&detail),
            filter_text: crate::completion::filter_text_for(entry.name.as_str(), pattern),
            sort_text: string_of(&sort),
            new_text: crate::completion::snippet_for_typed(pattern, typed),
            deprecated: entry.deprecated,
        };
        proof {
            assert(sort@ =~= seq![rank] + entry@.name);
            assert(completion_of(self@, self.target_version_spec(), cat, k as int, typed@) == Some(completion_view(result)));
        }
        Some(result)
    }
}

/// The syntax entries to offer where `prefix`, the text of the line before
/// the cursor, ends.
pub fn syntax_completions_for(catalog: &Catalog, prefix: &str) -> (out: Vec<SyntaxCompletion>)
    requires
        forall|j: int| 0 <= j < catalog@.entries.len() && catalog@.entries[j].1.patterns.len() > 0 ==> (#[trigger] catalog@.entries[j]).1.patterns[0].len() <= i32::MAX,
    ensures
        completions_view(out@) == syntax_completions(catalog@, catalog.target_version_spec(), prefix@),
{
    let cats = crate::editor::categories_for(prefix);
    let start = crate::editor::fragment_index(prefix);
    let chars = chars_of(prefix);
    let ghost k = crate::editor::fragment_chars(prefix@);
    let typed_chars = slice(&chars, start, chars.len());
    let typed = string_of(&typed_chars);
    assert(typed@ == prefix@.skip(k));
    let ghost c = catalog@;
    let ghost target = catalog.target_version_spec();
    let mut out: Vec<SyntaxCompletion> = Vec::new();
    let mut n: usize = 0;
    while n < cats.len()
        invariant
            n <= cats@.len(),
            c == catalog@,
            target == catalog.target_version_spec(),
            forall|j: int| 0 <= j < catalog@.entries.len() && catalog@.entries[j].1.patterns.len() > 0 ==> (#[trigger] catalog@.entries[j]).1.patterns[0].len() <= i32::MAX,
            completions_view(out@) == completions_upto(c, target, cats@, n as int, typed@),
        decreases cats@.len() - n,
    {
        let cat = cats[n];
        let ghost before = completions_view(out@);
        let mut k: usize = 0;
        while k < catalog.entries.len()
            invariant
                k <= catalog@.entries.len(),
                c == catalog@,
                target == catalog.target_version_spec(),
                catalog.entries@.len() == c.entries.len(),
                forall|j: int| 0 <= j < catalog@.entries.len() && catalog@.entries[j].1.patterns.len() > 0 ==> (#[trigger] catalog@.entries[j]).1.patterns[0].len() <= i32::MAX,
                completions_view(out@) == before + category_completions(c, target, cat, k as int, typed@),
            decreases catalog@.entries.len() - k,
        {
            assert(c.entries[k as int].0 == catalog.entries@[k as int].0);
            if catalog.entries[k].0 == cat {
                match catalog.complete_entry(cat, k, typed.as_str()) {
                    Some(item) => {
                        let ghost prev = out@;
                        out.push(item);
                        assert(completions_view(out@) =~= completions_view(prev).push(completion_view(item)));
                    },
                    None => {},
                }
            }
            k += 1;
        }
        n += 1;
    }
    out
}

proof fn lemma_findings_without_missing_catalog(
    c: CatalogView,
    options: Options,
    ls: Seq<Seq<char>>,
    flat: Seq<Symbol>,
    n: int,
)
    ensures
        forall|i: int| 0 <= i < catalog_findings_upto(c, None, options, ls, flat, n).len() ==> {
            let code = (#[trigger] catalog_findings_upto(c, None, options, ls, flat, n)[i]).code;
            code == "deprecated-syntax"@ || code == "unknown-syntax"@
        },
    decreases n,
{
    if n > 0 {
        lemma_findings_without_missing_catalog(c, options, ls, flat, n - 1);
    }
}

/// Without a catalog of the addons the server lacks (no `plugins/` folder
/// was found), no line is ever reported as needing an addon: every catalog
/// finding is deprecated syntax or syntax nothing explains.
pub proof fn lemma_no_addon_warning_without_a_missing_catalog(
    text: Seq<char>,
    symbols: Seq<Symbol>,
    c: CatalogView,
    options: Options,
)
    ensures
        forall|i: int| 0 <= i < catalog_findings(text, symbols, c, None, options).len() ==> {
            let code = (#[trigger] catalog_findings(text, symbols, c, None, options)[i]).code;
            &&& code != "requires-addon"@
            &&& (code == "deprecated-syntax"@ || code == "unknown-syntax"@)
        },
{
    let ls = lines_of(text);
    lemma_findings_without_missing_catalog(c, options, ls, flatten(symbols), ls.len() as int);
    reveal_strlit("requires-addon");
    reveal_strlit("deprecated-syntax");
    reveal_strlit("unknown-syntax");
    assert("requires-addon"@[0] != "deprecated-syntax"@[0]);
    assert("requires-addon"@[0] != "unknown-syntax"@[0]);
}


} // verus!
