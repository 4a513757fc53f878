//! Minimal position types: zero-based line/character positions and half-open
//! ranges between them. Characters are counted in Unicode scalar values within
//! a line; the protocol layer re-encodes them for the wire.
use vstd::prelude::*;

verus! {

/// A zero-based line/character position.
#[derive(Debug, Clone, Copy, PartialEq, Eq, Structural, PartialOrd, Ord, Default)]
pub struct Position {
    pub line: u32,
    pub character: u32,
}

/// Positions order by line, then by character.
pub open spec fn pos_lt(a: Position, b: Position) -> bool {
    a.line < b.line || (a.line == b.line && a.character < b.character)
}

pub open spec fn pos_le(a: Position, b: Position) -> bool {
    pos_lt(a, b) || a == b
}

/// The order on positions is a strict total order.
pub proof fn lemma_position_order(a: Position, b: Position, c: Position)
    ensures
        !pos_lt(a, a),
        pos_lt(a, b) ==> !pos_lt(b, a),
        pos_lt(a, b) && pos_lt(b, c) ==> pos_lt(a, c),
        a != b ==> (pos_lt(a, b) || pos_lt(b, a)),
{
}

impl Position {
    pub fn new(line: u32, character: u32) -> (p: Position)
        ensures
            p.line == line,
            p.character == character,
    {
        Position { line, character }
    }

    /// `self < other` in the order of positions.
    pub fn before(&self, other: &Position) -> (b: bool)
        ensures
            b == pos_lt(*self, *other),
    {
        self.line < other.line || (self.line == other.line && self.character < other.character)
    }

    /// `self <= other` in the order of positions.
    pub fn at_or_before(&self, other: &Position) -> (b: bool)
        ensures
            b == pos_le(*self, *other),
    {
        self.line < other.line || (self.line == other.line && self.character <= other.character)
    }
}

/// A half-open span.
#[derive(Debug, Clone, Copy, PartialEq, Eq, Structural, Default)]
pub struct Range {
    pub start: Position,
    pub end: Position,
}

pub open spec fn range_contains(r: Range, p: Position) -> bool {
    pos_le(r.start, p) && pos_lt(p, r.end)
}

pub open spec fn range_touches(r: Range, p: Position) -> bool {
    pos_le(r.start, p) && pos_le(p, r.end)
}

/// A range touches every position it contains, and one more: its end, when
/// it is not empty.
pub proof fn lemma_touches_is_contains_or_end(r: Range, p: Position)
    ensures
        range_contains(r, p) ==> range_touches(r, p),
        range_touches(r, p) <==> (range_contains(r, p) || (p == r.end && pos_le(r.start, r.end))),
        !range_contains(r, r.end),
{
}

impl Range {
    pub fn new(start: Position, end: Position) -> (r: Range)
        ensures
            r.start == start,
            r.end == end,
    {
        Range { start, end }
    }

    /// Whether `position` lies in `[start, end)`.
    pub fn contains(&self, position: Position) -> (b: bool)
        ensures
            b == range_contains(*self, position),
    {
        self.start.at_or_before(&position) && position.before(&self.end)
    }

    /// Whether `position` lies in `[start, end]`: inside the range or exactly
    /// at its end, which is what "the cursor is on this symbol" means when the
    /// caret is just past the last character.
    pub fn touches(&self, position: Position) -> (b: bool)
        ensures
            b == range_touches(*self, position),
    {
        self.start.at_or_before(&position) && position.at_or_before(&self.end)
    }
}

} // verus!
