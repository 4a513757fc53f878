//! Position conversion between the parse tree and the protocol.
//!
//! The parse tree counts a column in bytes of UTF-8. The protocol counts UTF-16
//! code units, unless client and server agree on UTF-8 when they start. Getting
//! this wrong shows up only on lines with non-ASCII text, such as `§` colour
//! codes and player-facing messages.
use vstd::prelude::*;

use crate::strings::{byte_len, chars_before, chars_eq, chars_of, char_len_utf8, one_of, slice, split_chars, split_on, strip_trailing, text_before, trail_by, utf8_len};
use crate::manifest::strings_view;
use crate::text::{Position, Range};

verus! {

/// Which encoding the client negotiated.
#[derive(Debug, Clone, Copy, PartialEq, Eq, Structural)]
pub enum Encoding {
    Utf8,
    Utf16,
}

/// Whether the client offers UTF-8 among its position encodings.
pub open spec fn offers_utf8(client: Option<Seq<Seq<char>>>) -> bool {
    match client {
        Some(kinds) => kinds.contains("utf-8"@),
        None => false,
    }
}

pub open spec fn encoding_name(e: Encoding) -> Seq<char> {
    match e {
        Encoding::Utf8 => "utf-8"@,
        Encoding::Utf16 => "utf-16"@,
    }
}

fn lists_utf8(kinds: &Vec<String>) -> (b: bool)
    ensures
        b == strings_view(kinds@).contains("utf-8"@),
{
    let utf8 = chars_of("utf-8");
    let ghost names = strings_view(kinds@);
    let mut i: usize = 0;
    while i < kinds.len()
        invariant
            i <= kinds@.len(),
            utf8@ == "utf-8"@,
            names == strings_view(kinds@),
            forall|j: int| 0 <= j < i ==> names[j] != "utf-8"@,
        decreases kinds@.len() - i,
    {
        let here = chars_of(kinds[i].as_str());
        if chars_eq(&here, &utf8) {
            assert(names[i as int] == "utf-8"@);
            return true;
        }
        i += 1;
    }
    false
}

impl Encoding {
    /// Picks UTF-8 when the client offers it, since it makes every conversion
    /// a no-op; otherwise the protocol's default, UTF-16.
    pub fn negotiate(client: Option<&Vec<String>>) -> (e: Encoding)
        ensures
            e == (if offers_utf8(match client {
                Some(kinds) => Some(strings_view(kinds@)),
                None => None,
            }) {
                Encoding::Utf8
            } else {
                Encoding::Utf16
            }),
    {
        match client {
            Some(kinds) => if lists_utf8(kinds) {
                Encoding::Utf8
            } else {
                Encoding::Utf16
            },
            None => Encoding::Utf16,
        }
    }

    /// The protocol's name for this encoding.
    pub fn kind(self) -> (name: &'static str)
        ensures
            name@ == encoding_name(self),
    {
        match self {
            Encoding::Utf8 => "utf-8",
            Encoding::Utf16 => "utf-16",
        }
    }
}

/// The number of UTF-16 code units that encode `c`.
pub open spec fn utf16_len(c: char) -> nat {
    if (c as u32) < 0x10000 {
        1
    } else {
        2
    }
}

pub open spec fn utf16_count(s: Seq<char>) -> nat
    decreases s.len(),
{
    if s.len() == 0 {
        0
    } else {
        utf16_count(s.drop_last()) + utf16_len(s.last())
    }
}

/// UTF-16 never needs more code units than UTF-8 needs bytes.
pub proof fn lemma_utf16_within_bytes(s: Seq<char>)
    ensures
        utf16_count(s) <= byte_len(s),
    decreases s.len(),
{
    if s.len() > 0 {
        lemma_utf16_within_bytes(s.drop_last());
    }
}

/// The lines of a text as the protocol sees them: split at `\n`, each without
/// its trailing `\r`s; a final newline leaves an empty last line.
pub open spec fn protocol_lines(text: Seq<char>) -> Seq<Seq<char>> {
    split_on(text, '\n').map_values(|l: Seq<char>| l.take(l.len() - trail_by(l, one_of('\r', '\r'))))
}

/// Line `n` of a text, as the protocol sees it; empty past the end.
pub open spec fn protocol_line(text: Seq<char>, n: int) -> Seq<char> {
    if 0 <= n < protocol_lines(text).len() {
        protocol_lines(text)[n]
    } else {
        Seq::empty()
    }
}

/// The largest character boundary of `text` at or below byte `index`.
pub open spec fn boundary_below(text: Seq<char>, index: int) -> nat {
    byte_len(text_before(text, index))
}

/// A byte column converted to the client's encoding.
pub open spec fn column_in(line: Seq<char>, byte: u32, encoding: Encoding) -> u32 {
    match encoding {
        Encoding::Utf8 => byte,
        Encoding::Utf16 => utf16_count(text_before(line, byte as int)) as u32,
    }
}

/// A document's lines, indexed once.
pub struct LineIndex {
    lines: Vec<Vec<char>>,
}

fn utf16_units(chars: &Vec<char>) -> (n: u64)
    requires
        byte_len(chars@) <= u32::MAX,
    ensures
        n == utf16_count(chars@),
{
    let mut n: u64 = 0;
    let mut i: usize = 0;
    while i < chars.len()
        invariant
            i <= chars@.len(),
            byte_len(chars@) <= u32::MAX,
            n == utf16_count(chars@.take(i as int)),
        decreases chars@.len() - i,
    {
        proof {
            assert(chars@.take(i + 1).drop_last() =~= chars@.take(i as int));
            crate::strings::lemma_byte_len_prefix(chars@, i + 1);
            lemma_utf16_within_bytes(chars@.take(i + 1));
        }
        let c = chars[i];
        let units: u64 = if (c as u32) < 0x10000 {
            1
        } else {
            2
        };
        n = n + units;
        i += 1;
    }
    assert(chars@.take(chars@.len() as int) =~= chars@);
    n
}

impl LineIndex {
    pub closed spec fn lines_view(&self) -> Seq<Seq<char>> {
        self.lines@.map_values(|l: Vec<char>| l@)
    }

    pub fn new(text: &str) -> (index: LineIndex)
        ensures
            index.lines_view() == protocol_lines(text@),
    {
        let chars = chars_of(text);
        let pieces = split_chars(&chars, '\n');
        let ghost all = split_on(chars@, '\n');
        let mut lines: Vec<Vec<char>> = Vec::new();
        let mut i: usize = 0;
        while i < pieces.len()
            invariant
                i <= pieces@.len(),
                pieces@.len() == all.len(),
                forall|j: int| 0 <= j < pieces@.len() ==> #[trigger] pieces@[j]@ == all[j],
                lines@.map_values(|l: Vec<char>| l@) == all.take(i as int).map_values(
                    |l: Seq<char>| l.take(l.len() - trail_by(l, one_of('\r', '\r'))),
                ),
            decreases pieces@.len() - i,
        {
            let line = strip_trailing(&pieces[i], '\r', '\r');
            let ghost prev = lines@;
            let ghost piece = all[i as int];
            assert(line@ == piece.take(piece.len() - trail_by(piece, one_of('\r', '\r'))));
            lines.push(line);
            i += 1;
            assert(lines@ =~= prev.push(line));
            assert(all.take(i as int) =~= all.take((i - 1) as int).push(piece));
            assert(lines@.map_values(|l: Vec<char>| l@) =~= prev.map_values(|l: Vec<char>| l@).push(line@));
            assert(all.take(i as int).map_values(
                |l: Seq<char>| l.take(l.len() - trail_by(l, one_of('\r', '\r'))),
            ) =~= all.take((i - 1) as int).map_values(
                |l: Seq<char>| l.take(l.len() - trail_by(l, one_of('\r', '\r'))),
            ).push(line@));
        }
        assert(all.take(all.len() as int) =~= all);
        LineIndex { lines }
    }

    /// Line `line`, or an empty line past the end.
    pub fn line(&self, line: u32) -> (out: Vec<char>)
        ensures
            out@ == (if (line as int) < self.lines_view().len() {
                self.lines_view()[line as int]
            } else {
                Seq::empty()
            }),
    {
        let n = line as usize;
        if n < self.lines.len() {
            assert(self.lines_view()[line as int] == self.lines@[n as int]@);
            slice(&self.lines[n], 0, self.lines[n].len())
        } else {
            Vec::new()
        }
    }

    /// Converts a byte column on `line` to the client's column encoding. A
    /// column inside a character counts as the character's start.
    pub fn to_column(&self, line: u32, byte: u32, encoding: Encoding) -> (c: u32)
        ensures
            c == column_in(
                if (line as int) < self.lines_view().len() {
                    self.lines_view()[line as int]
                } else {
                    Seq::empty()
                },
                byte,
                encoding,
            ),
    {
        match encoding {
            Encoding::Utf8 => byte,
            Encoding::Utf16 => {
                let text = self.line(line);
                let prefix = chars_before(&text, byte);
                proof {
                    crate::strings::lemma_chars_within_bytes(text@, byte as int);
                    lemma_utf16_within_bytes(prefix@);
                }
                let n = utf16_units(&prefix);
                n as u32
            },
        }
    }

    /// A position with its column converted to the client's encoding.
    pub fn to_lsp_position(&self, position: Position, encoding: Encoding) -> (p: Position)
        ensures
            p.line == position.line,
            p.character == column_in(
                if (position.line as int) < self.lines_view().len() {
                    self.lines_view()[position.line as int]
                } else {
                    Seq::empty()
                },
                position.character,
                encoding,
            ),
    {
        Position { line: position.line, character: self.to_column(position.line, position.character, encoding) }
    }

    pub fn to_lsp_range(&self, range: Range, encoding: Encoding) -> (r: Range)
        ensures
            r.start == self.to_lsp_position_spec(range.start, encoding),
            r.end == self.to_lsp_position_spec(range.end, encoding),
    {
        Range {
            start: self.to_lsp_position(range.start, encoding),
            end: self.to_lsp_position(range.end, encoding),
        }
    }

    pub open spec fn to_lsp_position_spec(&self, position: Position, encoding: Encoding) -> Position {
        Position {
            line: position.line,
            character: column_in(
                if (position.line as int) < self.lines_view().len() {
                    self.lines_view()[position.line as int]
                } else {
                    Seq::empty()
                },
                position.character,
                encoding,
            ),
        }
    }
}

/// Converts one position of `text` to the client's encoding; build a
/// `LineIndex` when converting many against the same document.
pub fn to_lsp_position(text: &str, position: Position, encoding: Encoding) -> (p: Position)
    ensures
        p.line == position.line,
        p.character == column_in(protocol_line(text@, position.line as int), position.character, encoding),
{
    let index = LineIndex::new(text);
    index.to_lsp_position(position, encoding)
}

/// Converts both ends of a range of `text` to the client's encoding.
pub fn to_lsp_range(text: &str, range: Range, encoding: Encoding) -> (r: Range)
    ensures
        r.start.line == range.start.line,
        r.end.line == range.end.line,
        r.start.character == column_in(protocol_line(text@, range.start.line as int), range.start.character, encoding),
        r.end.character == column_in(protocol_line(text@, range.end.line as int), range.end.character, encoding),
{
    Range {
        start: to_lsp_position(text, range.start, encoding),
        end: to_lsp_position(text, range.end, encoding),
    }
}

/// Line `line` of `text` as the protocol sees it.
pub fn nth_line(text: &str, line: u32) -> (out: Vec<char>)
    ensures
        out@ == protocol_line(text@, line as int),
{
    let index = LineIndex::new(text);
    index.line(line)
}

/// The largest character boundary of `text` at or below byte `index`; the end
/// of the text for an index past it.
pub fn floor_char_boundary(text: &Vec<char>, index: u32) -> (b: u64)
    ensures
        b == boundary_below(text@, index as int),
{
    let prefix = chars_before(text, index);
    proof {
        crate::strings::lemma_chars_within_bytes(text@, index as int);
    }
    let mut n: u64 = 0;
    let mut i: usize = 0;
    while i < prefix.len()
        invariant
            i <= prefix@.len(),
            byte_len(prefix@) <= index,
            n == byte_len(prefix@.take(i as int)),
        decreases prefix@.len() - i,
    {
        proof {
            assert(prefix@.take(i + 1).drop_last() =~= prefix@.take(i as int));
            crate::strings::lemma_byte_len_prefix(prefix@, i + 1);
        }
        n = n + (char_len_utf8(prefix[i]) as u64);
        i += 1;
    }
    assert(prefix@.take(prefix@.len() as int) =~= prefix@);
    n
}

/// The UTF-8 byte length of the characters of `line` that come before UTF-16
/// column `units`: characters are counted while fewer units precede them.
pub open spec fn bytes_before_units(line: Seq<char>, units: int) -> nat
    decreases line.len(),
{
    if line.len() == 0 || units <= 0 {
        0
    } else {
        utf8_len(line[0]) + bytes_before_units(line.skip(1), units - utf16_len(line[0]))
    }
}

/// An internal position from a protocol one.
pub open spec fn from_protocol(text: Seq<char>, position: Position, encoding: Encoding) -> Position {
    Position {
        line: position.line,
        character: match encoding {
            Encoding::Utf8 => position.character,
            Encoding::Utf16 => bytes_before_units(protocol_line(text, position.line as int), position.character as int) as u32,
        },
    }
}

/// Converts a protocol position back to an internal one (byte column).
pub fn from_lsp_position(text: &str, position: Position, encoding: Encoding) -> (p: Position)
    ensures
        p == from_protocol(text@, position, encoding),
{
    match encoding {
        Encoding::Utf8 => position,
        Encoding::Utf16 => {
            let line = nth_line(text, position.line);
            let want = position.character as u64;
            let mut units: u64 = 0;
            let mut bytes: u64 = 0;
            let mut i: usize = 0;
            assert(line@.skip(0) =~= line@);
            while i < line.len() && units < want
                invariant
                    i <= line@.len(),
                    units <= want + 1,
                    want <= u32::MAX,
                    bytes <= 3 * units,
                    bytes + bytes_before_units(line@.skip(i as int), want - units) == bytes_before_units(line@, want as int),
                decreases line@.len() - i,
            {
                let c = line[i];
                let u: u64 = if (c as u32) < 0x10000 {
                    1
                } else {
                    2
                };
                assert(line@.skip(i as int).skip(1) =~= line@.skip(i + 1));
                assert(line@.skip(i as int)[0] == c);
                units = units + u;
                bytes = bytes + (char_len_utf8(c) as u64);
                i += 1;
            }
            proof {
                if i < line@.len() {
                    assert(bytes_before_units(line@.skip(i as int), want - units) == 0);
                } else {
                    assert(line@.skip(i as int).len() == 0);
                }
            }
            Position { line: position.line, character: bytes as u32 }
        },
    }
}


/// The text of `line` before byte column `character`, cut back to a character
/// boundary: what has been typed before the cursor.
pub fn line_prefix(line: &str, character: u32) -> (out: String)
    ensures
        out@ == text_before(line@, character as int),
{
    let chars = chars_of(line);
    let before = chars_before(&chars, character);
    crate::strings::string_of(&before)
}

// ------------------------------------------------------------ round trip

proof fn lemma_utf16_count_append(a: Seq<char>, b: Seq<char>)
    ensures
        utf16_count(a + b) == utf16_count(a) + utf16_count(b),
    decreases b.len(),
{
    if b.len() == 0 {
        assert(a + b =~= a);
    } else {
        assert((a + b).drop_last() =~= a + b.drop_last());
        lemma_utf16_count_append(a, b.drop_last());
    }
}

/// Converting the UTF-16 length of a prefix back to bytes gives the bytes of
/// that prefix.
proof fn lemma_units_back_to_bytes(l: Seq<char>, k: int)
    requires
        0 <= k <= l.len(),
    ensures
        bytes_before_units(l, utf16_count(l.take(k)) as int) == byte_len(l.take(k)),
    decreases l.len(),
{
    if k == 0 {
        assert(l.take(0) =~= Seq::<char>::empty());
    } else {
        let t = l.skip(1);
        lemma_units_back_to_bytes(t, k - 1);
        assert(l.take(k) =~= seq![l[0]] + t.take(k - 1));
        lemma_utf16_count_append(seq![l[0]], t.take(k - 1));
        assert(seq![l[0]].drop_last() =~= Seq::<char>::empty());
        assert(seq![l[0]].last() == l[0]);
        assert(utf16_count(Seq::<char>::empty()) == 0);
        assert(utf16_count(seq![l[0]]) == utf16_count(seq![l[0]].drop_last()) + utf16_len(l[0]));
        assert(utf16_count(seq![l[0]]) == utf16_len(l[0]));
        crate::strings::lemma_prefix_bytes_shift(l, k - 1);
    }
}

proof fn lemma_utf16_below_bytes(s: Seq<char>)
    ensures
        utf16_count(s) <= byte_len(s),
    decreases s.len(),
{
    if s.len() > 0 {
        lemma_utf16_below_bytes(s.drop_last());
    }
}

proof fn lemma_text_before_bytes(s: Seq<char>, col: int)
    requires
        col >= 0,
    ensures
        byte_len(text_before(s, col)) <= col,
        utf16_count(text_before(s, col)) <= byte_len(text_before(s, col)),
{
    crate::strings::lemma_chars_within_bytes(s, col);
    lemma_utf16_below_bytes(text_before(s, col));
}

/// A byte column sent to the client in UTF-16 and read back lands on the last
/// character boundary at or before it: on the column itself when it is a
/// boundary, never past it.
pub proof fn lemma_utf16_round_trip(text: Seq<char>, line: u32, byte: u32)
    ensures
        ({
            let l = protocol_line(text, line as int);
            let sent = Position { line, character: column_in(l, byte, Encoding::Utf16) };
            let back = from_protocol(text, sent, Encoding::Utf16);
            back.line == line && back.character as int == byte_len(text_before(l, byte as int)) && back.character
                <= byte
        }),
{
    let l = protocol_line(text, line as int);
    let before = text_before(l, byte as int);
    lemma_text_before_bytes(l, byte as int);
    let k = crate::strings::chars_within(l, byte as int);
    crate::strings::lemma_chars_within_le(l, byte as int);
    lemma_units_back_to_bytes(l, k as int);
}

} // verus!
