//! Editing help read off a line of text: which call the cursor is inside and
//! where its arguments start, what a completion should be matched against,
//! and the snippet a pattern inserts.
use vstd::prelude::*;

use crate::parser::{flag, words_of};
use crate::strings::{
    chars_of, find_char, first_index_of, lead_by, lines, lines_of, lower_chars, lower_seq, one_of, split_chars, split_on,
    starts_with, string_of, strip_by, trim, trim_chars,
};

verus! {

// ------------------------------------------------------------ identifiers

/// `char::is_alphanumeric`: Unicode's Alphabetic or Numeric property.
pub uninterp spec fn alphanumeric(c: char) -> bool;

/// Wraps `char::is_alphanumeric`; the contract names its result and states
/// nothing more of Unicode's tables.
#[verifier::external_body]
fn is_alphanumeric(c: char) -> (b: bool)
    ensures
        b == alphanumeric(c),
{
    c.is_alphanumeric()
}

pub open spec fn ident_char(c: char) -> bool {
    alphanumeric(c) || c == '_'
}

/// Where the identifier that ends at `k` starts: just past the last
/// character before `k` that cannot be part of one.
pub open spec fn name_start(s: Seq<char>, k: int) -> int
    decreases k,
{
    if k <= 0 {
        0
    } else if !ident_char(s[k - 1]) {
        k
    } else {
        name_start(s, k - 1)
    }
}

pub proof fn lemma_name_start(s: Seq<char>, k: int)
    requires
        0 <= k,
    ensures
        0 <= name_start(s, k) <= k,
    decreases k,
{
    if k > 0 && ident_char(s[k - 1]) {
        lemma_name_start(s, k - 1);
    }
}

// ------------------------------------------------------------ the enclosing call

/// Scans `s` backwards from index `i`, counting closed parentheses (`depth`)
/// and the commas seen outside them, and skipping string contents: the call
/// whose `(` is still open, with the index of the argument the end of `s` is
/// in.
pub open spec fn call_from(s: Seq<char>, i: int, depth: int, commas: int, in_string: bool) -> Option<
    (Seq<char>, int),
>
    decreases i,
{
    if i <= 0 {
        None
    } else {
        let k = i - 1;
        let c = s[k];
        if c == '"' {
            call_from(s, k, depth, commas, !in_string)
        } else if in_string {
            call_from(s, k, depth, commas, in_string)
        } else if c == ')' {
            call_from(s, k, depth + 1, commas, in_string)
        } else if c == ',' && depth == 0 {
            call_from(s, k, depth, commas + 1, in_string)
        } else if c == '(' {
            if depth == 0 {
                let name = s.subrange(name_start(s, k), k);
                if name.len() > 0 {
                    Some((name, commas))
                } else {
                    None
                }
            } else {
                call_from(s, k, depth - 1, commas, in_string)
            }
        } else {
            call_from(s, k, depth, commas, in_string)
        }
    }
}

/// The number of `"` in `s`.
pub open spec fn quotes(s: Seq<char>) -> nat
    decreases s.len(),
{
    if s.len() == 0 {
        0
    } else {
        quotes(s.drop_last()) + if s.last() == '"' {
            1nat
        } else {
            0nat
        }
    }
}

/// The commas of `s` that stand outside string literals: those with an even
/// number of `"` before them.
pub open spec fn commas_outside_strings(s: Seq<char>) -> nat
    decreases s.len(),
{
    if s.len() == 0 {
        0
    } else {
        commas_outside_strings(s.drop_last()) + if s.last() == ',' && quotes(s.drop_last()) % 2 == 0 {
            1nat
        } else {
            0nat
        }
    }
}

proof fn lemma_quotes_split(s: Seq<char>, j: int)
    requires
        0 <= j <= s.len(),
    ensures
        quotes(s.take(j)) + quotes(s.skip(j)) == quotes(s),
    decreases s.len(),
{
    if j == s.len() {
        assert(s.take(j) =~= s);
        assert(s.skip(j).len() == 0);
    } else {
        let d = s.drop_last();
        lemma_quotes_split(d, j);
        assert(d.take(j) =~= s.take(j));
        assert(s.skip(j).drop_last() =~= d.skip(j));
        assert(s.skip(j).last() == s.last());
    }
}

proof fn lemma_name_start_at(s: Seq<char>, p: int, k: int)
    requires
        0 <= p <= k <= s.len(),
        p == 0 || !ident_char(s[p - 1]),
        forall|x: int| p <= x < k ==> ident_char(#[trigger] s[x]),
    ensures
        name_start(s, k) == p,
    decreases k,
{
    if k > p {
        lemma_name_start_at(s, p, k - 1);
    }
}

/// Scanning back over the arguments of a call with no parentheses in them.
proof fn lemma_scan_arguments(s: Seq<char>, head: int, args: Seq<char>, name: Seq<char>, j: int, commas: int)
    requires
        0 < head,
        s.len() == head + args.len(),
        s[head - 1] == '(',
        forall|x: int| 0 <= x < args.len() ==> s[head + x] == #[trigger] args[x],
        forall|x: int| 0 <= x < args.len() ==> #[trigger] args[x] != '(' && args[x] != ')',
        quotes(args) % 2 == 0,
        name.len() > 0,
        s.subrange(name_start(s, head - 1), head - 1) == name,
        0 <= j <= args.len(),
        commas >= 0,
    ensures
        call_from(s, head + j, 0, commas, quotes(args.skip(j)) % 2 == 1) == Some(
            (name, commas + commas_outside_strings(args.take(j))),
        ),
    decreases j,
{
    if j == 0 {
        assert(args.skip(0) =~= args);
        assert(args.take(0).len() == 0);
    } else {
        let c = args[j - 1];
        assert(s[head + j - 1] == c);
        let q = args.skip(j);
        let q1 = args.skip(j - 1);
        assert(q1.drop_last() =~= args.subrange(j - 1, args.len() as int - 1));
        lemma_quotes_split(args, j);
        lemma_quotes_split(args, j - 1);
        let t = args.take(j);
        assert(t.drop_last() =~= args.take(j - 1));
        assert(t.last() == c);
        assert(quotes(t) == quotes(args.take(j - 1)) + if c == '"' { 1nat } else { 0nat });
        let inside = quotes(q) % 2 == 1;
        if c == '"' {
            lemma_scan_arguments(s, head, args, name, j - 1, commas);
        } else if inside {
            lemma_scan_arguments(s, head, args, name, j - 1, commas);
        } else if c == ',' {
            lemma_scan_arguments(s, head, args, name, j - 1, commas + 1);
        } else {
            lemma_scan_arguments(s, head, args, name, j - 1, commas);
        }
    }
}

/// The argument the cursor is on is the number of commas between the call's
/// `(` and the cursor that stand outside string literals: for a call `name(`
/// after text that does not end in an identifier character, followed by
/// arguments with no parentheses and every string closed, the enclosing call
/// is `name`, on that argument. So commas inside a string are never counted.
pub proof fn lemma_argument_index_counts_commas_outside_strings(before: Seq<char>, name: Seq<char>, args: Seq<char>)
    requires
        before.len() == 0 || !ident_char(before.last()),
        name.len() > 0,
        forall|x: int| 0 <= x < name.len() ==> ident_char(#[trigger] name[x]),
        forall|x: int| 0 <= x < args.len() ==> #[trigger] args[x] != '(' && args[x] != ')',
        quotes(args) % 2 == 0,
    ensures
        ({
            let s = before + name + seq!['('] + args;
            call_from(s, s.len() as int, 0, 0, false) == Some((name, commas_outside_strings(args) as int))
        }),
{
    let s = before + name + seq!['('] + args;
    let p = before.len() as int;
    let head = p + name.len() + 1;
    assert forall|x: int| p <= x < head - 1 implies ident_char(#[trigger] s[x]) by {
        assert(s[x] == name[x - p]);
    }
    if p > 0 {
        assert(s[p - 1] == before.last());
    }
    lemma_name_start_at(s, p, head - 1);
    assert(s.subrange(p, head - 1) =~= name);
    assert(s[head - 1] == '(');
    assert forall|x: int| 0 <= x < args.len() implies s[head + x] == #[trigger] args[x] by {}
    lemma_scan_arguments(s, head, args, name, args.len() as int, 0);
    assert(args.skip(args.len() as int).len() == 0);
    assert(quotes(args.skip(args.len() as int)) == 0);
    assert(args.take(args.len() as int) =~= args);
}

proof fn lemma_name_start_prefix(s: Seq<char>, i: int, k: int)
    requires
        0 <= k <= i <= s.len(),
    ensures
        name_start(s, k) == name_start(s.take(i), k),
    decreases k,
{
    if k > 0 {
        assert(s.take(i)[k - 1] == s[k - 1]);
        lemma_name_start_prefix(s, i, k - 1);
    }
}

/// The scan from index `i` reads nothing at or after `i`.
proof fn lemma_call_from_prefix(s: Seq<char>, t: Seq<char>, i: int, depth: int, commas: int, in_string: bool)
    requires
        0 <= i <= s.len(),
        i <= t.len(),
        s.take(i) == t.take(i),
    ensures
        call_from(s, i, depth, commas, in_string) == call_from(t, i, depth, commas, in_string),
    decreases i,
{
    if i > 0 {
        let k = i - 1;
        assert(s[k] == s.take(i)[k] && t[k] == t.take(i)[k]);
        assert(s.take(k) =~= s.take(i).take(k));
        assert(t.take(k) =~= t.take(i).take(k));
        lemma_call_from_prefix(s, t, k, depth, commas, !in_string);
        lemma_call_from_prefix(s, t, k, depth, commas, in_string);
        lemma_call_from_prefix(s, t, k, depth + 1, commas, in_string);
        lemma_call_from_prefix(s, t, k, depth - 1, commas, in_string);
        lemma_call_from_prefix(s, t, k, depth, commas + 1, in_string);
        lemma_name_start_prefix(s, i, k);
        lemma_name_start_prefix(t, i, k);
        lemma_name_start_prefix(s, k, k);
        lemma_name_start_prefix(t, k, k);
        assert(s.take(i).take(k) =~= s.take(k));
        assert(t.take(i).take(k) =~= t.take(k));
        lemma_name_start(s, k);
        lemma_name_start(t, k);
        assert(s.subrange(name_start(s, k), k) =~= t.subrange(name_start(t, k), k)) by {
            assert forall|x: int| name_start(s, k) <= x < k implies s[x] == t[x] by {
                assert(s[x] == s.take(i)[x] && t[x] == t.take(i)[x]);
            }
        }
    }
}

/// Scanning back over text with no parentheses, at the outer level, and with
/// every string in it closed.
proof fn lemma_scan_plain(s: Seq<char>, x: int, q: Seq<char>, j: int, commas: int)
    requires
        0 <= x,
        s.len() == x + q.len(),
        forall|t: int| 0 <= t < q.len() ==> s[x + t] == #[trigger] q[t],
        forall|t: int| 0 <= t < q.len() ==> #[trigger] q[t] != '(' && q[t] != ')',
        quotes(q) % 2 == 0,
        0 <= j <= q.len(),
    ensures
        call_from(s, x + j, 0, commas, quotes(q.skip(j)) % 2 == 1) == call_from(
            s,
            x,
            0,
            commas + commas_outside_strings(q.take(j)),
            false,
        ),
    decreases j,
{
    if j == 0 {
        assert(q.skip(0) =~= q);
        assert(q.take(0).len() == 0);
    } else {
        let c = q[j - 1];
        assert(s[x + j - 1] == c);
        lemma_quotes_split(q, j);
        lemma_quotes_split(q, j - 1);
        let t = q.take(j);
        assert(t.drop_last() =~= q.take(j - 1));
        assert(t.last() == c);
        let inside = quotes(q.skip(j)) % 2 == 1;
        if c == '"' {
            lemma_scan_plain(s, x, q, j - 1, commas);
        } else if inside {
            lemma_scan_plain(s, x, q, j - 1, commas);
        } else if c == ',' {
            lemma_scan_plain(s, x, q, j - 1, commas + 1);
        } else {
            lemma_scan_plain(s, x, q, j - 1, commas);
        }
    }
}

/// Scanning back over the inside of a closed call, one level down.
proof fn lemma_scan_group(s: Seq<char>, x: int, g: Seq<char>, j: int, commas: int)
    requires
        0 <= x,
        x + g.len() <= s.len(),
        forall|t: int| 0 <= t < g.len() ==> s[x + t] == #[trigger] g[t],
        forall|t: int| 0 <= t < g.len() ==> #[trigger] g[t] != '(' && g[t] != ')' && g[t] != '"',
        0 <= j <= g.len(),
    ensures
        call_from(s, x + j, 1, commas, false) == call_from(s, x, 1, commas, false),
    decreases j,
{
    if j > 0 {
        assert(s[x + j - 1] == g[j - 1]);
        lemma_scan_group(s, x, g, j - 1, commas);
    }
}

/// A call closed before the cursor changes nothing: taking `(...)` with no
/// parentheses or quotes inside out of the text before the cursor, where
/// what follows it has no parentheses and closes every string it opens,
/// leaves the enclosing call and its argument as they were. Its commas are
/// never counted, and its `(` is never taken for the enclosing call.
pub proof fn lemma_a_closed_call_before_the_cursor_changes_nothing(before: Seq<char>, group: Seq<char>, after: Seq<char>)
    requires
        forall|t: int| 0 <= t < group.len() ==> #[trigger] group[t] != '(' && group[t] != ')' && group[t] != '"',
        forall|t: int| 0 <= t < after.len() ==> #[trigger] after[t] != '(' && after[t] != ')',
        quotes(after) % 2 == 0,
    ensures
        ({
            let with = before + seq!['('] + group + seq![')'] + after;
            let without = before + after;
            call_from(with, with.len() as int, 0, 0, false) == call_from(without, without.len() as int, 0, 0, false)
        }),
{
    let with = before + seq!['('] + group + seq![')'] + after;
    let without = before + after;
    let p = before.len() as int;
    let x1 = p + group.len() + 2;
    assert forall|t: int| 0 <= t < after.len() implies with[x1 + t] == #[trigger] after[t] by {}
    assert forall|t: int| 0 <= t < after.len() implies without[p + t] == #[trigger] after[t] by {}
    lemma_scan_plain(with, x1, after, after.len() as int, 0);
    lemma_scan_plain(without, p, after, after.len() as int, 0);
    assert(after.skip(after.len() as int).len() == 0);
    assert(quotes(after.skip(after.len() as int)) == 0);
    let c = commas_outside_strings(after.take(after.len() as int)) as int;
    assert(with.len() == x1 + after.len());
    assert(without.len() == p + after.len());
    assert(call_from(with, with.len() as int, 0, 0, false) == call_from(with, x1, 0, c, false));
    assert(call_from(without, without.len() as int, 0, 0, false) == call_from(without, p, 0, c, false));
    assert(with[x1 - 1] == ')');
    assert(call_from(with, x1, 0, c, false) == call_from(with, x1 - 1, 1, c, false));
    assert forall|t: int| 0 <= t < group.len() implies with[p + 1 + t] == #[trigger] group[t] by {}
    lemma_scan_group(with, p + 1, group, group.len() as int, c);
    assert(x1 - 1 == p + 1 + group.len());
    assert(with[p] == '(');
    assert(call_from(with, p + 1, 1, c, false) == call_from(with, p, 0, c, false));
    assert(with.take(p) =~= before);
    assert(without.take(p) =~= before);
    lemma_call_from_prefix(with, without, p, 0, c, false);
}

/// Finds the function call the cursor is inside, and which argument it is on.
///
/// Scans backwards counting parentheses, so a nested call or a `(` inside a
/// string does not confuse it.
pub fn enclosing_call(prefix: &str) -> (r: Option<(String, u32)>)
    requires
        prefix@.len() <= i32::MAX,
    ensures
        match call_from(prefix@, prefix@.len() as int, 0, 0, false) {
            Some((name, commas)) => r matches Some(found) && found.0@ == name && found.1 == commas,
            None => r is None,
        },
{
    let chars = chars_of(prefix);
    let ghost s = chars@;
    let mut depth: i32 = 0;
    let mut commas: u32 = 0;
    let mut in_string = false;
    let mut index = chars.len();
    while index > 0
        invariant
            s == chars@,
            s == prefix@,
            s.len() <= i32::MAX,
            index <= s.len(),
            0 <= depth <= s.len() - index,
            commas <= s.len() - index,
            call_from(s, s.len() as int, 0, 0, false) == call_from(
                s,
                index as int,
                depth as int,
                commas as int,
                in_string,
            ),
        decreases index,
    {
        index -= 1;
        let c = chars[index];
        if c == '"' {
            in_string = !in_string;
        } else if in_string {
        } else if c == ')' {
            depth += 1;
        } else if c == ',' && depth == 0 {
            commas += 1;
        } else if c == '(' {
            if depth == 0 {
                let mut start = index;
                while start > 0 && (is_alphanumeric(chars[start - 1]) || chars[start - 1] == '_')
                    invariant
                        start <= index < s.len(),
                        s == chars@,
                        s == prefix@,
                        name_start(s, index as int) == name_start(s, start as int),
                        call_from(s, s.len() as int, 0, 0, false) == call_from(
                            s,
                            index + 1,
                            0,
                            commas as int,
                            false,
                        ),
                        s[index as int] == '(',
                    decreases start,
                {
                    start -= 1;
                }
                let name = crate::strings::slice(&chars, start, index);
                if name.len() > 0 {
                    return Some((string_of(&name), commas));
                } else {
                    return None;
                }
            }
            depth -= 1;
        }
    }
    None
}

// ------------------------------------------------------------ argument offsets

pub open spec fn white_byte(b: u8) -> bool {
    b == 32 || b == 9 || b == 10 || b == 12 || b == 13
}

/// The index of the `(` that follows index `i` after nothing but whitespace.
pub open spec fn paren_after(b: Seq<u8>, i: int) -> Option<int>
    decreases b.len() - i,
{
    if i < 0 || i >= b.len() {
        None
    } else if b[i] == 40 {
        Some(i)
    } else if !white_byte(b[i]) {
        None
    } else {
        paren_after(b, i + 1)
    }
}

/// The byte indices, from `i` on, at which arguments start: the first
/// non-blank byte after the `(` and after each comma outside strings and
/// nested brackets, up to the `)` that closes the call.
pub open spec fn args_from(b: Seq<u8>, i: int, depth: int, in_string: bool, expecting: bool) -> Seq<int>
    decreases b.len() - i,
{
    if i < 0 || i >= b.len() {
        Seq::empty()
    } else {
        let ch = b[i];
        if in_string {
            args_from(b, i + 1, depth, ch != 34, expecting)
        } else if ch == 41 && depth == 0 {
            Seq::empty()
        } else {
            let d = if ch == 40 || ch == 91 || ch == 123 {
                depth + 1
            } else if ch == 41 || ch == 93 || ch == 125 {
                if depth > 0 {
                    depth - 1
                } else {
                    0
                }
            } else {
                depth
            };
            let quoted = ch == 34;
            let expect = expecting || (ch == 44 && depth == 0);
            if expect && !white_byte(ch) && ch != 44 {
                seq![i] + args_from(b, i + 1, d, quoted, false)
            } else {
                args_from(b, i + 1, d, quoted, expect)
            }
        }
    }
}

/// The argument starts of the call whose name ends at byte `after` of the
/// line with bytes `b`.
pub open spec fn argument_starts(b: Seq<u8>, after: int) -> Seq<int> {
    match paren_after(b, after) {
        Some(p) => args_from(b, p + 1, 0, false, true),
        None => Seq::empty(),
    }
}

/// `str::lines().nth(n)`.
pub open spec fn nth_of_lines(s: Seq<char>, n: int) -> Option<Seq<char>> {
    if 0 <= n < lines_of(s).len() {
        Some(lines_of(s)[n])
    } else {
        None
    }
}

/// Byte columns at which each argument of a call starts.
///
/// `after_name` is the column just past the function name, so the `(` is the
/// next thing on the line. Strings and nested brackets are skipped, so a comma
/// inside `"a, b"` or `f(1, 2)` does not split an argument.
pub fn argument_offsets(text: &str, line: u32, after_name: u32) -> (r: Vec<u32>)
    ensures
        r@ == match nth_of_lines(text@, line as int) {
            Some(source) => argument_starts(vstd::utf8::encode_utf8(source), after_name as int).map_values(
                |i: int| i as u32,
            ),
            None => Seq::empty(),
        },
{
    let all = lines(&chars_of(text));
    if line as usize >= all.len() {
        return Vec::new();
    }
    let source = string_of(&all[line as usize]);
    let bytes = source.as_str().as_bytes();
    let ghost b = bytes@;
    let ghost src = source@;
    assert(src == lines_of(text@)[line as int]);
    assert(b == vstd::utf8::encode_utf8(src));
    let n = bytes.len();
    let mut index = after_name as usize;
    while index < n && bytes[index] != 40
        invariant
            b == bytes@,
            n == b.len(),
            b == vstd::utf8::encode_utf8(src),
            nth_of_lines(text@, line as int) == Some(src),
            after_name <= index,
            paren_after(b, after_name as int) == paren_after(b, index as int),
        decreases n - index,
    {
        if !(bytes[index] == 32 || bytes[index] == 9 || bytes[index] == 10 || bytes[index] == 12
            || bytes[index] == 13) {
            return Vec::new();
        }
        index += 1;
    }
    if index >= n {
        return Vec::new();
    }
    index += 1;
    let mut offsets: Vec<u32> = Vec::new();
    let mut depth: usize = 0;
    let mut in_string = false;
    let mut expecting = true;
    let ghost found: Seq<int> = Seq::empty();
    assert(offsets@ =~= found.map_values(|i: int| i as u32));
    while index < n && (in_string || bytes[index] != 41 || depth != 0)
        invariant
            b == bytes@,
            n == b.len(),
            b == vstd::utf8::encode_utf8(src),
            nth_of_lines(text@, line as int) == Some(src),
            index <= n,
            depth <= index,
            argument_starts(b, after_name as int) == found + args_from(
                b,
                index as int,
                depth as int,
                in_string,
                expecting,
            ),
            offsets@ == found.map_values(|i: int| i as u32),
        decreases n - index,
    {
        let ch = bytes[index];
        if in_string {
            if ch == 34 {
                in_string = false;
            }
        } else {
            if ch == 34 {
                in_string = true;
            } else if ch == 40 || ch == 91 || ch == 123 {
                depth += 1;
            } else if ch == 41 || ch == 93 || ch == 125 {
                depth = depth.saturating_sub(1);
            } else if ch == 44 && depth == 0 {
                expecting = true;
            }
            if expecting && !(ch == 32 || ch == 9 || ch == 10 || ch == 12 || ch == 13) && ch != 44 {
                let ghost prev = offsets@;
                offsets.push(index as u32);
                proof {
                    assert(offsets@ =~= found.push(index as int).map_values(|i: int| i as u32));
                    assert(found + (seq![index as int] + args_from(b, index + 1, depth as int, in_string, false))
                        =~= found.push(index as int) + args_from(b, index + 1, depth as int, in_string, false));
                    found = found.push(index as int);
                }
                expecting = false;
            }
        }
        index += 1;
    }
    assert(found + Seq::<int>::empty() =~= found);
    offsets
}


// ------------------------------------------------------------ choosing a branch

pub open spec fn not_alnum() -> spec_fn(char) -> bool {
    |c: char| !alphanumeric(c)
}

/// The first word of `text`, stripped of non-alphanumeric characters at
/// either end and ASCII-lowercased.
pub open spec fn first_word(text: Seq<char>) -> Seq<char> {
    let ws = words_of(text);
    let w = if ws.len() > 0 {
        ws[0]
    } else {
        Seq::empty()
    };
    lower_seq(strip_by(w, not_alnum()))
}

/// The first branch from `k` on whose first word begins with `wanted`.
pub open spec fn first_matching(texts: Seq<Seq<char>>, wanted: Seq<char>, k: int) -> Option<int>
    decreases texts.len() - k,
{
    if k < 0 || k >= texts.len() {
        None
    } else {
        let head = first_word(trim(texts[k]));
        if head.len() > 0 && starts_with(head, wanted) {
            Some(k)
        } else {
            first_matching(texts, wanted, k + 1)
        }
    }
}

/// Which branch to insert: the one the user has begun to type, when their
/// first word leads one; otherwise the first.
pub open spec fn pick_index(texts: Seq<Seq<char>>, typed: Seq<char>) -> int {
    let wanted = first_word(typed);
    if wanted.len() > 0 {
        match first_matching(texts, wanted, 0) {
            Some(k) => k,
            None => 0,
        }
    } else {
        0
    }
}

/// The chosen branch, trimmed, or nothing when there are no branches.
pub open spec fn picked(texts: Seq<Seq<char>>, typed: Seq<char>) -> Seq<char> {
    if texts.len() > 0 {
        trim(texts[pick_index(texts, typed)])
    } else {
        Seq::empty()
    }
}

pub proof fn lemma_first_matching(texts: Seq<Seq<char>>, wanted: Seq<char>, k: int)
    requires
        0 <= k,
    ensures
        first_matching(texts, wanted, k) matches Some(j) ==> k <= j < texts.len(),
    decreases texts.len() - k,
{
    if k < texts.len() {
        lemma_first_matching(texts, wanted, k + 1);
    }
}

/// `first_word`, computed.
fn first_word_of(text: &Vec<char>) -> (w: Vec<char>)
    ensures
        w@ == first_word(text@),
{
    let ws = crate::parser::words(text);
    let word = if ws.len() > 0 {
        crate::strings::slice(&ws[0], 0, ws[0].len())
    } else {
        Vec::new()
    };
    assert(crate::pattern::vecs_view(ws@).len() == ws@.len());
    proof {
        if ws@.len() > 0 {
            assert(crate::pattern::vecs_view(ws@)[0] == ws@[0]@);
            assert(ws@[0]@.subrange(0, ws@[0]@.len() as int) =~= ws@[0]@);
        } else {
            assert(word@ =~= Seq::<char>::empty());
        }
    }
    let n = word.len();
    let mut a: usize = 0;
    while a < n && !is_alphanumeric(word[a])
        invariant
            a <= n == word@.len(),
            forall|j: int| 0 <= j < a ==> not_alnum()(#[trigger] word@[j]),
        decreases n - a,
    {
        a += 1;
    }
    proof {
        crate::strings::lemma_lead_by_is(word@, not_alnum(), a as int);
    }
    let front = crate::strings::slice(&word, a, n);
    assert(front@ == word@.skip(a as int));
    let m = front.len();
    let mut b: usize = m;
    while b > 0 && !is_alphanumeric(front[b - 1])
        invariant
            b <= m == front@.len(),
            forall|j: int| b <= j < m ==> not_alnum()(#[trigger] front@[j]),
        decreases b,
    {
        b -= 1;
    }
    proof {
        if b > 0 {
            assert(front@[m - (m - b) - 1] == front@[b - 1]);
        }
        crate::strings::lemma_trail_by_is(front@, not_alnum(), (m - b) as int);
    }
    let core = crate::strings::slice(&front, 0, b);
    assert(core@ =~= front@.take(b as int));
    lower_chars(&core)
}

/// Whether `s` begins with `prefix`.
fn begins_with(s: &Vec<char>, prefix: &Vec<char>) -> (b: bool)
    ensures
        b == starts_with(s@, prefix@),
{
    if prefix.len() > s.len() {
        return false;
    }
    let mut k: usize = 0;
    while k < prefix.len()
        invariant
            k <= prefix@.len() <= s@.len(),
            forall|j: int| 0 <= j < k ==> s@[j] == prefix@[j],
        decreases prefix@.len() - k,
    {
        if s[k] != prefix[k] {
            assert(s@.take(prefix@.len() as int)[k as int] != prefix@[k as int]);
            return false;
        }
        k += 1;
    }
    assert(s@.take(prefix@.len() as int) =~= prefix@);
    true
}

/// The index of the branch to insert, among `texts`.
fn choose_index(texts: &Vec<Vec<char>>, typed: &Vec<char>) -> (k: usize)
    ensures
        k == pick_index(crate::pattern::vecs_view(texts@), typed@),
{
    let ghost tv = crate::pattern::vecs_view(texts@);
    let wanted = first_word_of(typed);
    if wanted.len() == 0 {
        return 0;
    }
    let mut k: usize = 0;
    while k < texts.len()
        invariant
            k <= texts@.len(),
            tv == crate::pattern::vecs_view(texts@),
            tv.len() == texts@.len(),
            wanted@ == first_word(typed@),
            wanted@.len() > 0,
            first_matching(tv, wanted@, 0) == first_matching(tv, wanted@, k as int),
        decreases texts@.len() - k,
    {
        assert(tv[k as int] == texts@[k as int]@);
        let head = first_word_of(&trim_chars(&texts[k]));
        if head.len() > 0 && begins_with(&head, &wanted) {
            return k;
        }
        k += 1;
    }
    0
}

/// Which branch of a choice to insert: the one the user has started typing,
/// judged by leading words, or else the first, the shortest correct form.
pub fn pick_branch(branches: &Vec<String>, typed: &str) -> (r: String)
    ensures
        r@ == picked(branches@.map_values(|b: String| b@), typed@),
{
    let mut texts: Vec<Vec<char>> = Vec::new();
    let mut i: usize = 0;
    while i < branches.len()
        invariant
            i <= branches@.len(),
            crate::pattern::vecs_view(texts@) == branches@.map_values(|b: String| b@).take(i as int),
        decreases branches@.len() - i,
    {
        let ghost prev = texts@;
        texts.push(chars_of(branches[i].as_str()));
        assert(crate::pattern::vecs_view(texts@) =~= crate::pattern::vecs_view(prev).push(branches@[i as int]@));
        assert(branches@.map_values(|b: String| b@).take(i + 1) =~= branches@.map_values(|b: String| b@).take(
            i as int,
        ).push(branches@[i as int]@));
        i += 1;
    }
    assert(branches@.map_values(|b: String| b@).take(branches@.len() as int) =~= branches@.map_values(
        |b: String| b@,
    ));
    let typed_chars = chars_of(typed);
    if texts.len() == 0 {
        return String::new();
    }
    let k = choose_index(&texts, &typed_chars);
    proof {
        lemma_first_matching(crate::pattern::vecs_view(texts@), first_word(typed@), 0);
    }
    assert(crate::pattern::vecs_view(texts@)[k as int] == texts@[k as int]@);
    string_of(&trim_chars(&texts[k]))
}

// ------------------------------------------------------------ filter text

/// The pattern's text with slots, regexes and group syntax blanked out.
pub open spec fn plain_from(p: Seq<char>, i: int) -> Seq<char>
    decreases p.len() - i,
{
    if i < 0 || i >= p.len() {
        Seq::empty()
    } else {
        let c = p[i];
        if c == '%' || c == '<' {
            let close = if c == '%' {
                '%'
            } else {
                '>'
            };
            proof {
                crate::parser::lemma_find_from(p, i + 1, close);
            }
            seq![' '] + match crate::parser::find_from(p, i + 1, close) {
                Some(e) => plain_from(p, e + 1),
                None => Seq::empty(),
            }
        } else if c == '(' || c == ')' || c == '[' || c == ']' || c == '|' {
            seq![' '] + plain_from(p, i + 1)
        } else {
            seq![c] + plain_from(p, i + 1)
        }
    }
}

/// The words in order, each kept only the first time it appears.
pub open spec fn distinct_words(ws: Seq<Seq<char>>) -> Seq<Seq<char>>
    decreases ws.len(),
{
    if ws.len() == 0 {
        Seq::empty()
    } else {
        let kept = distinct_words(ws.drop_last());
        if kept.contains(ws.last()) {
            kept
        } else {
            kept.push(ws.last())
        }
    }
}

/// The words joined by single spaces.
pub open spec fn joined(ws: Seq<Seq<char>>) -> Seq<char>
    decreases ws.len(),
{
    if ws.len() == 0 {
        Seq::empty()
    } else if ws.len() == 1 {
        ws[0]
    } else {
        joined(ws.drop_last()) + seq![' '] + ws.last()
    }
}

/// What a completion is matched against: the entry's name and every literal
/// word of its pattern, each once.
pub open spec fn filter_text(name: Seq<char>, pattern: Seq<char>) -> Seq<char> {
    let ws = distinct_words(words_of(plain_from(pattern, 0)));
    if ws.len() == 0 {
        name
    } else {
        name + seq![' '] + joined(ws)
    }
}

/// `joined`, computed.
fn join_words(ws: &Vec<Vec<char>>) -> (out: Vec<char>)
    ensures
        out@ == joined(crate::pattern::vecs_view(ws@)),
{
    let ghost wv = crate::pattern::vecs_view(ws@);
    let mut out: Vec<char> = Vec::new();
    let mut i: usize = 0;
    assert(out@ =~= joined(wv.take(0)));
    while i < ws.len()
        invariant
            i <= ws@.len(),
            wv == crate::pattern::vecs_view(ws@),
            out@ == joined(wv.take(i as int)),
        decreases ws@.len() - i,
    {
        assert(wv.take(i + 1).drop_last() =~= wv.take(i as int));
        assert(wv.take(i + 1).last() == ws@[i as int]@);
        if i > 0 {
            out.push(' ');
        } else {
            assert(wv.take(1)[0] == ws@[0]@);
        }
        crate::source::append_chars(&mut out, &ws[i]);
        if i == 0 {
            assert(out@ =~= wv.take(1)[0]);
        }
        i += 1;
    }
    assert(wv.take(wv.len() as int) =~= wv);
    out
}

/// What the client should match the user's typing against: the entry name
/// plus the pattern's literal words, so either finds the item. Slots, regexes
/// and group syntax are left out.
pub fn filter_text_for(name: &str, pattern: &str) -> (r: String)
    ensures
        r@ == filter_text(name@, pattern@),
{
    let p = chars_of(pattern);
    let ghost pv = p@;
    let mut text: Vec<char> = Vec::new();
    let mut i: usize = 0;
    while i < p.len()
        invariant
            pv == p@,
            i <= pv.len(),
            plain_from(pv, 0) == text@ + plain_from(pv, i as int),
        decreases pv.len() - i,
    {
        let c = p[i];
        if c == '%' || c == '<' {
            let close = if c == '%' {
                '%'
            } else {
                '>'
            };
            text.push(' ');
            proof {
                crate::parser::lemma_find_from(pv, i + 1, close);
            }
            match crate::parser::find_index_from(&p, i + 1, close) {
                Some(e) => {
                    assert(plain_from(pv, 0) =~= text@ + plain_from(pv, e + 1));
                    i = e + 1;
                },
                None => {
                    assert(plain_from(pv, 0) =~= text@ + plain_from(pv, pv.len() as int));
                    i = p.len();
                },
            }
        } else {
            if c == '(' || c == ')' || c == '[' || c == ']' || c == '|' {
                text.push(' ');
            } else {
                text.push(c);
            }
            assert(plain_from(pv, 0) =~= text@ + plain_from(pv, i + 1));
            i += 1;
        }
    }
    assert(text@ + Seq::<char>::empty() =~= text@);
    let ws = crate::parser::words(&text);
    let ghost wv = crate::pattern::vecs_view(ws@);
    let mut kept: Vec<Vec<char>> = Vec::new();
    let mut j: usize = 0;
    assert(crate::pattern::vecs_view(kept@) =~= distinct_words(wv.take(0)));
    while j < ws.len()
        invariant
            j <= ws@.len(),
            wv == crate::pattern::vecs_view(ws@),
            crate::pattern::vecs_view(kept@) == distinct_words(wv.take(j as int)),
        decreases ws@.len() - j,
    {
        assert(wv.take(j + 1).drop_last() =~= wv.take(j as int));
        assert(wv.take(j + 1).last() == ws@[j as int]@);
        let seen = crate::parser::contains_word(&kept, &ws[j]);
        if !seen {
            let ghost prev = kept@;
            kept.push(crate::strings::slice(&ws[j], 0, ws[j].len()));
            assert(ws@[j as int]@.subrange(0, ws@[j as int]@.len() as int) =~= ws@[j as int]@);
            assert(crate::pattern::vecs_view(kept@) =~= crate::pattern::vecs_view(prev).push(ws@[j as int]@));
        }
        j += 1;
    }
    assert(wv.take(wv.len() as int) =~= wv);
    let mut out = chars_of(name);
    if kept.len() > 0 {
        out.push(' ');
        let rest = join_words(&kept);
        crate::source::append_chars(&mut out, &rest);
    }
    string_of(&out)
}


// ------------------------------------------------------------ snippets

/// The branches of a choice whose `(` precedes index `j` of `t`: each a span
/// of `t`, split at `|` outside nested parentheses, up to the `)` that closes
/// the choice (or the end). Returns the spans and where the choice closes.
pub open spec fn branch_spans(t: Seq<char>, j: int, inner: int, a: int, acc: Seq<(int, int)>) -> (
    Seq<(int, int)>,
    int,
)
    decreases t.len() - j,
{
    if j < 0 || j >= t.len() {
        (acc.push((a, t.len() as int)), t.len() as int)
    } else {
        let c = t[j];
        if c == '(' {
            branch_spans(t, j + 1, inner + 1, a, acc)
        } else if c == ')' && inner == 0 {
            (acc.push((a, j)), j)
        } else if c == ')' {
            branch_spans(t, j + 1, inner - 1, a, acc)
        } else if c == '|' && inner == 0 {
            branch_spans(t, j + 1, inner, j + 1, acc.push((a, j)))
        } else {
            branch_spans(t, j + 1, inner, a, acc)
        }
    }
}

/// The texts of the spans.
pub open spec fn span_texts(t: Seq<char>, spans: Seq<(int, int)>) -> Seq<Seq<char>> {
    spans.map_values(|sp: (int, int)| t.subrange(sp.0, sp.1))
}

pub proof fn lemma_branch_spans(t: Seq<char>, j: int, inner: int, a: int, acc: Seq<(int, int)>, lo: int)
    requires
        0 <= lo <= a <= j <= t.len(),
        forall|k: int| 0 <= k < acc.len() ==> lo <= (#[trigger] acc[k]).0 <= acc[k].1 <= j,
    ensures
        ({
            let (spans, close) = branch_spans(t, j, inner, a, acc);
            &&& j <= close <= t.len()
            &&& spans.len() > 0
            &&& forall|k: int| 0 <= k < spans.len() ==> lo <= (#[trigger] spans[k]).0 <= spans[k].1 <= close
        }),
    decreases t.len() - j,
{
    if j < t.len() {
        let c = t[j];
        if c == '(' {
            lemma_branch_spans(t, j + 1, inner + 1, a, acc, lo);
        } else if c == ')' && inner == 0 {
        } else if c == ')' {
            lemma_branch_spans(t, j + 1, inner - 1, a, acc, lo);
        } else if c == '|' && inner == 0 {
            lemma_branch_spans(t, j + 1, inner, j + 1, acc.push((a, j)), lo);
        } else {
            lemma_branch_spans(t, j + 1, inner, a, acc, lo);
        }
    }
}

pub proof fn lemma_trim_len(s: Seq<char>)
    ensures
        trim(s).len() <= s.len(),
{
    crate::strings::lemma_lead_bounds(s);
    crate::strings::lemma_trail_bounds(crate::strings::trim_start(s));
}

/// What expanding `t` from index `i` inserts, with optionals `depth` deep
/// being skipped and the next tab stop numbered `stop`; and the number after
/// the last stop used. Optionals are dropped, a choice inserts its chosen
/// branch (itself expanded), a slot a numbered placeholder with its type and
/// a regex a numbered tab stop.
pub open spec fn expand_from(t: Seq<char>, i: int, depth: int, typed: Seq<char>, stop: int) -> (Seq<char>, int)
    decreases t.len(), t.len() - i,
{
    if i < 0 || i >= t.len() {
        (Seq::empty(), stop)
    } else {
        let c = t[i];
        if c == '[' {
            expand_from(t, i + 1, depth + 1, typed, stop)
        } else if c == ']' {
            expand_from(t, i + 1, if depth > 1 { depth - 1 } else { 0 }, typed, stop)
        } else if depth > 0 {
            expand_from(t, i + 1, depth, typed, stop)
        } else if c == '(' {
            let (spans, close) = branch_spans(t, i + 1, 0, i + 1, Seq::empty());
            let texts = span_texts(t, spans);
            let chosen = picked(texts, typed);
            proof {
                lemma_branch_spans(t, i + 1, 0, i + 1, Seq::empty(), i + 1);
                if texts.len() > 0 {
                    let k = pick_index(texts, typed);
                    if pick_index(texts, typed) != 0 {
                        lemma_first_matching(texts, first_word(typed), 0);
                    }
                    lemma_trim_len(texts[k]);
                }
            }
            let (inside, after) = expand_from(chosen, 0, 0, typed, stop);
            let next = if close < t.len() {
                close + 1
            } else {
                t.len() as int
            };
            let (rest, last) = expand_from(t, next, depth, typed, after);
            (inside + rest, last)
        } else if c == '%' || c == '<' {
            let close = if c == '%' {
                '%'
            } else {
                '>'
            };
            proof {
                crate::parser::lemma_find_from(t, i + 1, close);
            }
            let (end, next) = match crate::parser::find_from(t, i + 1, close) {
                Some(e) => (e, e + 1),
                None => (t.len() as int, t.len() as int),
            };
            let name = t.subrange(i + 1, end);
            let stripped = name.skip(lead_by(name, flag()) as int);
            let here = if c == '%' {
                "${"@ + crate::version::decimal_chars(stop as nat) + seq![':'] + stripped + seq!['}']
            } else {
                seq!['$'] + crate::version::decimal_chars(stop as nat)
            };
            let (rest, last) = expand_from(t, next, depth, typed, stop + 1);
            (here + rest, last)
        } else {
            let (rest, last) = expand_from(t, i + 1, depth, typed, stop);
            (seq![c] + rest, last)
        }
    }
}

/// The snippet a pattern inserts, the choice's branch that `typed` leads to
/// preferred, with whitespace collapsed to single spaces.
pub open spec fn snippet(pattern: Seq<char>, typed: Seq<char>) -> Seq<char> {
    joined(words_of(expand_from(pattern, 0, 0, typed, 1).0))
}


pub open spec fn usize_spans(v: Seq<(usize, usize)>) -> Seq<(int, int)> {
    v.map_values(|p: (usize, usize)| (p.0 as int, p.1 as int))
}

/// `branch_spans`, computed for the choice whose `(` is just before `from`.
fn spans_of(t: &Vec<char>, from: usize) -> (r: (Vec<(usize, usize)>, usize))
    requires
        from <= t@.len() <= i32::MAX,
    ensures
        (usize_spans(r.0@), r.1 as int) == branch_spans(t@, from as int, 0, from as int, Seq::empty()),
{
    let mut spans: Vec<(usize, usize)> = Vec::new();
    let mut inner: i32 = 0;
    let mut a = from;
    let mut j = from;
    assert(usize_spans(spans@) =~= Seq::<(int, int)>::empty());
    while j < t.len()
        invariant
            from <= a <= j <= t@.len() <= i32::MAX,
            0 <= inner <= j - from,
            branch_spans(t@, from as int, 0, from as int, Seq::empty()) == branch_spans(
                t@,
                j as int,
                inner as int,
                a as int,
                usize_spans(spans@),
            ),
        decreases t@.len() - j,
    {
        let c = t[j];
        if c == '(' {
            inner += 1;
        } else if c == ')' && inner == 0 {
            let ghost prev = spans@;
            spans.push((a, j));
            assert(usize_spans(spans@) =~= usize_spans(prev).push((a as int, j as int)));
            return (spans, j);
        } else if c == ')' {
            inner -= 1;
        } else if c == '|' && inner == 0 {
            let ghost prev = spans@;
            spans.push((a, j));
            assert(usize_spans(spans@) =~= usize_spans(prev).push((a as int, j as int)));
            a = j + 1;
        }
        j += 1;
    }
    let ghost prev = spans@;
    spans.push((a, t.len()));
    assert(usize_spans(spans@) =~= usize_spans(prev).push((a as int, t@.len() as int)));
    (spans, t.len())
}

/// Appends what expanding `t` inserts, numbering tab stops from `stop`;
/// returns the number after the last stop used.
#[verifier::rlimit(60)]
fn expand(t: &Vec<char>, typed: &Vec<char>, stop: usize, out: &mut Vec<char>) -> (next: usize)
    requires
        t@.len() <= i32::MAX,
        stop + t@.len() <= usize::MAX,
    ensures
        final(out)@ == old(out)@ + expand_from(t@, 0, 0, typed@, stop as int).0,
        next == expand_from(t@, 0, 0, typed@, stop as int).1,
        stop <= next <= stop + t@.len(),
    decreases t@.len(),
{
    let ghost whole = expand_from(t@, 0, 0, typed@, stop as int);
    let ghost produced: Seq<char> = Seq::empty();
    let n = t.len();
    let mut i: usize = 0;
    let mut depth: i32 = 0;
    let mut now = stop;
    while i < n
        invariant
            n == t@.len() <= i32::MAX,
            stop + n <= usize::MAX,
            i <= n,
            0 <= depth <= i,
            stop <= now <= stop + i,
            out@ == old(out)@ + produced,
            whole == expand_from(t@, 0, 0, typed@, stop as int),
            whole == (produced + expand_from(t@, i as int, depth as int, typed@, now as int).0, expand_from(
                t@,
                i as int,
                depth as int,
                typed@,
                now as int,
            ).1),
        decreases n - i,
    {
        let c = t[i];
        let ghost here = expand_from(t@, i as int, depth as int, typed@, now as int);
        if c == '[' {
            depth += 1;
            i += 1;
        } else if c == ']' {
            if depth > 1 {
                depth -= 1;
            } else {
                depth = 0;
            }
            i += 1;
        } else if depth > 0 {
            i += 1;
        } else if c == '(' {
            let (spans, close) = spans_of(t, i + 1);
            proof {
                lemma_branch_spans(t@, i + 1, 0, i + 1, Seq::empty(), i + 1);
            }
            let ghost sv = usize_spans(spans@);
            let mut texts: Vec<Vec<char>> = Vec::new();
            let mut k: usize = 0;
            while k < spans.len()
                invariant
                    k <= spans@.len(),
                    sv == usize_spans(spans@),
                    forall|m: int| 0 <= m < sv.len() ==> i + 1 <= (#[trigger] sv[m]).0 <= sv[m].1 <= close <= t@.len(),
                    crate::pattern::vecs_view(texts@) == span_texts(t@, sv).take(k as int),
                decreases spans@.len() - k,
            {
                let (a, b) = spans[k];
                assert(sv[k as int] == (a as int, b as int));
                let ghost prev = texts@;
                texts.push(crate::strings::slice(t, a, b));
                assert(crate::pattern::vecs_view(texts@) =~= crate::pattern::vecs_view(prev).push(
                    t@.subrange(a as int, b as int),
                ));
                assert(span_texts(t@, sv).take(k + 1) =~= span_texts(t@, sv).take(k as int).push(
                    t@.subrange(a as int, b as int),
                ));
                k += 1;
            }
            assert(span_texts(t@, sv).take(sv.len() as int) =~= span_texts(t@, sv));
            let ghost tv = span_texts(t@, sv);
            let pick = choose_index(&texts, typed);
            proof {
                if pick_index(tv, typed@) != 0 {
                    lemma_first_matching(tv, first_word(typed@), 0);
                }
                lemma_trim_len(tv[pick as int]);
                assert(tv[pick as int] == texts@[pick as int]@);
            }
            let chosen = trim_chars(&texts[pick as usize]);
            assert(chosen@ == picked(tv, typed@));
            let ghost before = out@;
            let after = expand(&chosen, typed, now, out);
            let next = if close < n {
                close + 1
            } else {
                n
            };
            proof {
                let inside = expand_from(chosen@, 0, 0, typed@, now as int);
                let rest = expand_from(t@, next as int, depth as int, typed@, after as int);
                assert(here == (inside.0 + rest.0, rest.1));
                assert(out@ =~= old(out)@ + (produced + inside.0));
                assert(whole.0 =~= (produced + inside.0) + rest.0);
                produced = produced + inside.0;
            }
            now = after;
            i = next;
        } else if c == '%' || c == '<' {
            let close = if c == '%' {
                '%'
            } else {
                '>'
            };
            proof {
                crate::parser::lemma_find_from(t@, i + 1, close);
            }
            let (end, next) = match crate::parser::find_index_from(t, i + 1, close) {
                Some(e) => (e, e + 1),
                None => (n, n),
            };
            let ghost before = out@;
            if c == '%' {
                let name = crate::strings::slice(t, i + 1, end);
                let stripped = strip_flags(&name);
                out.push('$');
                out.push('{');
                crate::version::append_decimal(out, now as u64);
                out.push(':');
                crate::source::append_chars(out, &stripped);
                out.push('}');
                proof {
                    reveal_strlit("${");
                    assert(out@ =~= before + ("${"@ + crate::version::decimal_chars(now as nat) + seq![':']
                        + stripped@ + seq!['}']));
                }
            } else {
                out.push('$');
                crate::version::append_decimal(out, now as u64);
                assert(out@ =~= before + (seq!['$'] + crate::version::decimal_chars(now as nat)));
            }
            proof {
                let rest = expand_from(t@, next as int, depth as int, typed@, now + 1);
                let piece = out@.subrange(before.len() as int, out@.len() as int);
                assert(out@ =~= before + piece);
                assert(here == (piece + rest.0, rest.1));
                assert(whole.0 =~= (produced + piece) + rest.0);
                assert(out@ =~= old(out)@ + (produced + piece));
                produced = produced + piece;
            }
            now = now + 1;
            i = next;
        } else {
            out.push(c);
            proof {
                let rest = expand_from(t@, i + 1, depth as int, typed@, now as int);
                assert(here == (seq![c] + rest.0, rest.1));
                assert(whole.0 =~= (produced + seq![c]) + rest.0);
                produced = produced + seq![c];
            }
            i += 1;
        }
    }
    assert(produced + Seq::<char>::empty() =~= produced);
    now
}

/// `name` without its leading `~`, `-` and `*`.
fn strip_flags(name: &Vec<char>) -> (out: Vec<char>)
    ensures
        out@ == name@.skip(lead_by(name@, flag()) as int),
{
    let n = name.len();
    let mut k: usize = 0;
    while k < n && (name[k] == '~' || name[k] == '-' || name[k] == '*')
        invariant
            k <= n == name@.len(),
            forall|j: int| 0 <= j < k ==> flag()(#[trigger] name@[j]),
        decreases n - k,
    {
        k += 1;
    }
    proof {
        crate::strings::lemma_lead_by_is(name@, flag(), k as int);
    }
    crate::strings::slice(name, k, n)
}

/// Turns a pattern into a snippet with a tab stop per slot, preferring the
/// branch of a choice that the user has begun to type, so accepting
/// `Message` after typing `send` does not rewrite the word under the cursor.
pub fn snippet_for_typed(pattern: &str, typed: &str) -> (r: String)
    requires
        pattern@.len() <= i32::MAX,
    ensures
        r@ == snippet(pattern@, typed@),
{
    let p = chars_of(pattern);
    let t = chars_of(typed);
    let mut out: Vec<char> = Vec::new();
    expand(&p, &t, 1, &mut out);
    assert(Seq::<char>::empty() + expand_from(p@, 0, 0, t@, 1).0 =~= expand_from(p@, 0, 0, t@, 1).0);
    let ws = crate::parser::words(&out);
    string_of(&join_words(&ws))
}

/// The snippet inserted when the user has typed nothing that picks a branch.
pub fn snippet_for(pattern: &str) -> (r: String)
    requires
        pattern@.len() <= i32::MAX,
    ensures
        r@ == snippet(pattern@, Seq::empty()),
{
    let r = snippet_for_typed(pattern, "");
    proof {
        reveal_strlit("");
        assert(""@ =~= Seq::<char>::empty());
    }
    r
}


// ------------------------------------------------------------ signatures

/// The text between a signature's opening parentheses and its first `)`.
pub open spec fn parameter_list(detail: Seq<char>) -> Seq<char> {
    let open = detail.skip(lead_by(detail, one_of('(', '(')) as int);
    match first_index_of(open, ')') {
        Some(k) => open.take(k),
        None => open,
    }
}

/// The non-blank pieces among the first `k` comma-separated pieces, trimmed.
pub open spec fn kept_pieces(pieces: Seq<Seq<char>>, k: int) -> Seq<Seq<char>>
    decreases k,
{
    if 0 < k <= pieces.len() {
        let prev = kept_pieces(pieces, k - 1);
        if trim(pieces[k - 1]).len() > 0 {
            prev.push(trim(pieces[k - 1]))
        } else {
            prev
        }
    } else {
        Seq::empty()
    }
}

/// A function's parameters as its signature lists them, `(a: text, b: number)
/// :: item` giving `a: text` and `b: number`.
pub open spec fn signature_parameter_texts(detail: Seq<char>) -> Seq<Seq<char>> {
    let pieces = split_on(parameter_list(detail), ',');
    kept_pieces(pieces, pieces.len() as int)
}

/// The parameters a declaration's signature lists, for signature help.
pub fn signature_parameters(detail: &str) -> (out: Vec<String>)
    ensures
        out@.map_values(|p: String| p@) == signature_parameter_texts(detail@),
{
    let chars = chars_of(detail);
    let open = crate::strings::strip_leading(&chars, '(', '(');
    let list = match find_char(&open, ')') {
        Some(k) => crate::strings::slice(&open, 0, k),
        None => open,
    };
    proof {
        match first_index_of(open@, ')') {
            Some(k) => {
                let w = k;
                assert(open@[w] == ')');
            },
            None => {},
        }
        assert(list@ == parameter_list(chars@));
    }
    let pieces = split_chars(&list, ',');
    let ghost all = split_on(list@, ',');
    let mut out: Vec<String> = Vec::new();
    let mut k: usize = 0;
    while k < pieces.len()
        invariant
            k <= pieces@.len(),
            pieces@.len() == all.len(),
            forall|i: int| 0 <= i < pieces@.len() ==> #[trigger] pieces@[i]@ == all[i],
            out@.map_values(|p: String| p@) == kept_pieces(all, k as int),
        decreases pieces@.len() - k,
    {
        let t = trim_chars(&pieces[k]);
        if t.len() > 0 {
            out.push(string_of(&t));
        }
        k += 1;
        proof {
            assert(out@.map_values(|p: String| p@) =~= kept_pieces(all, k as int));
        }
    }
    out
}

} // verus!
