//! Skript version numbers as they appear in the `since` field of the syntax
//! database: free text such as `2.10`, `2.2-dev36`, `2.2-Fixes-V10`,
//! `2.0 beta 3` or `1.0, 2.6 (BlockData support)`.
//!
//! A version orders by `major.minor.patch`, then by a stage: a dev, alpha, beta
//! or pre build sorts before its release, a `-Fixes-` fork release after it.
use vstd::prelude::*;
use std::cmp::Ordering;

use crate::strings::{
    chars_of, has_prefix, is_digit, lower_chars, lower_seq, slice, starts_with, string_of, trim,
    trim_chars,
};

verus! {

/// A comparable Skript version.
#[derive(Debug, Clone, Copy, PartialEq, Eq, PartialOrd, Ord, Default)]
pub struct Version {
    pub major: u32,
    pub minor: u32,
    pub patch: u32,
    /// `-1` for a dev/alpha/beta/pre build, `0` for a release, `1` for a
    /// `-Fixes-` fork release.
    pub stage: i8,
}

// ------------------------------------------------------------------ ordering

/// The order on versions: lexicographic on `(major, minor, patch, stage)`.
pub open spec fn version_lt(a: Version, b: Version) -> bool {
    ||| a.major < b.major
    ||| (a.major == b.major && a.minor < b.minor)
    ||| (a.major == b.major && a.minor == b.minor && a.patch < b.patch)
    ||| (a.major == b.major && a.minor == b.minor && a.patch == b.patch && a.stage < b.stage)
}

pub open spec fn version_le(a: Version, b: Version) -> bool {
    version_lt(a, b) || a == b
}

/// `version_lt` is a strict total order: irreflexive, transitive, and any two
/// distinct versions are comparable one way round.
pub proof fn lemma_version_order(a: Version, b: Version, c: Version)
    ensures
        !version_lt(a, a),
        version_lt(a, b) ==> !version_lt(b, a),
        version_lt(a, b) && version_lt(b, c) ==> version_lt(a, c),
        a != b ==> (version_lt(a, b) || version_lt(b, a)),
{
}

// ---------------------------------------------------------- number parsing

pub open spec fn digit_value(c: char) -> nat {
    ((c as int) - ('0' as int)) as nat
}

/// The value of a run of decimal digits.
pub open spec fn decimal(s: Seq<char>) -> nat
    decreases s.len(),
{
    if s.len() == 0 {
        0
    } else {
        decimal(s.drop_last()) * 10 + digit_value(s.last())
    }
}

/// Length of the leading run of ASCII digits.
pub open spec fn digit_run(s: Seq<char>) -> nat
    decreases s.len(),
{
    if s.len() > 0 && is_digit(s[0]) {
        1 + digit_run(s.skip(1))
    } else {
        0
    }
}

pub proof fn lemma_digit_run_is(s: Seq<char>, k: int)
    requires
        0 <= k <= s.len(),
        forall|j: int| 0 <= j < k ==> is_digit(#[trigger] s[j]),
        k < s.len() ==> !is_digit(s[k]),
    ensures
        digit_run(s) == k,
    decreases s.len(),
{
    if k > 0 {
        assert forall|j: int| 0 <= j < k - 1 implies is_digit(#[trigger] s.skip(1)[j]) by {
            assert(s.skip(1)[j] == s[j + 1]);
        }
        if k - 1 < s.skip(1).len() {
            assert(s.skip(1)[k - 1] == s[k]);
        }
        lemma_digit_run_is(s.skip(1), k - 1);
    }
}

/// The leading `.`-separated number runs of a version atom (at most three
/// from `seen`), and the text after them.
pub open spec fn number_runs(s: Seq<char>, seen: nat) -> (Seq<nat>, Seq<char>)
    decreases 3 - seen,
{
    if seen >= 3 {
        (Seq::empty(), s)
    } else {
        let d = digit_run(s);
        if d == 0 {
            (Seq::empty(), s)
        } else {
            let value = decimal(s.take(d as int));
            let after = s.skip(d as int);
            if after.len() > 0 && after[0] == '.' {
                let (values, rest) = number_runs(after.skip(1), seen + 1);
                (seq![value] + values, rest)
            } else {
                (seq![value], after)
            }
        }
    }
}

pub open spec fn fixes_tag() -> Seq<char> {
    seq!['-', 'f', 'i', 'x', 'e', 's']
}

/// The ordering nudge of the text following the numbers.
pub open spec fn stage_of(rest: Seq<char>) -> i8 {
    let tag = lower_seq(trim(rest));
    if tag.len() == 0 {
        0
    } else if starts_with(tag, fixes_tag()) {
        1
    } else {
        -1i8
    }
}

/// What `Version::parse` yields for a version atom.
pub open spec fn parse_version(text: Seq<char>) -> Option<Version> {
    let (numbers, rest) = number_runs(trim(text), 0);
    if numbers.len() == 0 {
        None
    } else if exists|i: int| 0 <= i < numbers.len() && numbers[i] > u32::MAX {
        None
    } else {
        Some(
            Version {
                major: numbers[0] as u32,
                minor: if numbers.len() > 1 {
                    numbers[1] as u32
                } else {
                    0
                },
                patch: if numbers.len() > 2 {
                    numbers[2] as u32
                } else {
                    0
                },
                stage: stage_of(rest),
            },
        )
    }
}

/// Reads the digit run of `chars` starting at `start`: where it ends, and its
/// value when that fits in a `u32`.
fn read_digits(chars: &Vec<char>, start: usize) -> (r: (usize, Option<u32>))
    requires
        start <= chars@.len(),
    ensures
        start <= r.0 <= chars@.len(),
        r.0 - start == digit_run(chars@.skip(start as int)),
        decimal(chars@.subrange(start as int, r.0 as int)) <= u32::MAX ==> r.1 == Some(
            decimal(chars@.subrange(start as int, r.0 as int)) as u32,
        ),
        decimal(chars@.subrange(start as int, r.0 as int)) > u32::MAX ==> r.1 is None,
{
    let mut pos = start;
    let mut value: u32 = 0;
    let mut over = false;
    while pos < chars.len() && '0' <= chars[pos] && chars[pos] <= '9'
        invariant
            start <= pos <= chars@.len(),
            forall|j: int| start <= j < pos ==> is_digit(#[trigger] chars@[j]),
            !over ==> value == decimal(chars@.subrange(start as int, pos as int)),
            over ==> decimal(chars@.subrange(start as int, pos as int)) > u32::MAX,
        decreases chars@.len() - pos,
    {
        let d = (chars[pos] as u32) - ('0' as u32);
        proof {
            let before = chars@.subrange(start as int, pos as int);
            let after = chars@.subrange(start as int, pos + 1);
            assert(after.drop_last() == before);
            assert(after.last() == chars@[pos as int]);
            assert(decimal(after) == decimal(before) * 10 + d);
        }
        if !over {
            if value > 429496729 || (value == 429496729 && d > 5) {
                over = true;
            } else {
                value = value * 10 + d;
            }
        }
        pos += 1;
    }
    proof {
        let s = chars@.skip(start as int);
        assert forall|j: int| 0 <= j < pos - start implies is_digit(#[trigger] s[j]) by {
            assert(s[j] == chars@[start + j]);
        }
        if pos - start < s.len() {
            assert(s[pos - start] == chars@[pos as int]);
        }
        lemma_digit_run_is(s, pos - start);
    }
    if over {
        (pos, None)
    } else {
        (pos, Some(value))
    }
}

/// The stage of the text after the numbers.
fn read_stage(rest: &Vec<char>) -> (stage: i8)
    ensures
        stage == stage_of(rest@),
{
    let trimmed = trim_chars(rest);
    let tag = lower_chars(&trimmed);
    if tag.len() == 0 {
        0
    } else {
        let fixes = vec!['-', 'f', 'i', 'x', 'e', 's'];
        assert(fixes@ == fixes_tag());
        if has_prefix(&tag, &fixes) {
            1
        } else {
            -1
        }
    }
}

impl Version {
    pub fn new(major: u32, minor: u32, patch: u32) -> (v: Version)
        ensures
            v == (Version { major, minor, patch, stage: 0 }),
    {
        Version { major, minor, patch, stage: 0 }
    }

    /// The floor for entries whose `since` carries no number at all.
    pub fn ancient() -> (v: Version)
        ensures
            v == (Version { major: 0, minor: 0, patch: 0, stage: 0 }),
    {
        Version::new(0, 0, 0)
    }

    /// Parses one version atom such as `2.10`, `2.8.0`, `2.2-dev36`,
    /// `2.2-Fixes-V10`, `2.0 beta 3` or `1.0 pre-5`.
    pub fn parse(text: &str) -> (v: Option<Version>)
        ensures
            v == parse_version(text@),
    {
        let chars = chars_of(text);
        Version::parse_chars(&chars)
    }

    pub fn parse_chars(text: &Vec<char>) -> (v: Option<Version>)
        ensures
            v == parse_version(text@),
    {
        let t = trim_chars(text);
        let ghost full = number_runs(t@, 0);
        let mut numbers: [u32; 3] = [0, 0, 0];
        let mut seen: usize = 0;
        let mut pos: usize = 0;
        let ghost mut values: Seq<nat> = Seq::empty();
        assert(t@.skip(0) == t@);
        loop
            invariant_except_break
                full == number_runs(t@, 0),
                t@ == trim(text@),
                seen < 3,
                pos <= t@.len(),
                values.len() == seen,
                forall|i: int| 0 <= i < seen ==> values[i] <= u32::MAX && numbers[i] == values[i],
                full == (values + number_runs(t@.skip(pos as int), seen as nat).0, number_runs(
                    t@.skip(pos as int),
                    seen as nat,
                ).1),
            ensures
                full == number_runs(t@, 0),
                t@ == trim(text@),
                seen <= 3,
                pos <= t@.len(),
                values.len() == seen,
                forall|i: int| 0 <= i < seen ==> values[i] <= u32::MAX && numbers[i] == values[i],
                full == (values, t@.skip(pos as int)),
            decreases 3 - seen,
        {
            let ghost tail = t@.skip(pos as int);
            let (end, value) = read_digits(&t, pos);
            proof {
                assert(tail.take(digit_run(tail) as int) =~= t@.subrange(pos as int, end as int));
                assert(tail.skip(digit_run(tail) as int) =~= t@.skip(end as int));
            }
            if end == pos {
                assert(values + Seq::<nat>::empty() == values);
                break;
            }
            match value {
                None => {
                    proof {
                        let v = decimal(t@.subrange(pos as int, end as int));
                        let nr = number_runs(tail, seen as nat);
                        assert(digit_run(tail) > 0);
                        assert(nr.0[0] == v);
                        assert(full.0[seen as int] == nr.0[0]);
                        assert(full.0[seen as int] > u32::MAX);
                        assert(number_runs(trim(text@), 0).0 == full.0);
                    }
                    return None;
                },
                Some(number) => {
                    proof {
                        values = values.push(decimal(t@.subrange(pos as int, end as int)));
                    }
                    numbers[seen] = number;
                    seen += 1;
                    if end < t.len() && t[end] == '.' {
                        proof {
                            let after = t@.skip(end as int);
                            assert(after.skip(1) =~= t@.skip(end + 1));
                            assert(values.drop_last() + (seq![values.last()] + number_runs(
                                after.skip(1),
                                seen as nat,
                            ).0) =~= values + number_runs(after.skip(1), seen as nat).0);
                        }
                        pos = end + 1;
                        if seen == 3 {
                            assert(values + Seq::<nat>::empty() == values);
                            break;
                        }
                    } else {
                        proof {
                            assert(values.drop_last() + seq![values.last()] =~= values);
                        }
                        pos = end;
                        break;
                    }
                },
            }
        }
        if seen == 0 {
            return None;
        }
        let rest = slice(&t, pos, t.len());
        assert(rest@ =~= t@.skip(pos as int));
        let stage = read_stage(&rest);
        proof {
            assert(!(exists|i: int| 0 <= i < full.0.len() && full.0[i] > u32::MAX));
        }
        Some(
            Version {
                major: numbers[0],
                minor: if seen > 1 {
                    numbers[1]
                } else {
                    0
                },
                patch: if seen > 2 {
                    numbers[2]
                } else {
                    0
                },
                stage,
            },
        )
    }

    /// Compares two versions by `(major, minor, patch, stage)`.
    pub fn compare(&self, other: &Version) -> (o: Ordering)
        ensures
            (o == Ordering::Less) <==> version_lt(*self, *other),
            (o == Ordering::Equal) <==> *self == *other,
            (o == Ordering::Greater) <==> version_lt(*other, *self),
    {
        if self.major != other.major {
            if self.major < other.major {
                Ordering::Less
            } else {
                Ordering::Greater
            }
        } else if self.minor != other.minor {
            if self.minor < other.minor {
                Ordering::Less
            } else {
                Ordering::Greater
            }
        } else if self.patch != other.patch {
            if self.patch < other.patch {
                Ordering::Less
            } else {
                Ordering::Greater
            }
        } else if self.stage != other.stage {
            if self.stage < other.stage {
                Ordering::Less
            } else {
                Ordering::Greater
            }
        } else {
            Ordering::Equal
        }
    }

    pub fn lt(&self, other: &Version) -> (b: bool)
        ensures
            b == version_lt(*self, *other),
    {
        self.major < other.major || (self.major == other.major && self.minor < other.minor) || (
        self.major == other.major && self.minor == other.minor && self.patch < other.patch) || (
        self.major == other.major && self.minor == other.minor && self.patch == other.patch
            && self.stage < other.stage)
    }

    /// `major.minor`, or `major.minor.patch` when the patch is not zero. The
    /// stage is not shown.
    pub fn to_string(&self) -> (s: String)
        ensures
            s@ == display_version(*self),
    {
        let mut out: Vec<char> = Vec::new();
        append_decimal(&mut out, self.major as u64);
        out.push('.');
        append_decimal(&mut out, self.minor as u64);
        if self.patch != 0 {
            out.push('.');
            append_decimal(&mut out, self.patch as u64);
        }
        string_of(&out)
    }
}

// ------------------------------------------------------------------ display

/// The decimal digits of `n`, without leading zeros (`0` for zero).
pub open spec fn decimal_chars(n: nat) -> Seq<char>
    decreases n,
{
    if n < 10 {
        seq![(('0' as u32) + n) as char]
    } else {
        decimal_chars(n / 10).push((('0' as u32) + (n % 10)) as char)
    }
}

pub open spec fn display_version(v: Version) -> Seq<char> {
    if v.patch == 0 {
        decimal_chars(v.major as nat) + seq!['.'] + decimal_chars(v.minor as nat)
    } else {
        decimal_chars(v.major as nat) + seq!['.'] + decimal_chars(v.minor as nat) + seq!['.']
            + decimal_chars(v.patch as nat)
    }
}

fn digit_char(d: u64) -> (c: char)
    requires
        d < 10,
    ensures
        c == (('0' as u32) + d) as char,
{
    let code: u8 = 48 + (d as u8);
    code as char
}

/// The decimal digits of `n`.
pub fn decimal_of(n: u64) -> (out: Vec<char>)
    ensures
        out@ == decimal_chars(n as nat),
    decreases n,
{
    if n < 10 {
        vec![digit_char(n)]
    } else {
        let mut out = decimal_of(n / 10);
        out.push(digit_char(n % 10));
        out
    }
}

/// Appends the decimal digits of `n`.
pub fn append_decimal(out: &mut Vec<char>, n: u64)
    ensures
        final(out)@ == old(out)@ + decimal_chars(n as nat),
{
    let digits = decimal_of(n);
    let mut i: usize = 0;
    while i < digits.len()
        invariant
            i <= digits@.len(),
            out@ == old(out)@ + digits@.take(i as int),
        decreases digits@.len() - i,
    {
        out.push(digits[i]);
        i += 1;
        assert(digits@.take(i as int) =~= digits@.take((i - 1) as int).push(digits@[i - 1]));
    }
    assert(digits@.take(digits@.len() as int) =~= digits@);
}

// ------------------------------------------------------------------ `since`

/// The scanner state while splitting a `since` history.
pub struct SplitState {
    pub atoms: Seq<Seq<char>>,
    pub current: Seq<char>,
    pub depth: nat,
}

/// One character of the splitter: `(` and `)` track note depth and are
/// dropped, a top-level `,` ends an atom, anything else at the top level is
/// part of the current atom, and anything inside a note is dropped.
pub open spec fn split_step(st: SplitState, c: char) -> SplitState {
    if c == '(' {
        SplitState { depth: st.depth + 1, ..st }
    } else if c == ')' {
        SplitState { depth: if st.depth == 0 { 0 } else { (st.depth - 1) as nat }, ..st }
    } else if c == ',' && st.depth == 0 {
        SplitState { atoms: st.atoms.push(st.current), current: Seq::empty(), ..st }
    } else if st.depth == 0 {
        SplitState { current: st.current.push(c), ..st }
    } else {
        st
    }
}

pub open spec fn split_run(s: Seq<char>) -> SplitState
    decreases s.len(),
{
    if s.len() == 0 {
        SplitState { atoms: Seq::empty(), current: Seq::empty(), depth: 0 }
    } else {
        split_step(split_run(s.drop_last()), s.last())
    }
}

/// Trims each atom and drops the empty ones.
pub open spec fn keep_trimmed(atoms: Seq<Seq<char>>) -> Seq<Seq<char>>
    decreases atoms.len(),
{
    if atoms.len() == 0 {
        Seq::empty()
    } else {
        let kept = keep_trimmed(atoms.drop_last());
        let t = trim(atoms.last());
        if t.len() > 0 {
            kept.push(t)
        } else {
            kept
        }
    }
}

/// The comma-separated history atoms of a `since` text, ignoring commas
/// inside parentheses and dropping the parenthesised notes.
pub open spec fn since_atoms(s: Seq<char>) -> Seq<Seq<char>> {
    let st = split_run(s);
    keep_trimmed(st.atoms.push(st.current))
}

/// The smaller of an optional minimum and an optional candidate.
pub open spec fn min_option(best: Option<Version>, candidate: Option<Version>) -> Option<Version> {
    match (best, candidate) {
        (None, c) => c,
        (Some(b), None) => Some(b),
        (Some(b), Some(c)) => if version_lt(c, b) {
            Some(c)
        } else {
            Some(b)
        },
    }
}

/// The smallest version any atom parses to.
pub open spec fn min_parsed(atoms: Seq<Seq<char>>) -> Option<Version>
    decreases atoms.len(),
{
    if atoms.len() == 0 {
        None
    } else {
        min_option(min_parsed(atoms.drop_last()), parse_version(atoms.last()))
    }
}

pub fn split_atoms(since: &Vec<char>) -> (atoms: Vec<Vec<char>>)
    ensures
        atoms@.len() == since_atoms(since@).len(),
        forall|i: int| 0 <= i < atoms@.len() ==> #[trigger] atoms@[i]@ == since_atoms(since@)[i],
{
    let mut raw: Vec<Vec<char>> = Vec::new();
    let mut current: Vec<char> = Vec::new();
    let mut depth: usize = 0;
    let mut i: usize = 0;
    while i < since.len()
        invariant
            i <= since@.len(),
            depth <= i,
            split_run(since@.take(i as int)).depth == depth,
            split_run(since@.take(i as int)).current == current@,
            split_run(since@.take(i as int)).atoms.len() == raw@.len(),
            forall|j: int|
                0 <= j < raw@.len() ==> #[trigger] raw@[j]@ == split_run(
                    since@.take(i as int),
                ).atoms[j],
        decreases since@.len() - i,
    {
        let c = since[i];
        assert(since@.take(i + 1).drop_last() == since@.take(i as int));
        if c == '(' {
            depth += 1;
        } else if c == ')' {
            if depth > 0 {
                depth -= 1;
            }
        } else if c == ',' && depth == 0 {
            raw.push(current);
            current = Vec::new();
        } else if depth == 0 {
            current.push(c);
        }
        i += 1;
    }
    assert(since@.take(since@.len() as int) == since@);
    raw.push(current);
    let ghost all = split_run(since@).atoms.push(split_run(since@).current);
    assert(forall|j: int| 0 <= j < raw@.len() ==> #[trigger] raw@[j]@ == all[j]);
    let mut atoms: Vec<Vec<char>> = Vec::new();
    let mut k: usize = 0;
    while k < raw.len()
        invariant
            k <= raw@.len(),
            raw@.len() == all.len(),
            forall|j: int| 0 <= j < raw@.len() ==> #[trigger] raw@[j]@ == all[j],
            atoms@.len() == keep_trimmed(all.take(k as int)).len(),
            forall|j: int|
                0 <= j < atoms@.len() ==> #[trigger] atoms@[j]@ == keep_trimmed(
                    all.take(k as int),
                )[j],
        decreases raw@.len() - k,
    {
        assert(all.take(k + 1).drop_last() == all.take(k as int));
        let t = trim_chars(&raw[k]);
        if t.len() > 0 {
            atoms.push(t);
        }
        k += 1;
    }
    assert(all.take(all.len() as int) == all);
    atoms
}

/// The version a syntax element first appeared in, taken from its `since`
/// text: the earliest version any history atom names, or `None` when no atom
/// holds a number.
pub fn parse_since(since: &str) -> (v: Option<Version>)
    ensures
        v == min_parsed(since_atoms(since@)),
{
    let chars = chars_of(since);
    let atoms = split_atoms(&chars);
    let ghost spec_atoms = since_atoms(chars@);
    let mut best: Option<Version> = None;
    let mut i: usize = 0;
    while i < atoms.len()
        invariant
            i <= atoms@.len(),
            atoms@.len() == spec_atoms.len(),
            forall|j: int| 0 <= j < atoms@.len() ==> #[trigger] atoms@[j]@ == spec_atoms[j],
            best == min_parsed(spec_atoms.take(i as int)),
        decreases atoms@.len() - i,
    {
        assert(spec_atoms.take(i + 1).drop_last() == spec_atoms.take(i as int));
        let parsed = Version::parse_chars(&atoms[i]);
        best = match (best, parsed) {
            (None, c) => c,
            (Some(b), None) => Some(b),
            (Some(b), Some(c)) => if c.lt(&b) {
                Some(c)
            } else {
                Some(b)
            },
        };
        i += 1;
    }
    assert(spec_atoms.take(spec_atoms.len() as int) == spec_atoms);
    best
}

/// `parse_since` is the minimum of the parsed atoms: it is one of them, and
/// no parsed atom is smaller; it is `None` exactly when no atom parses.
pub proof fn lemma_since_is_minimum(atoms: Seq<Seq<char>>)
    ensures
        min_parsed(atoms) is None <==> (forall|i: int|
            0 <= i < atoms.len() ==> parse_version(#[trigger] atoms[i]) is None),
        min_parsed(atoms) matches Some(m) ==> (exists|i: int|
            0 <= i < atoms.len() && parse_version(#[trigger] atoms[i]) == Some(m)),
        min_parsed(atoms) matches Some(m) ==> (forall|i: int|
            0 <= i < atoms.len() && (#[trigger] parse_version(atoms[i])) is Some ==> version_le(
                m,
                parse_version(atoms[i])->0,
            )),
    decreases atoms.len(),
{
    if atoms.len() > 0 {
        let rest = atoms.drop_last();
        lemma_since_is_minimum(rest);
        assert forall|i: int| 0 <= i < rest.len() implies #[trigger] rest[i] == atoms[i] by {}
        let last = atoms.len() - 1;
        assert(atoms[last] == atoms.last());
        if min_parsed(atoms) is None {
            assert forall|i: int| 0 <= i < atoms.len() implies parse_version(
                #[trigger] atoms[i],
            ) is None by {
                if i < last {
                    assert(rest[i] == atoms[i]);
                }
            }
        }
        match min_parsed(atoms) {
            Some(m) => {
                if min_parsed(rest) == Some(m) {
                    let i = choose|i: int|
                        0 <= i < rest.len() && parse_version(#[trigger] rest[i]) == Some(m);
                    assert(atoms[i] == rest[i]);
                } else {
                    assert(parse_version(atoms[last]) == Some(m));
                }
                assert forall|i: int|
                    0 <= i < atoms.len() && (#[trigger] parse_version(
                        atoms[i],
                    )) is Some implies version_le(m, parse_version(atoms[i])->0) by {
                    if i < last {
                        assert(rest[i] == atoms[i]);
                        assert(parse_version(rest[i]) is Some);
                    }
                }
            },
            None => {},
        }
    }
}

} // verus!
