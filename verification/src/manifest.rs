//! Reading a Bukkit/Paper plugin manifest.
//!
//! Two formats are in use and both are handled: the classic `plugin.yml`, whose
//! dependencies live in the flat `depend`, `softdepend`, `loadbefore` and
//! `loadafter` lists, and Paper's `paper-plugin.yml`, with a nested
//! `dependencies: { server: { Skript: { required: true } } }` block.
//!
//! The reader handles the small, regular subset of YAML these files use:
//! top-level scalars, top-level block and flow sequences, and the nested
//! `dependencies.server.<Name>` mapping. A manifest that defeats it degrades to
//! "not detected" rather than to a wrong answer.
use vstd::prelude::*;

use crate::strings::{
    chars_eq, chars_of, eq_ignore_case, eq_ignore_case_chars, first_index_of, find_char,
    is_ascii_white, is_ascii_white_char, is_quote, is_square, lead, lead_index, lines, lines_of,
    lower_chars, lower_seq, slice, split_chars, split_on, string_of, strip_by, strip_quotes,
    strip_squares, trim, trim_bounds, trim_chars, trim_start, trim_end, trail, is_white,
};

verus! {

/// What a plugin's manifest tells us.
#[derive(Debug, Clone, Default, PartialEq, Eq)]
pub struct Manifest {
    pub name: String,
    pub version: String,
    /// Every plugin named as a dependency, from whichever schema was used.
    pub dependencies: Vec<String>,
}

/// A manifest as plain character sequences.
pub struct ManifestView {
    pub name: Seq<char>,
    pub version: Seq<char>,
    pub dependencies: Seq<Seq<char>>,
}

pub open spec fn strings_view(v: Seq<String>) -> Seq<Seq<char>> {
    v.map_values(|s: String| s@)
}

pub open spec fn char_vecs_view(v: Seq<Vec<char>>) -> Seq<Seq<char>> {
    v.map_values(|s: Vec<char>| s@)
}

impl View for Manifest {
    type V = ManifestView;

    open spec fn view(&self) -> ManifestView {
        ManifestView {
            name: self.name@,
            version: self.version@,
            dependencies: strings_view(self.dependencies@),
        }
    }
}

/// Whether `names` holds `name`, ignoring ASCII case.
pub open spec fn names_contain(names: Seq<Seq<char>>, name: Seq<char>) -> bool {
    exists|k: int| 0 <= k < names.len() && eq_ignore_case(#[trigger] names[k], name)
}

// ------------------------------------------------------------ comments

/// The quote state after reading `c`: a quote opens when none is open and
/// closes only on the same character.
pub open spec fn quote_after(quote: Option<char>, c: char) -> Option<char> {
    if is_quote(c) {
        match quote {
            Some(open) => if open == c {
                None
            } else {
                quote
            },
            None => Some(c),
        }
    } else {
        quote
    }
}

/// Where a trailing comment starts: the first `#` outside quotes that begins
/// the line or follows ASCII whitespace; the length when there is none.
pub open spec fn comment_cut(s: Seq<char>, i: int, quote: Option<char>) -> int
    decreases s.len() - i,
{
    if i < 0 || i >= s.len() {
        s.len() as int
    } else if s[i] == '#' && quote is None && (i == 0 || is_ascii_white(s[i - 1])) {
        i
    } else {
        comment_cut(s, i + 1, quote_after(quote, s[i]))
    }
}

/// A line without its trailing `# comment`.
pub open spec fn without_comment(s: Seq<char>) -> Seq<char> {
    s.take(comment_cut(s, 0, None))
}

// ------------------------------------------------------------ values

/// A scalar value: trimmed, with surrounding quotes removed.
pub open spec fn scalar_value(v: Seq<char>) -> Seq<char> {
    trim(strip_by(trim(v), |c: char| is_quote(c)))
}

/// Records `raw` as a dependency unless it is blank or already known.
pub open spec fn add_name(names: Seq<Seq<char>>, raw: Seq<char>) -> Seq<Seq<char>> {
    let name = scalar_value(raw);
    if name.len() > 0 && !names_contain(names, name) {
        names.push(name)
    } else {
        names
    }
}

/// Records each item in turn.
pub open spec fn add_names(names: Seq<Seq<char>>, items: Seq<Seq<char>>) -> Seq<Seq<char>>
    decreases items.len(),
{
    if items.len() == 0 {
        names
    } else {
        add_name(add_names(names, items.drop_last()), items.last())
    }
}

/// `depend`, `softdepend`, `loadbefore` or `loadafter`, in any case.
pub open spec fn dependency_key(key: Seq<char>) -> bool {
    let k = lower_seq(key);
    k == "depend"@ || k == "softdepend"@ || k == "loadbefore"@ || k == "loadafter"@
}

/// The keys of Paper's nested block that are not plugin names.
pub open spec fn grouping_key(key: Seq<char>) -> bool {
    let k = lower_seq(key);
    k == "server"@ || k == "bootstrap"@ || k == "required"@ || k == "load"@ || k
        == "join-classpath"@
}

/// The item of a block-sequence line: after `- `, or else after `-`.
pub open spec fn list_item(line: Seq<char>) -> Option<Seq<char>> {
    if line.len() >= 2 && line[0] == '-' && line[1] == ' ' {
        Some(line.skip(2))
    } else if line.len() >= 1 && line[0] == '-' {
        Some(line.skip(1))
    } else {
        None
    }
}

// ------------------------------------------------------------ the reader

/// What the reader knows after some lines.
pub struct ReadState {
    pub name: Seq<char>,
    pub version: Seq<char>,
    pub dependencies: Seq<Seq<char>>,
    /// Inside a top-level `dependencies:` block.
    pub in_dependencies: bool,
    /// The key whose block sequence the following `- item` lines continue.
    pub pending: Option<Seq<char>>,
}

pub open spec fn with_dependencies(st: ReadState, d: Seq<Seq<char>>) -> ReadState {
    ReadState {
        name: st.name,
        version: st.version,
        dependencies: d,
        in_dependencies: st.in_dependencies,
        pending: st.pending,
    }
}

/// A `key: value` line, after any reset that column zero brings.
pub open spec fn keyed_step(st: ReadState, key: Seq<char>, value: Seq<char>, indent: nat) -> ReadState {
    let st1 = if indent == 0 {
        ReadState {
            name: st.name,
            version: st.version,
            dependencies: st.dependencies,
            in_dependencies: eq_ignore_case(key, "dependencies"@),
            pending: None,
        }
    } else {
        st
    };
    let k = lower_seq(key);
    if k == "name"@ && indent == 0 {
        ReadState {
            name: scalar_value(value),
            version: st1.version,
            dependencies: st1.dependencies,
            in_dependencies: st1.in_dependencies,
            pending: st1.pending,
        }
    } else if k == "version"@ && indent == 0 {
        ReadState {
            name: st1.name,
            version: scalar_value(value),
            dependencies: st1.dependencies,
            in_dependencies: st1.in_dependencies,
            pending: st1.pending,
        }
    } else if dependency_key(key) {
        if value.len() == 0 {
            ReadState {
                name: st1.name,
                version: st1.version,
                dependencies: st1.dependencies,
                in_dependencies: st1.in_dependencies,
                pending: Some(key),
            }
        } else {
            with_dependencies(
                st1,
                add_names(st1.dependencies, split_on(strip_by(value, |c: char| is_square(c)), ',')),
            )
        }
    } else if st1.in_dependencies && indent > 0 && value.len() == 0 && !grouping_key(key) {
        with_dependencies(st1, add_name(st1.dependencies, key))
    } else {
        st1
    }
}

/// One line of the manifest.
pub open spec fn read_step(st: ReadState, raw: Seq<char>) -> ReadState {
    let text = without_comment(raw);
    let line = trim(text);
    if line.len() == 0 {
        st
    } else {
        read_content(st, text, line)
    }
}

/// A line with content: `text` without its comment, `line` its trimmed form.
pub open spec fn read_content(st: ReadState, text: Seq<char>, line: Seq<char>) -> ReadState {
    {
        match list_item(line) {
            Some(item) => match st.pending {
                Some(key) => if dependency_key(key) {
                    with_dependencies(st, add_name(st.dependencies, item))
                } else {
                    st
                },
                None => st,
            },
            None => match first_index_of(line, ':') {
                None => st,
                Some(c) => keyed_step(
                    st,
                    strip_by(trim(line.take(c)), |c: char| is_quote(c)),
                    trim(line.skip(c + 1)),
                    lead(text),
                ),
            },
        }
    }
}

pub open spec fn initial_state() -> ReadState {
    ReadState {
        name: Seq::empty(),
        version: Seq::empty(),
        dependencies: Seq::empty(),
        in_dependencies: false,
        pending: None,
    }
}

pub open spec fn read_lines(ls: Seq<Seq<char>>) -> ReadState
    decreases ls.len(),
{
    if ls.len() == 0 {
        initial_state()
    } else {
        read_step(read_lines(ls.drop_last()), ls.last())
    }
}

/// The manifest that `text` describes, when it names its plugin.
pub open spec fn parse_manifest(text: Seq<char>) -> Option<ManifestView> {
    let st = read_lines(lines_of(text));
    if st.name.len() > 0 {
        Some(ManifestView { name: st.name, version: st.version, dependencies: st.dependencies })
    } else {
        None
    }
}

pub open spec fn manifest_option_view(m: Option<Manifest>) -> Option<ManifestView> {
    match m {
        Some(x) => Some(x@),
        None => None,
    }
}

// ------------------------------------------------------------ executable

impl Manifest {
    /// Whether this plugin extends Skript: it names Skript, in any case, as a
    /// dependency.
    pub fn is_skript_addon(&self) -> (b: bool)
        ensures
            b == names_contain(self@.dependencies, "Skript"@),
    {
        let skript = chars_of("Skript");
        let mut i: usize = 0;
        while i < self.dependencies.len()
            invariant
                i <= self.dependencies@.len(),
                skript@ == "Skript"@,
                forall|j: int|
                    0 <= j < i ==> !eq_ignore_case(
                        #[trigger] strings_view(self.dependencies@)[j],
                        "Skript"@,
                    ),
            decreases self.dependencies@.len() - i,
        {
            let d = chars_of(self.dependencies[i].as_str());
            if eq_ignore_case_chars(&d, &skript) {
                assert(strings_view(self.dependencies@)[i as int] == d@);
                return true;
            }
            i += 1;
        }
        false
    }

    /// Whether this plugin is Skript itself.
    pub fn is_skript_itself(&self) -> (b: bool)
        ensures
            b == eq_ignore_case(self@.name, "Skript"@),
    {
        let name = chars_of(self.name.as_str());
        let skript = chars_of("Skript");
        eq_ignore_case_chars(&name, &skript)
    }
}

fn next_quote(quote: Option<char>, c: char) -> (q: Option<char>)
    ensures
        q == quote_after(quote, c),
{
    if c == '"' || c == '\'' {
        match quote {
            Some(open) => if open == c {
                None
            } else {
                quote
            },
            None => Some(c),
        }
    } else {
        quote
    }
}

/// Removes a trailing `# comment`, leaving `#` inside quotes alone.
pub fn strip_comment(line: &Vec<char>) -> (out: Vec<char>)
    ensures
        out@ == without_comment(line@),
{
    let mut quote: Option<char> = None;
    let mut i: usize = 0;
    while i < line.len()
        invariant
            i <= line@.len(),
            comment_cut(line@, 0, None) == comment_cut(line@, i as int, quote),
        decreases line@.len() - i,
    {
        let c = line[i];
        if c == '#' && quote.is_none() && (i == 0 || is_ascii_white_char(line[i - 1])) {
            return slice(line, 0, i);
        }
        quote = next_quote(quote, c);
        i += 1;
    }
    assert(line@.take(line@.len() as int) == line@);
    slice(line, 0, line.len())
}

/// A scalar value: trimmed, with surrounding quotes removed.
pub fn scalar(value: &Vec<char>) -> (out: Vec<char>)
    ensures
        out@ == scalar_value(value@),
{
    let t = trim_chars(value);
    let q = strip_quotes(&t);
    trim_chars(&q)
}

/// Records `raw` as a dependency unless it is blank or already known.
pub fn push_name(into: &mut Vec<Vec<char>>, raw: &Vec<char>)
    ensures
        char_vecs_view(final(into)@) == add_name(char_vecs_view(old(into)@), raw@),
{
    let name = scalar(raw);
    if name.len() == 0 {
        return;
    }
    let mut k: usize = 0;
    while k < into.len()
        invariant
            k <= into@.len(),
            into@ == old(into)@,
            name@ == scalar_value(raw@),
            forall|j: int|
                0 <= j < k ==> !eq_ignore_case(#[trigger] char_vecs_view(into@)[j], name@),
        decreases into@.len() - k,
    {
        if eq_ignore_case_chars(&into[k], &name) {
            assert(char_vecs_view(into@)[k as int] == into@[k as int]@);
            return;
        }
        k += 1;
    }
    let ghost before = into@;
    into.push(name);
    assert(char_vecs_view(into@) =~= char_vecs_view(before).push(scalar_value(raw@)));
}

/// Records each item in turn.
fn push_names(into: &mut Vec<Vec<char>>, items: &Vec<Vec<char>>)
    ensures
        char_vecs_view(final(into)@) == add_names(char_vecs_view(old(into)@), char_vecs_view(items@)),
{
    let ghost start = char_vecs_view(into@);
    let mut i: usize = 0;
    while i < items.len()
        invariant
            i <= items@.len(),
            char_vecs_view(into@) == add_names(start, char_vecs_view(items@).take(i as int)),
        decreases items@.len() - i,
    {
        push_name(into, &items[i]);
        i += 1;
        assert(char_vecs_view(items@).take(i as int).drop_last() =~= char_vecs_view(items@).take(
            (i - 1) as int,
        ));
    }
    assert(char_vecs_view(items@).take(items@.len() as int) =~= char_vecs_view(items@));
}

fn lower_is(key: &Vec<char>, word: &str) -> (b: bool)
    ensures
        b == (lower_seq(key@) == word@),
{
    let lk = lower_chars(key);
    let w = chars_of(word);
    chars_eq(&lk, &w)
}

/// `depend`, `softdepend`, `loadbefore` or `loadafter`, in any case.
pub fn is_dependency_key(key: &Vec<char>) -> (b: bool)
    ensures
        b == dependency_key(key@),
{
    lower_is(key, "depend") || lower_is(key, "softdepend") || lower_is(key, "loadbefore")
        || lower_is(key, "loadafter")
}

fn is_grouping_key(key: &Vec<char>) -> (b: bool)
    ensures
        b == grouping_key(key@),
{
    lower_is(key, "server") || lower_is(key, "bootstrap") || lower_is(key, "required")
        || lower_is(key, "load") || lower_is(key, "join-classpath")
}

fn item_of(line: &Vec<char>) -> (r: Option<Vec<char>>)
    ensures
        match list_item(line@) {
            Some(item) => r matches Some(v) && v@ == item,
            None => r is None,
        },
{
    let n = line.len();
    if n >= 2 && line[0] == '-' && line[1] == ' ' {
        Some(slice(line, 2, n))
    } else if n >= 1 && line[0] == '-' {
        Some(slice(line, 1, n))
    } else {
        None
    }
}

fn colon_of(line: &Vec<char>) -> (r: Option<usize>)
    ensures
        match first_index_of(line@, ':') {
            Some(c) => 0 <= c < line@.len() && r == Some(c as usize),
            None => r is None,
        },
        r matches Some(k) ==> k < line@.len(),
{
    let r = find_char(line, ':');
    proof {
        match r {
            Some(k) => {
                assert(line@[k as int] == ':');
                let w = choose|i: int|
                    0 <= i < line@.len() && line@[i] == ':' && forall|j: int|
                        0 <= j < i ==> line@[j] != ':';
                assert(0 <= w < line@.len() && line@[w] == ':');
                if w < k {
                    assert(line@[w] != ':');
                }
                if k < w {
                    assert(line@[k as int] != ':');
                }
            },
            None => {},
        }
    }
    r
}

/// The reader's state, held in executable form.
struct Reader {
    name: Vec<char>,
    version: Vec<char>,
    dependencies: Vec<Vec<char>>,
    in_dependencies: bool,
    pending: Option<Vec<char>>,
}

impl Reader {
    spec fn state(&self) -> ReadState {
        ReadState {
            name: self.name@,
            version: self.version@,
            dependencies: char_vecs_view(self.dependencies@),
            in_dependencies: self.in_dependencies,
            pending: match self.pending {
                Some(k) => Some(k@),
                None => None,
            },
        }
    }
}

fn keyed(st: &mut Reader, key: Vec<char>, value: Vec<char>, indent: usize)
    ensures
        final(st).state() == keyed_step(old(st).state(), key@, value@, indent as nat),
{
    if indent == 0 {
        let dependencies = chars_of("dependencies");
        st.in_dependencies = eq_ignore_case_chars(&key, &dependencies);
        st.pending = None;
    }
    if lower_is(&key, "name") && indent == 0 {
        st.name = scalar(&value);
    } else if lower_is(&key, "version") && indent == 0 {
        st.version = scalar(&value);
    } else if is_dependency_key(&key) {
        if value.len() == 0 {
            st.pending = Some(key);
        } else {
            let inner = strip_squares(&value);
            let items = split_chars(&inner, ',');
            assert(char_vecs_view(items@) =~= split_on(inner@, ','));
            push_names(&mut st.dependencies, &items);
        }
    } else if st.in_dependencies && indent > 0 && value.len() == 0 && !is_grouping_key(&key) {
        push_name(&mut st.dependencies, &key);
    }
}

fn read_line(st: &mut Reader, raw: &Vec<char>)
    ensures
        final(st).state() == read_step(old(st).state(), raw@),
{
    let text = strip_comment(raw);
    let (a, b) = trim_bounds(&text, 0, text.len());
    assert(text@.subrange(0, text@.len() as int) == text@);
    if a == b {
        return;
    }
    let line = slice(&text, a, b);
    read_text(st, &text, &line);
}

fn read_text(st: &mut Reader, text: &Vec<char>, line: &Vec<char>)
    ensures
        final(st).state() == read_content(old(st).state(), text@, line@),
{
    match item_of(line) {
        Some(item) => {
            let is_dep = match &st.pending {
                Some(key) => is_dependency_key(key),
                None => false,
            };
            if is_dep {
                push_name(&mut st.dependencies, &item);
            }
        },
        None => {
            match colon_of(&line) {
                None => {},
                Some(c) => {
                    let n = line.len();
                    let before = slice(line, 0, c);
                    let after = slice(line, c + 1, n);
                    let tb = trim_chars(&before);
                    let key = strip_quotes(&tb);
                    let value = trim_chars(&after);
                    let indent = lead_index(text, 0, text.len());
                    assert(line@.take(c as int) == before@);
                    assert(text@.subrange(0, text@.len() as int) == text@);
                    assert(line@.skip(c + 1) == after@);
                    keyed(st, key, value, indent);
                },
            }
        },
    }
}

/// Parses either manifest format; `None` when no plugin name is given.
pub fn parse(text: &str) -> (m: Option<Manifest>)
    ensures
        manifest_option_view(m) == parse_manifest(text@),
{
    let chars = chars_of(text);
    let ls = lines(&chars);
    let ghost all = lines_of(chars@);
    assert(char_vecs_view(ls@) =~= all);
    let mut st = Reader {
        name: Vec::new(),
        version: Vec::new(),
        dependencies: Vec::new(),
        in_dependencies: false,
        pending: None,
    };
    assert(char_vecs_view(st.dependencies@) =~= Seq::<Seq<char>>::empty());
    let mut i: usize = 0;
    while i < ls.len()
        invariant
            i <= ls@.len(),
            char_vecs_view(ls@) == all,
            st.state() == read_lines(all.take(i as int)),
        decreases ls@.len() - i,
    {
        read_line(&mut st, &ls[i]);
        i += 1;
        assert(all.take(i as int).drop_last() =~= all.take((i - 1) as int));
        assert(all.take(i as int).last() == ls@[i - 1]@);
    }
    assert(all.take(all.len() as int) =~= all);
    if st.name.len() == 0 {
        return None;
    }
    let mut deps: Vec<String> = Vec::new();
    let mut j: usize = 0;
    while j < st.dependencies.len()
        invariant
            j <= st.dependencies@.len(),
            strings_view(deps@) == char_vecs_view(st.dependencies@).take(j as int),
        decreases st.dependencies@.len() - j,
    {
        let ghost before = deps@;
        deps.push(string_of(&st.dependencies[j]));
        j += 1;
        assert(strings_view(deps@) =~= strings_view(before).push(st.dependencies@[j - 1]@));
        assert(char_vecs_view(st.dependencies@).take(j as int) =~= char_vecs_view(
            st.dependencies@,
        ).take((j - 1) as int).push(st.dependencies@[j - 1]@));
    }
    assert(char_vecs_view(st.dependencies@).take(st.dependencies@.len() as int) =~= char_vecs_view(
        st.dependencies@,
    ));
    Some(Manifest { name: string_of(&st.name), version: string_of(&st.version), dependencies: deps })
}

// ------------------------------------------------------------ laws

/// `trim` of a trimmed text changes nothing.
pub proof fn lemma_trim_idempotent(s: Seq<char>)
    ensures
        trim(trim(s)) == trim(s),
{
    let u = trim_start(s);
    crate::strings::lemma_lead_bounds(s);
    crate::strings::lemma_lead_bounds(u);
    crate::strings::lemma_trail_bounds(u);
    let t = trim(s);
    if t.len() == 0 {
        assert(trim_start(t) =~= t);
        crate::strings::lemma_trail_is(t, 0);
        assert(trim(t) =~= t);
    } else {
        assert(u.len() > 0);
        if lead(u) > 0 {
            assert(is_white(u[0]));
            assert(u[0] == s[lead(s) as int]);
        }
        assert(lead(u) == 0) by {
            if lead(u) > 0 {
                assert(is_white(u[0]));
                assert(u[0] == s[lead(s) as int]);
                assert(false);
            }
        }
        assert(t[0] == u[0]);
        assert(!is_white(t[0])) by {
            crate::strings::lemma_lead_is(u, 0);
            assert(u[0] == s[lead(s) as int]);
        }
        crate::strings::lemma_lead_is(t, 0);
        assert(trim_start(t) =~= t);
        assert(t[t.len() - 1] == u[u.len() - trail(u) - 1]);
        crate::strings::lemma_trail_is(t, 0);
        assert(trim_end(t) =~= t);
    }
}

/// Dependency names as the reader keeps them: non-empty, trimmed, and no two
/// the same but for ASCII case.
pub open spec fn clean_names(ds: Seq<Seq<char>>) -> bool {
    &&& forall|i: int| 0 <= i < ds.len() ==> (#[trigger] ds[i]).len() > 0 && trim(ds[i]) == ds[i]
    &&& forall|i: int, j: int| 0 <= i < j < ds.len() ==> !eq_ignore_case(#[trigger] ds[i], #[trigger] ds[j])
}

proof fn lemma_scalar_trimmed(v: Seq<char>)
    ensures
        trim(scalar_value(v)) == scalar_value(v),
{
    lemma_trim_idempotent(strip_by(trim(v), |c: char| is_quote(c)));
}

proof fn lemma_add_name_clean(names: Seq<Seq<char>>, raw: Seq<char>)
    requires
        clean_names(names),
    ensures
        clean_names(add_name(names, raw)),
{
    let name = scalar_value(raw);
    lemma_scalar_trimmed(raw);
    if name.len() > 0 && !names_contain(names, name) {
        let out = names.push(name);
        assert forall|i: int, j: int| 0 <= i < j < out.len() implies !eq_ignore_case(#[trigger] out[i], #[trigger] out[j]) by {
            if j == names.len() {
                assert(out[i] == names[i]);
                if eq_ignore_case(names[i], name) {
                    assert(names_contain(names, name));
                }
            } else {
                assert(out[i] == names[i] && out[j] == names[j]);
            }
        }
        assert forall|i: int| 0 <= i < out.len() implies (#[trigger] out[i]).len() > 0 && trim(out[i]) == out[i] by {
            if i < names.len() {
                assert(out[i] == names[i]);
            }
        }
    }
}

proof fn lemma_add_names_clean(names: Seq<Seq<char>>, items: Seq<Seq<char>>)
    requires
        clean_names(names),
    ensures
        clean_names(add_names(names, items)),
    decreases items.len(),
{
    if items.len() > 0 {
        lemma_add_names_clean(names, items.drop_last());
        lemma_add_name_clean(add_names(names, items.drop_last()), items.last());
    }
}

pub open spec fn clean_state(st: ReadState) -> bool {
    clean_names(st.dependencies) && trim(st.name) == st.name
}

proof fn lemma_read_step_clean(st: ReadState, raw: Seq<char>)
    requires
        clean_state(st),
    ensures
        clean_state(read_step(st, raw)),
{
    let text = without_comment(raw);
    let line = trim(text);
    if line.len() > 0 {
        match list_item(line) {
            Some(item) => {
                lemma_add_name_clean(st.dependencies, item);
            },
            None => match first_index_of(line, ':') {
                None => {},
                Some(c) => {
                    let key = strip_by(trim(line.take(c)), |c: char| is_quote(c));
                    let value = trim(line.skip(c + 1));
                    lemma_scalar_trimmed(value);
                    lemma_add_names_clean(st.dependencies, split_on(strip_by(value, |c: char| is_square(c)), ','));
                    lemma_add_name_clean(st.dependencies, key);
                },
            },
        }
    }
}

proof fn lemma_read_lines_clean(ls: Seq<Seq<char>>)
    ensures
        clean_state(read_lines(ls)),
    decreases ls.len(),
{
    if ls.len() == 0 {
        let st = initial_state();
        assert(trim(st.name) =~= st.name) by {
            crate::strings::lemma_trail_is(trim_start(st.name), 0);
        }
    } else {
        lemma_read_lines_clean(ls.drop_last());
        lemma_read_step_clean(read_lines(ls.drop_last()), ls.last());
    }
}

/// What a manifest read gives is tidy: the plugin's name is non-empty and
/// trimmed, and its dependencies are non-empty, trimmed, and distinct but for
/// ASCII case.
pub proof fn lemma_manifest_names_are_clean(text: Seq<char>)
    ensures
        parse_manifest(text) matches Some(m) ==> m.name.len() > 0 && trim(m.name) == m.name && clean_names(
            m.dependencies,
        ),
{
    lemma_read_lines_clean(lines_of(text));
}

} // verus!
