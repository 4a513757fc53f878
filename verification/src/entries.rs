//! Documentation for structure entries: the `key: value` lines inside a
//! structure, such as `permission:` in a command.
//!
//! The database publishes nothing about entries, so this table is curated from
//! Skript's own published example for `Command`.
use vstd::prelude::*;

use crate::source::append_str;
use crate::editor::{entry_position, in_command_entry_position};
use crate::lookup::hover_code;
use crate::strings::{
    chars_of, eq_ignore_case, eq_ignore_case_chars, one_of, string_of, strip_trailing, trail_by, trim, trim_chars,
};
use crate::symbols::{FileSymbols, Symbol};

verus! {

/// One structure entry: the key as written, and what it does.
pub struct Entry {
    pub key: &'static str,
    pub summary: &'static str,
    /// Shown under the summary as an example when present.
    pub example: Option<&'static str>,
}

/// The entries Skript's `command` structure accepts.
pub fn command_entries() -> (entries: Vec<Entry>)
    ensures
        keys_of(entries@) == seq![
            "usage"@,
            "description"@,
            "permission"@,
            "permission message"@,
            "aliases"@,
            "executable by"@,
            "cooldown"@,
            "cooldown message"@,
            "cooldown bypass"@,
            "cooldown storage"@,
            "trigger"@,
        ],
{
    let entries = vec![
        Entry {
            key: "usage",
            summary: "Shown when the command is used incorrectly. If omitted, Skript builds one from the command's arguments.",
            example: Some("usage: /home set/remove <name>"),
        },
        Entry {
            key: "description",
            summary: "What the command does. Shown in help listings.",
            example: Some("description: Travel to one of your homes."),
        },
        Entry {
            key: "permission",
            summary: "The permission node a sender must hold. Without one, anybody may run the command.",
            example: Some("permission: skript.command.home"),
        },
        Entry {
            key: "permission message",
            summary: "Sent when the sender lacks the permission above. Defaults to Skript's own message.",
            example: Some("permission message: You cannot do that."),
        },
        Entry {
            key: "aliases",
            summary: "Other names the command answers to, separated by commas.",
            example: Some("aliases: /h, /sethome"),
        },
        Entry {
            key: "executable by",
            summary: "Who may run it: `players`, `console`, or `players and console`. Defaults to both.",
            example: Some("executable by: players"),
        },
        Entry {
            key: "cooldown",
            summary: "How long a player must wait between uses. A timespan, so `15 seconds` or `2 minutes`.",
            example: Some("cooldown: 15 seconds"),
        },
        Entry {
            key: "cooldown message",
            summary: "Sent while the cooldown is still running. `%remaining time%` and `%elapsed time%` are available.",
            example: Some("cooldown message: Wait %remaining time%."),
        },
        Entry {
            key: "cooldown bypass",
            summary: "A permission that exempts its holder from the cooldown.",
            example: Some("cooldown bypass: skript.command.home.admin"),
        },
        Entry {
            key: "cooldown storage",
            summary: "A variable to keep the cooldown in, so it survives a restart. Without this the cooldown is forgotten on reload.",
            example: Some("cooldown storage: {cooldown::%player%}"),
        },
        Entry {
            key: "trigger",
            summary: "The code that runs. This is the only entry that opens a section, and every command needs one.",
            example: None,
        },
    ];
    assert(keys_of(entries@) =~= seq![
        "usage"@,
        "description"@,
        "permission"@,
        "permission message"@,
        "aliases"@,
        "executable by"@,
        "cooldown"@,
        "cooldown message"@,
        "cooldown bypass"@,
        "cooldown storage"@,
        "trigger"@,
    ]);
    entries
}

/// A key as it is looked up: trimmed, then stripped of trailing colons, then
/// trimmed again.
pub open spec fn wanted_key(key: Seq<char>) -> Seq<char> {
    let t = trim(key);
    trim(t.take(t.len() - trail_by(t, one_of(':', ':'))))
}

/// The index of the first entry whose key is `wanted`, ignoring ASCII case.
pub open spec fn first_entry(keys: Seq<Seq<char>>, wanted: Seq<char>, i: int) -> Option<int>
    decreases keys.len() - i,
{
    if i < 0 || i >= keys.len() {
        None
    } else if eq_ignore_case(keys[i], wanted) {
        Some(i)
    } else {
        first_entry(keys, wanted, i + 1)
    }
}

pub open spec fn keys_of(entries: Seq<Entry>) -> Seq<Seq<char>> {
    entries.map_values(|e: Entry| e.key@)
}

/// Looks a key up, ignoring ASCII case, surrounding whitespace and a trailing
/// colon.
pub fn lookup<'a>(entries: &'a Vec<Entry>, key: &str) -> (found: Option<&'a Entry>)
    ensures
        match first_entry(keys_of(entries@), wanted_key(key@), 0) {
            Some(i) => found == Some(&entries@[i]),
            None => found is None,
        },
{
    let trimmed = trim_chars(&chars_of(key));
    let stripped = crate::strings::strip_trailing(&trimmed, ':', ':');
    let wanted = trim_chars(&stripped);
    let mut i: usize = 0;
    while i < entries.len()
        invariant
            i <= entries@.len(),
            wanted@ == wanted_key(key@),
            first_entry(keys_of(entries@), wanted@, 0) == first_entry(keys_of(entries@), wanted@, i as int),
        decreases entries@.len() - i,
    {
        assert(keys_of(entries@)[i as int] == entries@[i as int].key@);
        if eq_ignore_case_chars(&chars_of(entries[i].key), &wanted) {
            return Some(&entries[i]);
        }
        i += 1;
    }
    None
}

/// The hover card for an entry.
pub open spec fn entry_card(e: Entry) -> Seq<char> {
    "**"@ + e.key@ + "** — command entry\n\n"@ + e.summary@ + match e.example {
        Some(x) => "\n\n```skript\n"@ + x@ + "\n```"@,
        None => Seq::empty(),
    }
}

/// Renders the hover card for an entry.
pub fn hover(entry: &Entry) -> (card: String)
    ensures
        card@ == entry_card(*entry),
{
    let mut out: Vec<char> = Vec::new();
    append_str(&mut out, "**");
    append_str(&mut out, entry.key);
    append_str(&mut out, "** — command entry\n\n");
    append_str(&mut out, entry.summary);
    if let Some(example) = entry.example {
        append_str(&mut out, "\n\n```skript\n");
        append_str(&mut out, example);
        append_str(&mut out, "\n```");
    }
    assert(out@ =~= entry_card(*entry));
    string_of(&out)
}

/// The hover card for line `line_no`, whose text is `line`, when it sits
/// where a command entry belongs and, trimmed and stripped of its trailing
/// colons, names one of `entries`.
pub open spec fn entry_hover_of(entries: Seq<Entry>, symbols: Seq<Symbol>, line_no: u32, line: Seq<char>) -> Option<Seq<char>> {
    if entry_position(symbols, line_no) {
        match first_entry(keys_of(entries), wanted_key(hover_code(line)), 0) {
            Some(i) => Some(entry_card(entries[i])),
            None => None,
        }
    } else {
        None
    }
}

/// Describes a command entry under the cursor: line `line_no` of a file
/// whose symbols are `symbols`, with text `line`.
pub fn entry_hover(entries: &Vec<Entry>, symbols: &FileSymbols, line_no: u32, line: &str) -> (r: Option<String>)
    ensures
        match r {
            Some(card) => entry_hover_of(entries@, symbols.symbols@, line_no, line@) == Some(card@),
            None => entry_hover_of(entries@, symbols.symbols@, line_no, line@) is None,
        },
{
    if !in_command_entry_position(symbols, line_no) {
        return None;
    }
    let code = strip_trailing(&trim_chars(&chars_of(line)), ':', ':');
    let code = string_of(&code);
    match lookup(entries, code.as_str()) {
        Some(entry) => Some(hover(entry)),
        None => None,
    }
}


} // verus!
