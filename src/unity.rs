//! The engine's public surface: options, parsed lines and output rows.
use vstd::prelude::*;
use crate::collapse::{
    collapse_indices, collapsed, collapsed_prefix, lemma_collapsed_from_indices, same_key,
};
use crate::log::{
    block_entries_exec, blocks_exec, entries, normalize_exec, Entry, EntryModel, LogType,
};
use crate::text::{summary, summary_exec};
use vstd::std_specs::iter::IteratorSpec;

verus! {

/// The characters of `s`, in order.
fn chars_of(s: &str) -> (r: Vec<char>)
    ensures
        r@ == s@,
{
    let mut it = s.chars();
    let mut r: Vec<char> = Vec::new();
    loop
        invariant
            it.obeys_prophetic_iter_laws(),
            it.decrease() is Some,
            r@ + it.remaining() == s@,
        ensures
            r@ == s@,
        decreases it.decrease()->0,
    {
        match it.next() {
            Some(c) => {
                r.push(c);
            },
            None => {
                assert(r@ + it.remaining() =~= r@);
                break;
            },
        }
    }
    r
}

/// Relies on `String::from_iter` over characters: a string of exactly those characters.
#[verifier::external_body]
fn string_of(v: &Vec<char>) -> (r: String)
    ensures
        r@ == v@,
{
    String::from_iter(v.iter())
}

/// The display name of a severity.
pub open spec fn severity_name(t: LogType) -> Seq<char> {
    match t {
        LogType::Log => seq!['L', 'o', 'g'],
        LogType::Warning => seq!['W', 'a', 'r', 'n', 'i', 'n', 'g'],
        LogType::Error => seq!['E', 'r', 'r', 'o', 'r'],
        LogType::Unknown => seq!['U', 'n', 'k', 'n', 'o', 'w', 'n'],
    }
}

impl LogType {
    /// The display name of this severity.
    pub fn name(&self) -> (r: &'static str)
        ensures
            r@ == severity_name(*self),
    {
        match self {
            LogType::Log => {
                proof {
                    reveal_strlit("Log");
                }
                assert("Log"@ =~= severity_name(*self));
                "Log"
            },
            LogType::Warning => {
                proof {
                    reveal_strlit("Warning");
                }
                assert("Warning"@ =~= severity_name(*self));
                "Warning"
            },
            LogType::Error => {
                proof {
                    reveal_strlit("Error");
                }
                assert("Error"@ =~= severity_name(*self));
                "Error"
            },
            LogType::Unknown => {
                proof {
                    reveal_strlit("Unknown");
                }
                assert("Unknown"@ =~= severity_name(*self));
                "Unknown"
            },
        }
    }
}

/// One parsed log entry.
pub struct LogLine {
    pub log_type: LogType,
    /// The first line of the block.
    pub message: String,
    /// The whole block, verbatim.
    pub callstack: String,
    /// The frames after the marker line, without a leading logging-helper frame.
    pub trimmed_callstack: String,
}

impl View for LogLine {
    type V = EntryModel;

    open spec fn view(&self) -> EntryModel {
        EntryModel {
            log_type: self.log_type,
            message: self.message@,
            callstack: self.callstack@,
            trimmed_callstack: self.trimmed_callstack@,
        }
    }
}

impl LogLine {
    /// Whether both lines have the same severity and message.
    pub fn same(&self, other: &LogLine) -> (r: bool)
        ensures
            r == same_key(self@, other@),
    {
        self.log_type == other.log_type && self.message == other.message
    }

    /// The first `count` lines of the trimmed call stack, each trimmed, run together.
    pub fn short(&self, count: usize) -> (r: String)
        ensures
            r@ == summary(self.trimmed_callstack@, count as nat),
    {
        let s = chars_of(self.trimmed_callstack.as_str());
        string_of(&summary_exec(&s, count))
    }
}

/// One output record: severity, message and short call stack.
pub struct LogRow {
    pub log_type: LogType,
    pub message: String,
    pub short: String,
}

/// The engine's options.
pub struct UnityLog {
    /// How many lines of the call stack go into a row's summary.
    pub count: usize,
    /// Keep every entry rather than one per (severity, message) pair.
    pub no_collapse: bool,
}

impl Default for UnityLog {
    fn default() -> (r: UnityLog)
        ensures
            r.count == 3,
            !r.no_collapse,
    {
        UnityLog { count: 3, no_collapse: false }
    }
}

fn to_line(e: &Entry) -> (r: LogLine)
    ensures
        r@ == e@,
{
    LogLine {
        log_type: e.log_type,
        message: string_of(&e.message),
        callstack: string_of(&e.callstack),
        trimmed_callstack: string_of(&e.trimmed_callstack),
    }
}

impl UnityLog {
    /// The default options: three summary lines, collapsing on.
    pub fn new() -> (r: UnityLog)
        ensures
            r.count == 3,
            !r.no_collapse,
    {
        UnityLog { count: 3, no_collapse: false }
    }

    /// The entries of a raw log text: all of them in document order when
    /// collapsing is off, else the collapsed ones.
    pub fn parse(&self, text: &str) -> (r: Vec<LogLine>)
        ensures
            self.no_collapse ==> r@.map_values(|l: LogLine| l@) == entries(text@),
            !self.no_collapse ==> collapsed(entries(text@), r@.map_values(|l: LogLine| l@)),
    {
        let raw = chars_of(text);
        let norm = normalize_exec(&raw);
        let bs = blocks_exec(&norm);
        let primary = block_entries_exec(&bs, false);
        let es = if primary.len() == 0 {
            block_entries_exec(&bs, true)
        } else {
            primary
        };
        let ghost v = es@.map_values(|e: Entry| e@);
        assert(v == entries(text@));
        let mut out: Vec<LogLine> = Vec::new();
        if self.no_collapse {
            let mut i: usize = 0;
            while i < es.len()
                invariant
                    i <= es@.len(),
                    v == es@.map_values(|e: Entry| e@),
                    out@.map_values(|l: LogLine| l@) == v.subrange(0, i as int),
                decreases es@.len() - i,
            {
                let ghost before = out@.map_values(|l: LogLine| l@);
                let line = to_line(&es[i]);
                assert(line@ == v[i as int]);
                out.push(line);
                assert(out@.map_values(|l: LogLine| l@) =~= before.push(line@));
                assert(v.subrange(0, i + 1) =~= v.subrange(0, i as int).push(v[i as int]));
                i += 1;
            }
            assert(v.subrange(0, i as int) =~= v);
        } else {
            let idx = collapse_indices(&es);
            let mut k: usize = 0;
            while k < idx.len()
                invariant
                    k <= idx@.len(),
                    v == es@.map_values(|e: Entry| e@),
                    collapsed_prefix(v, idx@, es@.len() as int),
                    out@.len() == k,
                    forall|j: int| 0 <= j < k ==> #[trigger] out@[j]@ == v[idx@[j] as int],
                decreases idx@.len() - k,
            {
                let e = &es[idx[k]];
                out.push(to_line(e));
                k += 1;
            }
            proof {
                let r = out@.map_values(|l: LogLine| l@);
                assert forall|j: int| 0 <= j < r.len() implies #[trigger] r[j] == v[idx@[j] as int] by {
                    assert(r[j] == out@[j]@);
                }
                lemma_collapsed_from_indices(v, idx@, r);
            }
        }
        out
    }

    /// The output rows of parsed lines, each with its short call stack.
    pub fn rows(&self, lines: &Vec<LogLine>) -> (r: Vec<LogRow>)
        ensures
            r@.len() == lines@.len(),
            forall|k: int|
                0 <= k < r@.len() ==> {
                    &&& (#[trigger] r@[k]).log_type == lines@[k].log_type
                    &&& r@[k].message@ == lines@[k].message@
                    &&& r@[k].short@ == summary(lines@[k].trimmed_callstack@, self.count as nat)
                },
    {
        let mut out: Vec<LogRow> = Vec::new();
        let mut k: usize = 0;
        while k < lines.len()
            invariant
                k <= lines@.len(),
                out@.len() == k,
                forall|j: int|
                    0 <= j < k ==> {
                        &&& (#[trigger] out@[j]).log_type == lines@[j].log_type
                        &&& out@[j].message@ == lines@[j].message@
                        &&& out@[j].short@ == summary(lines@[j].trimmed_callstack@, self.count as nat)
                    },
            decreases lines@.len() - k,
        {
            let line = &lines[k];
            let row = LogRow {
                log_type: line.log_type,
                message: line.message.clone(),
                short: line.short(self.count),
            };
            out.push(row);
            k += 1;
        }
        out
    }
}

} // verus!
