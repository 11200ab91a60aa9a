//! The log model: line-ending normalization, blocks, and entry extraction.
use vstd::prelude::*;
use crate::collapse::{collapsed, first_occurrence, is_first_entry};
use crate::text::{
    after_first_line, contains, find_from, find_from_exec, first_line, lemma_find_from_bounds,
    is_suffix, lemma_after_first_line_suffix, lemma_line_count_suffix, lemma_rfind_contains,
    lemma_suffix_transitive, line_count, matches_at, matches_at_exec, newline, rfind, rfind_exec,
    slice,
};

verus! {

/// How severe an entry is. `Unknown` marks entries found without the engine marker.
#[derive(Debug, Clone, Copy, PartialEq, Eq, Structural)]
pub enum LogType {
    Log,
    Warning,
    Error,
    Unknown,
}

/// The abstract content of one log entry.
pub struct EntryModel {
    pub log_type: LogType,
    pub message: Seq<char>,
    pub callstack: Seq<char>,
    pub trimmed_callstack: Seq<char>,
}

/// One log entry as extracted from a block, held as characters.
pub struct Entry {
    pub log_type: LogType,
    pub message: Vec<char>,
    pub callstack: Vec<char>,
    pub trimmed_callstack: Vec<char>,
}

impl View for Entry {
    type V = EntryModel;

    open spec fn view(&self) -> EntryModel {
        EntryModel {
            log_type: self.log_type,
            message: self.message@,
            callstack: self.callstack@,
            trimmed_callstack: self.trimmed_callstack@,
        }
    }
}

/// The substring that marks an engine-originated log call.
pub open spec fn marker() -> Seq<char> {
    seq!['U', 'n', 'i', 't', 'y', 'E', 'n', 'g', 'i', 'n', 'e', '.', 'D', 'e', 'b', 'u', 'g', ':', 'L', 'o', 'g']
}

/// A blank line: the boundary between blocks.
pub open spec fn delimiter() -> Seq<char> {
    seq!['\n', '\n']
}

pub open spec fn error_word() -> Seq<char> {
    seq!['E', 'r', 'r', 'o', 'r']
}

pub open spec fn warning_word() -> Seq<char> {
    seq!['W', 'a', 'r', 'n', 'i', 'n', 'g']
}

pub open spec fn debug_word() -> Seq<char> {
    seq!['D', 'e', 'b', 'u', 'g']
}

pub open spec fn log_word() -> Seq<char> {
    seq!['L', 'o', 'g']
}

pub open spec fn starts_with(s: Seq<char>, p: Seq<char>) -> bool {
    matches_at(s, p, 0)
}

/// `s` with every CRLF pair and every lone CR replaced by LF.
pub open spec fn normalize(s: Seq<char>) -> Seq<char>
    decreases s.len(),
{
    if s.len() == 0 {
        seq![]
    } else if s[0] == '\r' {
        if s.len() >= 2 && s[1] == '\n' {
            seq!['\n'] + normalize(s.subrange(2, s.len() as int))
        } else {
            seq!['\n'] + normalize(s.subrange(1, s.len() as int))
        }
    } else {
        seq![s[0]] + normalize(s.subrange(1, s.len() as int))
    }
}

/// The pieces of `s[start..]` between successive blank-line delimiters.
pub open spec fn pieces_from(s: Seq<char>, start: int) -> Seq<Seq<char>>
    decreases s.len() + 1 - start,
{
    if start < 0 || start > s.len() {
        seq![]
    } else {
        match find_from(s, delimiter(), start) {
            Some(i) => if start <= i && i + 2 <= s.len() {
                seq![s.subrange(start, i)] + pieces_from(s, i + 2)
            } else {
                seq![]
            },
            None => seq![s.subrange(start, s.len() as int)],
        }
    }
}

/// The blocks of `s`: its pieces between blank lines, without an empty last piece.
pub open spec fn blocks(s: Seq<char>) -> Seq<Seq<char>> {
    let p = pieces_from(s, 0);
    if p.len() > 0 && p.last().len() == 0 {
        p.drop_last()
    } else {
        p
    }
}

/// The severity named right after the marker.
pub open spec fn severity_of(rest: Seq<char>) -> LogType {
    if starts_with(rest, error_word()) {
        LogType::Error
    } else if starts_with(rest, warning_word()) {
        LogType::Warning
    } else {
        LogType::Log
    }
}

/// The user log region with a leading logging-helper frame removed; a region
/// that is only that frame leaves nothing.
pub open spec fn trim_helper_frame(user: Seq<char>) -> Seq<char> {
    let head = first_line(user);
    if contains(head, debug_word()) || contains(head, log_word()) {
        match after_first_line(user) {
            Some(rest) => rest,
            None => seq![],
        }
    } else {
        user
    }
}

/// The entry of a block found through its last marker, if the block has one
/// followed by a line feed.
pub open spec fn marker_entry(block: Seq<char>) -> Option<EntryModel> {
    match rfind(block, marker()) {
        None => None,
        Some(m) => {
            let tail = block.subrange(m, block.len() as int);
            match after_first_line(tail) {
                None => None,
                Some(user) => Some(
                    EntryModel {
                        log_type: severity_of(tail.subrange(marker().len() as int, tail.len() as int)),
                        message: first_line(block),
                        callstack: block,
                        trimmed_callstack: trim_helper_frame(user),
                    },
                ),
            }
        }
    }
}

/// The entry of a block read without the marker, if the block holds a line feed.
pub open spec fn plain_entry(block: Seq<char>) -> Option<EntryModel> {
    match after_first_line(block) {
        None => None,
        Some(rest) => Some(
            EntryModel {
                log_type: LogType::Unknown,
                message: first_line(block),
                callstack: block,
                trimmed_callstack: rest,
            },
        ),
    }
}

pub open spec fn block_entry(block: Seq<char>, plain: bool) -> Option<EntryModel> {
    if plain {
        plain_entry(block)
    } else {
        marker_entry(block)
    }
}

/// The entries of `bs` in order, skipping blocks that yield none.
pub open spec fn block_entries(bs: Seq<Seq<char>>, plain: bool) -> Seq<EntryModel> {
    bs.filter_map(|b: Seq<char>| block_entry(b, plain))
}

/// Whether the whole text is read without the marker: no block yields a marker entry.
pub open spec fn uses_fallback(text: Seq<char>) -> bool {
    block_entries(blocks(normalize(text)), false).len() == 0
}

/// The entries of a raw log text, before collapsing.
pub open spec fn entries(text: Seq<char>) -> Seq<EntryModel> {
    let bs = blocks(normalize(text));
    block_entries(bs, uses_fallback(text))
}

/// `s` with line endings normalized.
pub fn normalize_exec(s: &Vec<char>) -> (r: Vec<char>)
    ensures
        r@ == normalize(s@),
{
    let mut r: Vec<char> = Vec::new();
    let mut i: usize = 0;
    assert(s@.subrange(0, s@.len() as int) =~= s@);
    assert(r@ + normalize(s@) =~= normalize(s@));
    while i < s.len()
        invariant
            i <= s@.len(),
            normalize(s@) == r@ + normalize(s@.subrange(i as int, s@.len() as int)),
        decreases s@.len() - i,
    {
        let ghost rest = s@.subrange(i as int, s@.len() as int);
        if s[i] == '\r' {
            r.push('\n');
            if i + 1 < s.len() && s[i + 1] == '\n' {
                assert(rest.subrange(2, rest.len() as int) =~= s@.subrange(i + 2, s@.len() as int));
                i += 2;
            } else {
                assert(rest.subrange(1, rest.len() as int) =~= s@.subrange(i + 1, s@.len() as int));
                i += 1;
            }
        } else {
            r.push(s[i]);
            assert(rest.subrange(1, rest.len() as int) =~= s@.subrange(i + 1, s@.len() as int));
            i += 1;
        }
        proof {
            assert(normalize(s@) =~= r@ + normalize(s@.subrange(i as int, s@.len() as int)));
        }
    }
    assert(s@.subrange(i as int, s@.len() as int) =~= Seq::<char>::empty());
    assert(r@ + Seq::<char>::empty() =~= r@);
    r
}

/// The blocks of a normalized text.
pub fn blocks_exec(s: &Vec<char>) -> (r: Vec<Vec<char>>)
    ensures
        r@.map_values(|b: Vec<char>| b@) == blocks(s@),
{
    let delim: Vec<char> = vec!['\n', '\n'];
    assert(delim@ =~= delimiter());
    let mut out: Vec<Vec<char>> = Vec::new();
    let mut start: usize = 0;
    let n = s.len();
    loop
        invariant_except_break
            pieces_from(s@, 0) =~= out@.map_values(|b: Vec<char>| b@) + pieces_from(s@, start as int),
        invariant
            start <= s@.len(),
            n == s@.len(),
            delim@ == delimiter(),
        ensures
            pieces_from(s@, 0) =~= out@.map_values(|b: Vec<char>| b@),
        decreases s@.len() - start,
    {
        let found = find_from_exec(s, &delim, start);
        proof {
            lemma_find_from_bounds(s@, delim@, start as int);
        }
        match found {
            Some(i) => {
                let piece = slice(s, start, i);
                let ghost before = out@.map_values(|b: Vec<char>| b@);
                out.push(piece);
                assert(out@.map_values(|b: Vec<char>| b@) =~= before.push(piece@));
                assert(pieces_from(s@, start as int) == seq![piece@] + pieces_from(s@, i + 2));
                start = i + 2;
            },
            None => {
                let piece = slice(s, start, s.len());
                let ghost before = out@.map_values(|b: Vec<char>| b@);
                out.push(piece);
                assert(out@.map_values(|b: Vec<char>| b@) =~= before.push(piece@));
                assert(pieces_from(s@, start as int) == seq![piece@]);
                break;
            },
        }
    }
    if out.len() > 0 && out[out.len() - 1].len() == 0 {
        let ghost before = out@.map_values(|b: Vec<char>| b@);
        out.pop();
        assert(out@.map_values(|b: Vec<char>| b@) =~= before.drop_last());
    }
    out
}

fn marker_chars() -> (r: Vec<char>)
    ensures
        r@ == marker(),
{
    let r = vec!['U', 'n', 'i', 't', 'y', 'E', 'n', 'g', 'i', 'n', 'e', '.', 'D', 'e', 'b', 'u', 'g', ':', 'L', 'o', 'g'];
    assert(r@ =~= marker());
    r
}

/// The first line of `s`.
pub fn first_line_exec(s: &Vec<char>) -> (r: Vec<char>)
    ensures
        r@ == first_line(s@),
{
    let nl = vec!['\n'];
    assert(nl@ =~= newline());
    proof {
        lemma_find_from_bounds(s@, nl@, 0);
    }
    match find_from_exec(s, &nl, 0) {
        Some(i) => slice(s, 0, i),
        None => slice(s, 0, s.len()),
    }
}

/// What follows the first line feed of `s`, if it has one.
pub fn after_first_line_exec(s: &Vec<char>) -> (r: Option<Vec<char>>)
    ensures
        r matches Some(v) ==> after_first_line(s@) == Some(v@),
        r is None ==> after_first_line(s@) is None,
{
    let nl = vec!['\n'];
    assert(nl@ =~= newline());
    proof {
        lemma_find_from_bounds(s@, nl@, 0);
    }
    match find_from_exec(s, &nl, 0) {
        Some(i) => {
            let n = s.len();
            Some(slice(s, i + 1, n))
        },
        None => None,
    }
}

/// Whether `p` occurs in `s`.
pub fn contains_exec(s: &Vec<char>, p: &Vec<char>) -> (r: bool)
    ensures
        r == contains(s@, p@),
{
    proof {
        lemma_find_from_bounds(s@, p@, 0);
    }
    find_from_exec(s, p, 0).is_some()
}

fn starts_with_exec(s: &Vec<char>, p: &Vec<char>, from: usize) -> (r: bool)
    requires
        from <= s@.len(),
    ensures
        r == starts_with(s@.subrange(from as int, s@.len() as int), p@),
{
    let r = matches_at_exec(s, p, from);
    let ghost t = s@.subrange(from as int, s@.len() as int);
    proof {
        if from + p@.len() <= s@.len() {
            assert(t.subrange(0, p@.len() as int) =~= s@.subrange(from as int, from + p@.len()));
        }
    }
    r
}

/// The user log region without a leading logging-helper frame.
pub fn trim_helper_frame_exec(user: Vec<char>) -> (r: Vec<char>)
    ensures
        r@ == trim_helper_frame(user@),
{
    let head = first_line_exec(&user);
    let debug = vec!['D', 'e', 'b', 'u', 'g'];
    let log = vec!['L', 'o', 'g'];
    assert(debug@ =~= debug_word());
    assert(log@ =~= log_word());
    if contains_exec(&head, &debug) || contains_exec(&head, &log) {
        match after_first_line_exec(&user) {
            Some(rest) => rest,
            None => {
                let empty: Vec<char> = Vec::new();
                assert(empty@ =~= Seq::<char>::empty());
                empty
            },
        }
    } else {
        user
    }
}

/// The entry of a block found through its last marker.
pub fn marker_entry_exec(block: &Vec<char>) -> (r: Option<Entry>)
    ensures
        r matches Some(e) ==> marker_entry(block@) == Some(e@),
        r is None ==> marker_entry(block@) is None,
{
    let mk = marker_chars();
    proof {
        lemma_rfind_contains(block@, mk@);
    }
    let m = match rfind_exec(block, &mk) {
        Some(m) => m,
        None => return None,
    };
    let tail = slice(block, m, block.len());
    let user = match after_first_line_exec(&tail) {
        Some(u) => u,
        None => return None,
    };
    let ghost rest = tail@.subrange(marker().len() as int, tail@.len() as int);
    let error = vec!['E', 'r', 'r', 'o', 'r'];
    let warning = vec!['W', 'a', 'r', 'n', 'i', 'n', 'g'];
    assert(error@ =~= error_word());
    assert(warning@ =~= warning_word());
    let log_type = if starts_with_exec(&tail, &error, mk.len()) {
        LogType::Error
    } else if starts_with_exec(&tail, &warning, mk.len()) {
        LogType::Warning
    } else {
        LogType::Log
    };
    let e = Entry {
        log_type,
        message: first_line_exec(block),
        callstack: slice(block, 0, block.len()),
        trimmed_callstack: trim_helper_frame_exec(user),
    };
    assert(block@.subrange(0, block@.len() as int) =~= block@);
    Some(e)
}

/// The entry of a block read without the marker.
pub fn plain_entry_exec(block: &Vec<char>) -> (r: Option<Entry>)
    ensures
        r matches Some(e) ==> plain_entry(block@) == Some(e@),
        r is None ==> plain_entry(block@) is None,
{
    match after_first_line_exec(block) {
        None => None,
        Some(rest) => {
            let e = Entry {
                log_type: LogType::Unknown,
                message: first_line_exec(block),
                callstack: slice(block, 0, block.len()),
                trimmed_callstack: rest,
            };
            assert(block@.subrange(0, block@.len() as int) =~= block@);
            Some(e)
        },
    }
}

/// The entries of `bs`, read with or without the marker.
pub fn block_entries_exec(bs: &Vec<Vec<char>>, plain: bool) -> (r: Vec<Entry>)
    ensures
        r@.map_values(|e: Entry| e@) == block_entries(bs@.map_values(|b: Vec<char>| b@), plain),
{
    let mut out: Vec<Entry> = Vec::new();
    let mut i: usize = 0;
    while i < bs.len()
        invariant
            i <= bs@.len(),
            out@.map_values(|e: Entry| e@) == block_entries(
                bs@.map_values(|b: Vec<char>| b@).subrange(0, i as int),
                plain,
            ),
        decreases bs@.len() - i,
    {
        let ghost views = bs@.map_values(|b: Vec<char>| b@);
        let ghost before = out@.map_values(|e: Entry| e@);
        let found = if plain {
            plain_entry_exec(&bs[i])
        } else {
            marker_entry_exec(&bs[i])
        };
        assert(views.subrange(0, i + 1).drop_last() =~= views.subrange(0, i as int));
        match found {
            Some(e) => {
                out.push(e);
                assert(out@.map_values(|e: Entry| e@) =~= before + seq![e@]);
            },
            None => {},
        }
        i += 1;
    }
    assert(bs@.map_values(|b: Vec<char>| b@).subrange(0, i as int) =~= bs@.map_values(
        |b: Vec<char>| b@,
    ));
    out
}

} // verus!

verus! {

/// `s` holds no carriage return.
pub open spec fn has_no_cr(s: Seq<char>) -> bool {
    forall|i: int| 0 <= i < s.len() ==> s[i] != '\r'
}

pub proof fn lemma_normalize_has_no_cr(s: Seq<char>)
    ensures
        has_no_cr(normalize(s)),
    decreases s.len(),
{
    if s.len() > 0 {
        if s[0] == '\r' && s.len() >= 2 && s[1] == '\n' {
            lemma_normalize_has_no_cr(s.subrange(2, s.len() as int));
        } else {
            lemma_normalize_has_no_cr(s.subrange(1, s.len() as int));
        }
        let r = normalize(s);
        assert forall|i: int| 0 <= i < r.len() implies r[i] != '\r' by {
            if i > 0 {
                if s[0] == '\r' && s.len() >= 2 && s[1] == '\n' {
                    assert(r[i] == normalize(s.subrange(2, s.len() as int))[i - 1]);
                } else {
                    assert(r[i] == normalize(s.subrange(1, s.len() as int))[i - 1]);
                }
            }
        }
    }
}

pub proof fn lemma_normalize_identity(s: Seq<char>)
    requires
        has_no_cr(s),
    ensures
        normalize(s) == s,
    decreases s.len(),
{
    if s.len() > 0 {
        let rest = s.subrange(1, s.len() as int);
        assert(has_no_cr(rest)) by {
            assert forall|i: int| 0 <= i < rest.len() implies rest[i] != '\r' by {
                assert(rest[i] == s[i + 1]);
            }
        }
        lemma_normalize_identity(rest);
        assert(seq![s[0]] + rest =~= s);
    }
}

/// Normalizing line endings twice gives the same text as normalizing once.
pub proof fn lemma_normalize_idempotent(s: Seq<char>)
    ensures
        normalize(normalize(s)) == normalize(s),
{
    lemma_normalize_has_no_cr(s);
    lemma_normalize_identity(normalize(s));
}

/// An entry's message is the first line of its call stack, and its trimmed
/// call stack is a suffix of the call stack.
pub open spec fn well_shaped(e: EntryModel) -> bool {
    e.message == first_line(e.callstack) && is_suffix(e.trimmed_callstack, e.callstack)
}

pub proof fn lemma_block_entry_well_shaped(b: Seq<char>, plain: bool)
    ensures
        block_entry(b, plain) matches Some(e) ==> well_shaped(e),
{
    if plain {
        lemma_after_first_line_suffix(b);
    } else {
        lemma_rfind_contains(b, marker());
        if let Some(m) = rfind(b, marker()) {
            let tail = b.subrange(m, b.len() as int);
            assert(is_suffix(tail, b));
            lemma_after_first_line_suffix(tail);
            if let Some(user) = after_first_line(tail) {
                lemma_suffix_transitive(user, tail, b);
                lemma_after_first_line_suffix(user);
                if let Some(rest) = after_first_line(user) {
                    lemma_suffix_transitive(rest, user, b);
                }
                assert(b.subrange(b.len() as int, b.len() as int) =~= Seq::<char>::empty());
            }
        }
    }
}

pub proof fn lemma_block_entries_well_shaped(bs: Seq<Seq<char>>, plain: bool)
    ensures
        forall|k: int|
            0 <= k < block_entries(bs, plain).len() ==> well_shaped(
                #[trigger] block_entries(bs, plain)[k],
            ),
    decreases bs.len(),
{
    if bs.len() > 0 {
        lemma_block_entries_well_shaped(bs.drop_last(), plain);
        lemma_block_entry_well_shaped(bs.last(), plain);
        let prev = block_entries(bs.drop_last(), plain);
        let all = block_entries(bs, plain);
        assert forall|k: int| 0 <= k < all.len() implies well_shaped(#[trigger] all[k]) by {
            if k < prev.len() {
                assert(all[k] == prev[k]);
            }
        }
    }
}

/// Every produced entry, collapsed or not, has its message as the first line
/// of its call stack and a trimmed call stack with no more lines than the call stack.
pub proof fn lemma_output_well_shaped(text: Seq<char>, r: Seq<EntryModel>)
    requires
        r == entries(text) || collapsed(entries(text), r),
    ensures
        forall|k: int|
            0 <= k < r.len() ==> (#[trigger] r[k]).message == first_line(r[k].callstack) && line_count(
                r[k].trimmed_callstack,
            ) <= line_count(r[k].callstack),
{
    let es = entries(text);
    lemma_block_entries_well_shaped(blocks(normalize(text)), uses_fallback(text));
    assert forall|k: int| 0 <= k < r.len() implies (#[trigger] r[k]).message == first_line(
        r[k].callstack,
    ) && line_count(r[k].trimmed_callstack) <= line_count(r[k].callstack) by {
        if r == es {
            assert(well_shaped(es[k]));
        } else {
            assert(is_first_entry(es, r[k]));
            let i = choose|i: int| first_occurrence(es, i) && r[k] == es[i];
            assert(well_shaped(es[i]));
        }
        lemma_line_count_suffix(r[k].trimmed_callstack, r[k].callstack);
    }
}

/// The blocks of `bs` that yield an entry.
pub open spec fn surviving(bs: Seq<Seq<char>>, plain: bool) -> Seq<Seq<char>> {
    bs.filter(|b: Seq<char>| block_entry(b, plain) is Some)
}

pub proof fn lemma_block_entries_follow_blocks(bs: Seq<Seq<char>>, plain: bool)
    ensures
        block_entries(bs, plain).len() == surviving(bs, plain).len(),
        forall|k: int|
            0 <= k < block_entries(bs, plain).len() ==> block_entry(
                #[trigger] surviving(bs, plain)[k],
                plain,
            ) == Some(block_entries(bs, plain)[k]),
    decreases bs.len(),
{
    reveal(Seq::filter);
    if bs.len() > 0 {
        lemma_block_entries_follow_blocks(bs.drop_last(), plain);
    }
}

/// Without collapsing, the output has one entry per block that survived
/// extraction, in document order.
pub proof fn lemma_uncollapsed_follows_blocks(text: Seq<char>)
    ensures
        ({
            let bs = blocks(normalize(text));
            let plain = uses_fallback(text);
            &&& entries(text).len() == surviving(bs, plain).len()
            &&& forall|k: int|
                0 <= k < entries(text).len() ==> block_entry(#[trigger] surviving(bs, plain)[k], plain)
                    == Some(entries(text)[k])
        }),
{
    lemma_block_entries_follow_blocks(blocks(normalize(text)), uses_fallback(text));
}

/// The last marker of `b` is followed by a line feed.
pub open spec fn marker_line_complete(b: Seq<char>) -> bool {
    match rfind(b, marker()) {
        Some(m) => after_first_line(b.subrange(m, b.len() as int)) is Some,
        None => false,
    }
}

pub proof fn lemma_no_marker_entries(bs: Seq<Seq<char>>)
    ensures
        block_entries(bs, false).len() == 0 <==> forall|i: int|
            0 <= i < bs.len() ==> !marker_line_complete(#[trigger] bs[i]),
    decreases bs.len(),
{
    if bs.len() > 0 {
        lemma_no_marker_entries(bs.drop_last());
        let rest = bs.drop_last();
        if block_entries(bs, false).len() == 0 {
            assert forall|i: int| 0 <= i < bs.len() implies !marker_line_complete(#[trigger] bs[i]) by {
                if i < bs.len() - 1 {
                    assert(bs[i] == rest[i]);
                }
            }
        } else if forall|i: int| 0 <= i < bs.len() ==> !marker_line_complete(#[trigger] bs[i]) {
            assert forall|i: int| 0 <= i < rest.len() implies !marker_line_complete(#[trigger] rest[i]) by {
                assert(bs[i] == rest[i]);
            }
            assert(!marker_line_complete(bs[bs.len() - 1]));
        }
    }
}

/// The whole text is read without the marker whenever no block holds it, and,
/// when every block that holds it has a line feed after its last marker, only then.
pub proof fn lemma_fallback_without_marker(text: Seq<char>)
    ensures
        ({
            let bs = blocks(normalize(text));
            &&& (forall|i: int| 0 <= i < bs.len() ==> !contains(#[trigger] bs[i], marker()))
                ==> uses_fallback(text)
            &&& (forall|i: int|
                0 <= i < bs.len() && contains(#[trigger] bs[i], marker()) ==> marker_line_complete(bs[i]))
                ==> (uses_fallback(text) <==> forall|i: int|
                0 <= i < bs.len() ==> !contains(#[trigger] bs[i], marker()))
        }),
{
    let bs = blocks(normalize(text));
    lemma_no_marker_entries(bs);
    assert forall|i: int| 0 <= i < bs.len() && marker_line_complete(#[trigger] bs[i]) implies contains(
        bs[i],
        marker(),
    ) by {
        lemma_rfind_contains(bs[i], marker());
    }
}

} // verus!
