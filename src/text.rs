//! Character-sequence primitives: pattern search, line splitting and trimming.
use vstd::prelude::*;

verus! {

/// `p` occurs in `s` starting at index `i`.
pub open spec fn matches_at(s: Seq<char>, p: Seq<char>, i: int) -> bool {
    0 <= i && i + p.len() <= s.len() && s.subrange(i, i + p.len()) == p
}

/// `p` occurs somewhere in `s`.
pub open spec fn contains(s: Seq<char>, p: Seq<char>) -> bool {
    exists|i: int| matches_at(s, p, i)
}

/// The first index at or after `i` where `p` occurs in `s`.
pub open spec fn find_from(s: Seq<char>, p: Seq<char>, i: int) -> Option<int>
    decreases s.len() + 1 - i,
{
    if i < 0 || i + p.len() > s.len() {
        None
    } else if matches_at(s, p, i) {
        Some(i)
    } else {
        find_from(s, p, i + 1)
    }
}

/// The last index at or before `i` where `p` occurs in `s`.
pub open spec fn rfind_from(s: Seq<char>, p: Seq<char>, i: int) -> Option<int>
    decreases i + 1,
{
    if i < 0 {
        None
    } else if matches_at(s, p, i) {
        Some(i)
    } else {
        rfind_from(s, p, i - 1)
    }
}

/// The first occurrence of `p` in `s`.
pub open spec fn find(s: Seq<char>, p: Seq<char>) -> Option<int> {
    find_from(s, p, 0)
}

/// The last occurrence of `p` in `s`.
pub open spec fn rfind(s: Seq<char>, p: Seq<char>) -> Option<int> {
    rfind_from(s, p, s.len() - p.len())
}

pub open spec fn newline() -> Seq<char> {
    seq!['\n']
}

/// Everything before the first line feed (the whole of `s` when it has none).
pub open spec fn first_line(s: Seq<char>) -> Seq<char> {
    match find(s, newline()) {
        Some(i) => s.subrange(0, i),
        None => s,
    }
}

/// Everything after the first line feed, when there is one.
pub open spec fn after_first_line(s: Seq<char>) -> Option<Seq<char>> {
    match find(s, newline()) {
        Some(i) => Some(s.subrange(i + 1, s.len() as int)),
        None => None,
    }
}

/// The lines of `s[start..]`: pieces separated by line feeds, where a final
/// line feed ends the last line rather than starting an empty one.
pub open spec fn lines_from(s: Seq<char>, start: int) -> Seq<Seq<char>>
    decreases s.len() - start,
{
    if start < 0 || start >= s.len() {
        seq![]
    } else {
        match find_from(s, newline(), start) {
            Some(i) => if start <= i < s.len() {
                seq![s.subrange(start, i)] + lines_from(s, i + 1)
            } else {
                seq![]
            },
            None => seq![s.subrange(start, s.len() as int)],
        }
    }
}

/// The lines of `s`.
pub open spec fn lines(s: Seq<char>) -> Seq<Seq<char>> {
    lines_from(s, 0)
}

/// The number of line feeds in `s`.
pub open spec fn count_newlines(s: Seq<char>) -> nat
    decreases s.len(),
{
    if s.len() == 0 {
        0
    } else {
        count_newlines(s.drop_last()) + if s.last() == '\n' {
            1nat
        } else {
            0nat
        }
    }
}

/// The number of lines of `s`, counted as `lines` splits them.
pub open spec fn line_count(s: Seq<char>) -> nat {
    if s.len() == 0 {
        0
    } else if s.last() == '\n' {
        count_newlines(s)
    } else {
        count_newlines(s) + 1
    }
}

/// Unicode `White_Space`.
pub open spec fn is_whitespace(c: char) -> bool {
    c == '\t' || c == '\n' || c == '\u{0B}' || c == '\u{0C}' || c == '\r' || c == ' '
        || c == '\u{85}' || c == '\u{A0}' || c == '\u{1680}' || ('\u{2000}' <= c && c
        <= '\u{200A}') || c == '\u{2028}' || c == '\u{2029}' || c == '\u{202F}' || c
        == '\u{205F}' || c == '\u{3000}'
}

/// The number of whitespace characters at the start of `s`.
pub open spec fn leading_ws(s: Seq<char>) -> nat
    decreases s.len(),
{
    if s.len() > 0 && is_whitespace(s[0]) {
        1 + leading_ws(s.drop_first())
    } else {
        0
    }
}

/// The number of whitespace characters at the end of `s`.
pub open spec fn trailing_ws(s: Seq<char>) -> nat
    decreases s.len(),
{
    if s.len() > 0 && is_whitespace(s.last()) {
        1 + trailing_ws(s.drop_last())
    } else {
        0
    }
}

/// `s` without leading and trailing whitespace.
pub open spec fn trim(s: Seq<char>) -> Seq<char> {
    let a = leading_ws(s) as int;
    if a == s.len() {
        seq![]
    } else {
        s.subrange(a, s.len() - trailing_ws(s) as int)
    }
}

pub fn is_whitespace_char(c: char) -> (r: bool)
    ensures
        r == is_whitespace(c),
{
    c == '\t' || c == '\n' || c == '\u{0B}' || c == '\u{0C}' || c == '\r' || c == ' ' || c
        == '\u{85}' || c == '\u{A0}' || c == '\u{1680}' || ('\u{2000}' <= c && c <= '\u{200A}')
        || c == '\u{2028}' || c == '\u{2029}' || c == '\u{202F}' || c == '\u{205F}' || c
        == '\u{3000}'
}

/// Whether `p` occurs in `s` at index `i`.
pub fn matches_at_exec(s: &Vec<char>, p: &Vec<char>, i: usize) -> (r: bool)
    ensures
        r == matches_at(s@, p@, i as int),
{
    if i > s.len() || p.len() > s.len() - i {
        return false;
    }
    let mut k: usize = 0;
    while k < p.len()
        invariant
            i + p@.len() <= s@.len() <= usize::MAX,
            k <= p@.len(),
            forall|j: int| 0 <= j < k ==> s@[i + j] == p@[j],
        decreases p@.len() - k,
    {
        if s[i + k] != p[k] {
            assert(s@.subrange(i as int, i + p@.len())[k as int] != p@[k as int]);
            return false;
        }
        k += 1;
    }
    assert(s@.subrange(i as int, i + p@.len()) =~= p@);
    true
}

/// The first occurrence of `p` in `s` at or after `from`.
pub fn find_from_exec(s: &Vec<char>, p: &Vec<char>, from: usize) -> (r: Option<usize>)
    ensures
        r matches Some(i) ==> find_from(s@, p@, from as int) == Some(i as int),
        r is None ==> find_from(s@, p@, from as int) is None,
{
    if from > s.len() || p.len() > s.len() - from {
        return None;
    }
    if p.len() == 0 {
        assert(s@.subrange(from as int, from as int) =~= p@);
        return Some(from);
    }
    let mut i = from;
    while p.len() <= s.len() - i
        invariant
            from <= i <= s@.len(),
            p@.len() > 0,
            find_from(s@, p@, from as int) == find_from(s@, p@, i as int),
        decreases s@.len() - i,
    {
        if matches_at_exec(s, p, i) {
            return Some(i);
        }
        i += 1;
    }
    None
}

/// The last occurrence of `p` in `s`.
pub fn rfind_exec(s: &Vec<char>, p: &Vec<char>) -> (r: Option<usize>)
    ensures
        r matches Some(i) ==> rfind(s@, p@) == Some(i as int),
        r is None ==> rfind(s@, p@) is None,
{
    if p.len() > s.len() {
        return None;
    }
    let mut i = s.len() - p.len();
    loop
        invariant
            i <= s@.len() - p@.len(),
            rfind(s@, p@) == rfind_from(s@, p@, i as int),
        decreases i,
    {
        if matches_at_exec(s, p, i) {
            return Some(i);
        }
        if i == 0 {
            assert(rfind_from(s@, p@, -1) is None);
            return None;
        }
        i -= 1;
    }
}

/// A copy of `s[from..to]`.
pub fn slice(s: &Vec<char>, from: usize, to: usize) -> (r: Vec<char>)
    requires
        from <= to <= s@.len(),
    ensures
        r@ == s@.subrange(from as int, to as int),
{
    let mut r: Vec<char> = Vec::new();
    let mut i = from;
    while i < to
        invariant
            from <= i <= to <= s@.len(),
            r@ == s@.subrange(from as int, i as int),
        decreases to - i,
    {
        r.push(s[i]);
        i += 1;
        assert(r@ =~= s@.subrange(from as int, i as int));
    }
    r
}

} // verus!

verus! {

/// The pieces of `ls` joined with nothing between them.
pub open spec fn concat(ls: Seq<Seq<char>>) -> Seq<char>
    decreases ls.len(),
{
    if ls.len() == 0 {
        seq![]
    } else {
        concat(ls.drop_last()) + ls.last()
    }
}

pub proof fn lemma_find_from_bounds(s: Seq<char>, p: Seq<char>, i: int)
    requires
        0 <= i,
    ensures
        find_from(s, p, i) matches Some(j) ==> i <= j && matches_at(s, p, j),
        find_from(s, p, i) is None ==> forall|j: int| i <= j ==> !matches_at(s, p, j),
    decreases s.len() + 1 - i,
{
    if !(i < 0 || i + p.len() > s.len()) && !matches_at(s, p, i) {
        lemma_find_from_bounds(s, p, i + 1);
        assert forall|j: int| i <= j && find_from(s, p, i) is None implies !matches_at(s, p, j) by {
            if j > i {
            }
        }
    }
}

pub proof fn lemma_rfind_from_bounds(s: Seq<char>, p: Seq<char>, i: int)
    ensures
        rfind_from(s, p, i) matches Some(j) ==> j <= i && matches_at(s, p, j) && forall|k: int|
            j < k <= i ==> !matches_at(s, p, k),
        rfind_from(s, p, i) is None ==> forall|j: int| j <= i ==> !matches_at(s, p, j),
    decreases i + 1,
{
    if i >= 0 && !matches_at(s, p, i) {
        lemma_rfind_from_bounds(s, p, i - 1);
    }
}

/// The last occurrence exists exactly when the pattern occurs at all.
pub proof fn lemma_rfind_contains(s: Seq<char>, p: Seq<char>)
    ensures
        rfind(s, p) is Some <==> contains(s, p),
        rfind(s, p) matches Some(j) ==> matches_at(s, p, j) && forall|k: int|
            j < k ==> !matches_at(s, p, k),
{
    lemma_rfind_from_bounds(s, p, s.len() - p.len());
}

} // verus!

verus! {

/// The first `n` lines of `s` (all of them when it has fewer), each trimmed,
/// run together with nothing between them.
pub open spec fn summary(s: Seq<char>, n: nat) -> Seq<char> {
    let ls = lines(s);
    let k = if n < ls.len() {
        n as int
    } else {
        ls.len() as int
    };
    concat(ls.subrange(0, k).map_values(|l: Seq<char>| trim(l)))
}

/// Appends the trimmed `s[a..b]` to `out`.
pub fn push_trimmed(out: &mut Vec<char>, s: &Vec<char>, a: usize, b: usize)
    requires
        a <= b <= s@.len(),
    ensures
        final(out)@ == old(out)@ + trim(s@.subrange(a as int, b as int)),
{
    let ghost t = s@.subrange(a as int, b as int);
    let mut lo = a;
    assert(s@.subrange(a as int, b as int) =~= t);
    while lo < b && is_whitespace_char(s[lo])
        invariant
            a <= lo <= b <= s@.len(),
            leading_ws(t) == (lo - a) + leading_ws(s@.subrange(lo as int, b as int)),
        decreases b - lo,
    {
        assert(s@.subrange(lo as int, b as int).drop_first() =~= s@.subrange(lo + 1, b as int));
        lo += 1;
    }
    if lo == b {
        assert(leading_ws(s@.subrange(lo as int, b as int)) == 0);
        return;
    }
    let mut hi = b;
    assert(s@.subrange(a as int, hi as int) =~= t);
    while hi > lo + 1 && is_whitespace_char(s[hi - 1])
        invariant
            a <= lo < hi <= b <= s@.len(),
            !is_whitespace(s@[lo as int]),
            trailing_ws(t) == (b - hi) + trailing_ws(s@.subrange(a as int, hi as int)),
        decreases hi,
    {
        assert(s@.subrange(a as int, hi as int).drop_last() =~= s@.subrange(a as int, hi - 1));
        hi -= 1;
    }
    assert(!is_whitespace(s@[hi - 1]));
    assert(trailing_ws(s@.subrange(a as int, hi as int)) == 0);
    assert(leading_ws(s@.subrange(lo as int, b as int)) == 0);
    let ghost start = out@;
    let mut i = lo;
    while i < hi
        invariant
            lo <= i <= hi <= s@.len(),
            out@ == start + s@.subrange(lo as int, i as int),
        decreases hi - i,
    {
        out.push(s[i]);
        i += 1;
        assert(out@ =~= start + s@.subrange(lo as int, i as int));
    }
    assert(t.subrange(lo - a, t.len() - (b - hi)) =~= s@.subrange(lo as int, hi as int));
}

/// The summary of `s` over its first `n` lines.
pub fn summary_exec(s: &Vec<char>, n: usize) -> (r: Vec<char>)
    ensures
        r@ == summary(s@, n as nat),
{
    let nl = vec!['\n'];
    assert(nl@ =~= newline());
    let mut out: Vec<char> = Vec::new();
    let mut start: usize = 0;
    let mut k: usize = 0;
    let ghost mut taken: Seq<Seq<char>> = seq![];
    let len = s.len();
    assert(out@ =~= concat(taken.map_values(|l: Seq<char>| trim(l))));
    while k < n && start < len
        invariant
            len == s@.len(),
            nl@ == newline(),
            start <= len,
            k <= n,
            taken.len() == k,
            lines(s@) == taken + lines_from(s@, start as int),
            out@ == concat(taken.map_values(|l: Seq<char>| trim(l))),
        decreases n - k,
    {
        proof {
            lemma_find_from_bounds(s@, nl@, start as int);
        }
        let next = match find_from_exec(s, &nl, start) {
            Some(i) => {
                push_trimmed(&mut out, s, start, i);
                i + 1
            },
            None => {
                push_trimmed(&mut out, s, start, len);
                len
            },
        };
        let ghost line = lines_from(s@, start as int)[0];
        proof {
            assert(lines_from(s@, start as int) =~= seq![line] + lines_from(s@, next as int));
            let m = taken.map_values(|l: Seq<char>| trim(l));
            taken = taken.push(line);
            assert(taken.map_values(|l: Seq<char>| trim(l)).drop_last() =~= m);
            assert(lines(s@) =~= taken + lines_from(s@, next as int));
        }
        start = next;
        k += 1;
    }
    proof {
        let ls = lines(s@);
        if start >= len {
            assert(lines_from(s@, start as int) =~= Seq::<Seq<char>>::empty());
            assert(ls =~= taken);
            assert(ls.subrange(0, ls.len() as int) =~= taken);
        } else {
            assert(ls.subrange(0, n as int) =~= taken);
        }
    }
    out
}

} // verus!

verus! {

/// `t` is a suffix of `s`.
pub open spec fn is_suffix(t: Seq<char>, s: Seq<char>) -> bool {
    t.len() <= s.len() && t == s.subrange(s.len() - t.len(), s.len() as int)
}

pub proof fn lemma_after_first_line_suffix(s: Seq<char>)
    ensures
        after_first_line(s) matches Some(r) ==> is_suffix(r, s),
{
    lemma_find_from_bounds(s, newline(), 0);
}

pub proof fn lemma_suffix_transitive(a: Seq<char>, b: Seq<char>, c: Seq<char>)
    requires
        is_suffix(a, b),
        is_suffix(b, c),
    ensures
        is_suffix(a, c),
{
    assert(a =~= c.subrange(c.len() - a.len(), c.len() as int));
}

pub proof fn lemma_count_newlines_concat(a: Seq<char>, b: Seq<char>)
    ensures
        count_newlines(a + b) == count_newlines(a) + count_newlines(b),
    decreases b.len(),
{
    if b.len() == 0 {
        assert(a + b =~= a);
    } else {
        lemma_count_newlines_concat(a, b.drop_last());
        assert((a + b).drop_last() =~= a + b.drop_last());
    }
}

/// A suffix never has more lines than the whole.
pub proof fn lemma_line_count_suffix(t: Seq<char>, s: Seq<char>)
    requires
        is_suffix(t, s),
    ensures
        line_count(t) <= line_count(s),
{
    let j = s.len() - t.len();
    lemma_count_newlines_concat(s.subrange(0, j), t);
    assert(s.subrange(0, j) + t =~= s);
    if t.len() > 0 {
        assert(t.last() == s.last());
    }
}

/// A summary is the run-together trimmed first lines, never more than `n` of
/// them, and the summary of empty text is empty.
pub proof fn lemma_summary_bounded(s: Seq<char>, n: nat)
    ensures
        ({
            let k = if n < lines(s).len() {
                n
            } else {
                lines(s).len()
            };
            &&& k <= n
            &&& k <= lines(s).len()
            &&& summary(s, n) == concat(lines(s).subrange(0, k as int).map_values(|l: Seq<char>| trim(l)))
        }),
        s.len() == 0 ==> summary(s, n).len() == 0,
{
    if s.len() == 0 {
        assert(lines(s) =~= Seq::<Seq<char>>::empty());
        assert(lines(s).subrange(0, 0).map_values(|l: Seq<char>| trim(l)) =~= Seq::<Seq<char>>::empty());
    }
}

} // verus!
