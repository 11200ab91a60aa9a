//! Collapsing: entries ordered by message, then by severity (Log, Warning,
//! Error, Unknown), keeping the first entry in document order of each
//! (severity, message) pair.
use vstd::prelude::*;
use crate::log::{Entry, EntryModel, LogType};

verus! {

/// `a` and `b` agree before index `k`, and `k` decides that `a` comes first.
pub open spec fn lex_lt_at(a: Seq<char>, b: Seq<char>, k: int) -> bool {
    &&& 0 <= k <= a.len()
    &&& k <= b.len()
    &&& forall|j: int| 0 <= j < k ==> a[j] == b[j]
    &&& (k == a.len() && k < b.len()) || (k < a.len() && k < b.len() && a[k] < b[k])
}

/// Lexicographic order on characters, as `str` orders text.
pub open spec fn lex_lt(a: Seq<char>, b: Seq<char>) -> bool {
    exists|k: int| lex_lt_at(a, b, k)
}

/// The rank of a severity among entries with equal messages.
pub open spec fn rank(t: LogType) -> int {
    match t {
        LogType::Log => 0,
        LogType::Warning => 1,
        LogType::Error => 2,
        LogType::Unknown => 3,
    }
}

/// The collapsing order: by message, then by severity rank.
pub open spec fn key_lt(a: EntryModel, b: EntryModel) -> bool {
    lex_lt(a.message, b.message) || (a.message == b.message && rank(a.log_type) < rank(
        b.log_type,
    ))
}

/// `a` and `b` share severity and message.
pub open spec fn same_key(a: EntryModel, b: EntryModel) -> bool {
    a.log_type == b.log_type && a.message == b.message
}

/// `es[i]` is the first entry of `es` with its severity and message.
pub open spec fn first_occurrence(es: Seq<EntryModel>, i: int) -> bool {
    0 <= i < es.len() && forall|j: int| 0 <= j < i ==> !same_key(#[trigger] es[j], es[i])
}

/// `e` is the first entry of `es` with its severity and message.
pub open spec fn is_first_entry(es: Seq<EntryModel>, e: EntryModel) -> bool {
    exists|i: int| first_occurrence(es, i) && e == es[i]
}

/// `r` is `es` collapsed: the first entry of each (severity, message) pair,
/// in strictly increasing collapsing order.
pub open spec fn collapsed(es: Seq<EntryModel>, r: Seq<EntryModel>) -> bool {
    &&& forall|a: int, b: int| 0 <= a < b < r.len() ==> key_lt(r[a], r[b])
    &&& forall|k: int| 0 <= k < r.len() ==> is_first_entry(es, #[trigger] r[k])
    &&& forall|i: int|
        first_occurrence(es, i) ==> exists|k: int| 0 <= k < r.len() && r[k] == es[i]
}

pub proof fn lemma_lex_irreflexive(a: Seq<char>)
    ensures
        !lex_lt(a, a),
{
    assert forall|k: int| !lex_lt_at(a, a, k) by {}
}

pub proof fn lemma_lex_transitive(a: Seq<char>, b: Seq<char>, c: Seq<char>)
    requires
        lex_lt(a, b),
        lex_lt(b, c),
    ensures
        lex_lt(a, c),
{
    let k1 = choose|k: int| lex_lt_at(a, b, k);
    let k2 = choose|k: int| lex_lt_at(b, c, k);
    if k1 <= k2 {
        assert(lex_lt_at(a, c, k1));
    } else {
        assert(lex_lt_at(a, c, k2));
    }
}

pub proof fn lemma_key_irreflexive(a: EntryModel, b: EntryModel)
    requires
        same_key(a, b),
    ensures
        !key_lt(a, b),
{
    lemma_lex_irreflexive(a.message);
}

pub proof fn lemma_key_transitive(a: EntryModel, b: EntryModel, c: EntryModel)
    requires
        key_lt(a, b),
        key_lt(b, c),
    ensures
        key_lt(a, c),
{
    if lex_lt(a.message, b.message) && lex_lt(b.message, c.message) {
        lemma_lex_transitive(a.message, b.message, c.message);
    }
}

/// Every entry has a first occurrence of its key at or before it.
pub proof fn lemma_first_occurrence_exists(es: Seq<EntryModel>, j: int)
    requires
        0 <= j < es.len(),
    ensures
        exists|f: int| 0 <= f <= j && first_occurrence(es, f) && same_key(es[f], es[j]),
    decreases j,
{
    if first_occurrence(es, j) {
        assert(same_key(es[j], es[j]));
    } else {
        let j2 = choose|j2: int| 0 <= j2 < j && same_key(#[trigger] es[j2], es[j]);
        lemma_first_occurrence_exists(es, j2);
    }
}

/// Compares two character sequences: negative, zero or positive.
pub fn compare_chars(a: &Vec<char>, b: &Vec<char>) -> (r: i8)
    ensures
        r == 0 ==> a@ == b@,
        r < 0 ==> lex_lt(a@, b@),
        r > 0 ==> lex_lt(b@, a@),
{
    let mut k: usize = 0;
    while k < a.len() && k < b.len()
        invariant
            k <= a@.len(),
            k <= b@.len(),
            forall|j: int| 0 <= j < k ==> a@[j] == b@[j],
        decreases a@.len() - k,
    {
        if a[k] != b[k] {
            if a[k] < b[k] {
                assert(lex_lt_at(a@, b@, k as int));
                return -1;
            } else {
                assert(lex_lt_at(b@, a@, k as int));
                return 1;
            }
        }
        k += 1;
    }
    if a.len() == b.len() {
        assert(a@ =~= b@);
        0
    } else if a.len() < b.len() {
        assert(lex_lt_at(a@, b@, k as int));
        -1
    } else {
        assert(lex_lt_at(b@, a@, k as int));
        1
    }
}

fn rank_exec(t: LogType) -> (r: u8)
    ensures
        r as int == rank(t),
{
    match t {
        LogType::Log => 0,
        LogType::Warning => 1,
        LogType::Error => 2,
        LogType::Unknown => 3,
    }
}

/// Compares two entries in the collapsing order: negative, zero or positive.
pub fn compare_entries(a: &Entry, b: &Entry) -> (r: i8)
    ensures
        r == 0 ==> same_key(a@, b@),
        r < 0 ==> key_lt(a@, b@),
        r > 0 ==> key_lt(b@, a@),
{
    let c = compare_chars(&a.message, &b.message);
    if c != 0 {
        return c;
    }
    let ra = rank_exec(a.log_type);
    let rb = rank_exec(b.log_type);
    if ra < rb {
        -1
    } else if ra > rb {
        1
    } else {
        0
    }
}

/// The invariant of the collapsing loop over `es[..i]`, kept as indices into `es`.
pub open spec fn collapsed_prefix(es: Seq<EntryModel>, out: Seq<usize>, i: int) -> bool {
    &&& forall|k: int| 0 <= k < out.len() ==> #[trigger] out[k] < i
    &&& forall|k: int| 0 <= k < out.len() ==> first_occurrence(es, #[trigger] out[k] as int)
    &&& forall|a: int, b: int|
        0 <= a < b < out.len() ==> key_lt(es[#[trigger] out[a] as int], es[#[trigger] out[b] as int])
    &&& forall|j: int|
        0 <= j < i && first_occurrence(es, j) ==> exists|k: int| 0 <= k < out.len() && #[trigger] out[k] == j
}

/// The indices of the entries of `es` that survive collapsing, in collapsing order.
pub fn collapse_indices(es: &Vec<Entry>) -> (r: Vec<usize>)
    ensures
        collapsed_prefix(es@.map_values(|e: Entry| e@), r@, es@.len() as int),
{
    let ghost v = es@.map_values(|e: Entry| e@);
    let mut out: Vec<usize> = Vec::new();
    let mut i: usize = 0;
    while i < es.len()
        invariant
            i <= es@.len(),
            v == es@.map_values(|e: Entry| e@),
            collapsed_prefix(v, out@, i as int),
        decreases es@.len() - i,
    {
        let mut p: usize = 0;
        let mut dup = false;
        loop
            invariant_except_break
                !dup,
            invariant
                p <= out@.len(),
                i < es@.len(),
                v == es@.map_values(|e: Entry| e@),
                collapsed_prefix(v, out@, i as int),
                forall|q: int| 0 <= q < p ==> key_lt(v[#[trigger] out@[q] as int], v[i as int]),
            ensures
                p <= out@.len(),
                dup ==> p < out@.len() && same_key(v[out@[p as int] as int], v[i as int]),
                !dup ==> forall|q: int| 0 <= q < p ==> key_lt(v[#[trigger] out@[q] as int], v[i as int]),
                !dup ==> p == out@.len() || key_lt(v[i as int], v[out@[p as int] as int]),
            decreases out@.len() - p,
        {
            if p >= out.len() {
                break;
            }
            let c = compare_entries(&es[out[p]], &es[i]);
            if c == 0 {
                dup = true;
                break;
            } else if c < 0 {
                p += 1;
            } else {
                break;
            }
        }
        if dup {
            proof {
                let f = out@[p as int] as int;
                assert(!first_occurrence(v, i as int)) by {
                    assert(same_key(v[f], v[i as int]));
                }
                assert forall|j: int| 0 <= j < i + 1 && first_occurrence(v, j) implies exists|k: int|
                    0 <= k < out@.len() && #[trigger] out@[k] == j by {
                    assert(j < i);
                }
            }
        } else {
            let ghost old_out = out@;
            let ghost x = v[i as int];
            proof {
                assert(first_occurrence(v, i as int)) by {
                    assert forall|j: int| 0 <= j < i implies !same_key(#[trigger] v[j], x) by {
                        if same_key(v[j], x) {
                            lemma_first_occurrence_exists(v, j);
                            let f = choose|f: int|
                                0 <= f <= j && first_occurrence(v, f) && same_key(v[f], v[j]);
                            let k = choose|k: int| 0 <= k < old_out.len() && #[trigger] old_out[k] == f;
                            if k < p {
                                assert(key_lt(v[old_out[k] as int], x));
                                lemma_key_irreflexive(v[f], x);
                            } else {
                                assert(key_lt(x, v[old_out[p as int] as int]));
                                if k > p {
                                    assert(key_lt(v[old_out[p as int] as int], v[old_out[k] as int]));
                                    lemma_key_transitive(x, v[old_out[p as int] as int], v[f]);
                                }
                                lemma_key_irreflexive(x, v[f]);
                            }
                        }
                    }
                }
            }
            out.insert(p, i);
            proof {
                assert(out@ == old_out.insert(p as int, i));
                assert forall|a: int, b: int| 0 <= a < b < out@.len() implies key_lt(
                    v[#[trigger] out@[a] as int],
                    v[#[trigger] out@[b] as int],
                ) by {
                    if a < p && b == p {
                    } else if a < p && b > p {
                        assert(key_lt(v[old_out[a] as int], x));
                        assert(key_lt(x, v[old_out[p as int] as int]));
                        if b - 1 > p {
                            assert(key_lt(v[old_out[p as int] as int], v[old_out[b - 1] as int]));
                            lemma_key_transitive(x, v[old_out[p as int] as int], v[old_out[b - 1] as int]);
                        }
                        lemma_key_transitive(v[old_out[a] as int], x, v[old_out[b - 1] as int]);
                    } else if a == p {
                        assert(key_lt(x, v[old_out[p as int] as int]));
                        if b - 1 > p {
                            assert(key_lt(v[old_out[p as int] as int], v[old_out[b - 1] as int]));
                            lemma_key_transitive(x, v[old_out[p as int] as int], v[old_out[b - 1] as int]);
                        }
                    } else if a > p {
                        assert(key_lt(v[old_out[a - 1] as int], v[old_out[b - 1] as int]));
                    } else {
                        assert(key_lt(v[old_out[a] as int], v[old_out[b] as int]));
                    }
                }
                assert forall|k: int| 0 <= k < out@.len() implies first_occurrence(
                    v,
                    #[trigger] out@[k] as int,
                ) by {
                    if k < p {
                        assert(out@[k] == old_out[k]);
                    } else if k > p {
                        assert(out@[k] == old_out[k - 1]);
                    }
                }
                assert forall|k: int| 0 <= k < out@.len() implies #[trigger] out@[k] < i + 1 by {
                    if k < p {
                        assert(out@[k] == old_out[k]);
                    } else if k > p {
                        assert(out@[k] == old_out[k - 1]);
                    }
                }
                assert forall|j: int| 0 <= j < i + 1 && first_occurrence(v, j) implies exists|k: int|
                    0 <= k < out@.len() && #[trigger] out@[k] == j by {
                    if j == i {
                        assert(out@[p as int] == j);
                    } else {
                        let k = choose|k: int| 0 <= k < old_out.len() && #[trigger] old_out[k] == j;
                        if k < p {
                            assert(out@[k] == j);
                        } else {
                            assert(out@[k + 1] == j);
                        }
                    }
                }
            }
        }
        i += 1;
    }
    out
}

/// Entries picked by indices that meet the loop invariant over all of `es` are collapsed.
pub proof fn lemma_collapsed_from_indices(es: Seq<EntryModel>, idx: Seq<usize>, r: Seq<EntryModel>)
    requires
        collapsed_prefix(es, idx, es.len() as int),
        r.len() == idx.len(),
        forall|j: int| 0 <= j < r.len() ==> #[trigger] r[j] == es[idx[j] as int],
    ensures
        collapsed(es, r),
{
    assert forall|a: int, b: int| 0 <= a < b < r.len() implies key_lt(r[a], r[b]) by {
        assert(r[a] == es[idx[a] as int]);
        assert(r[b] == es[idx[b] as int]);
    }
    assert forall|k: int| 0 <= k < r.len() implies is_first_entry(es, #[trigger] r[k]) by {
        let i = idx[k] as int;
        assert(first_occurrence(es, i));
        assert(r[k] == es[i]);
    }
    assert forall|i: int| first_occurrence(es, i) implies exists|k: int|
        0 <= k < r.len() && r[k] == es[i] by {
        let k = choose|k: int| 0 <= k < idx.len() && #[trigger] idx[k] == i;
        assert(r[k] == es[i]);
    }
}

/// After collapsing, no two entries share severity and message.
pub proof fn lemma_collapsed_keys_distinct(es: Seq<EntryModel>, r: Seq<EntryModel>)
    requires
        collapsed(es, r),
    ensures
        forall|a: int, b: int|
            0 <= a < r.len() && 0 <= b < r.len() && a != b ==> !same_key(#[trigger] r[a], #[trigger] r[b]),
{
    assert forall|a: int, b: int| 0 <= a < r.len() && 0 <= b < r.len() && a != b implies !same_key(
        #[trigger] r[a],
        #[trigger] r[b],
    ) by {
        if a < b {
            if same_key(r[a], r[b]) {
                lemma_key_irreflexive(r[a], r[b]);
            }
        } else {
            if same_key(r[a], r[b]) {
                lemma_key_irreflexive(r[b], r[a]);
            }
        }
    }
}

} // verus!
