//! Directory listings: entries sorted by the chosen order, with their links
//! and times, and the trail of the listed directory.

use vstd::prelude::*;
use crate::calendar::{format_time, formatted_time};
use crate::paths::{breadcrumbs, components, join_pieces, join_path, joined, Breadcrumb};
use crate::query::{name_next_sort, name_toggle, sort_token, time_next_sort, time_toggle, SortOrder};
use crate::text::{chars_of, lowercase, to_lowercase};

verus! {

/// Code-point order on character sequences: the first differing character
/// decides, and a proper prefix comes first. This is the order of the UTF-8
/// bytes, so of string comparison.
pub open spec fn chars_less(a: Seq<char>, b: Seq<char>) -> bool
    decreases a.len(),
{
    if a.len() == 0 {
        b.len() > 0
    } else if b.len() == 0 {
        false
    } else if a[0] != b[0] {
        a[0] < b[0]
    } else {
        chars_less(a.drop_first(), b.drop_first())
    }
}

proof fn lemma_chars_less_irreflexive(a: Seq<char>)
    ensures
        !chars_less(a, a),
    decreases a.len(),
{
    if a.len() > 0 {
        lemma_chars_less_irreflexive(a.drop_first());
    }
}

proof fn lemma_chars_less_transitive(a: Seq<char>, b: Seq<char>, c: Seq<char>)
    requires
        chars_less(a, b),
        chars_less(b, c),
    ensures
        chars_less(a, c),
    decreases a.len(),
{
    if a.len() > 0 && b.len() > 0 && c.len() > 0 && a[0] == b[0] && b[0] == c[0] {
        lemma_chars_less_transitive(a.drop_first(), b.drop_first(), c.drop_first());
    }
}

proof fn lemma_chars_less_total(a: Seq<char>, b: Seq<char>)
    ensures
        chars_less(a, b) || chars_less(b, a) || a == b,
    decreases a.len(),
{
    if a.len() > 0 && b.len() > 0 && a[0] == b[0] {
        lemma_chars_less_total(a.drop_first(), b.drop_first());
        if a.drop_first() == b.drop_first() {
            assert(a =~= seq![a[0]] + a.drop_first());
            assert(b =~= seq![b[0]] + b.drop_first());
        }
    } else if a.len() == 0 && b.len() == 0 {
        assert(a =~= b);
    }
}

/// `a` comes before `b` in code-point order exactly when, after their longest
/// common prefix, `a` ends while `b` goes on, or `a` has the smaller
/// character: every character counts, however long the texts are.
pub proof fn lemma_chars_less_is_lexicographic(a: Seq<char>, b: Seq<char>)
    ensures
        chars_less(a, b) <==> exists|k: int|
            0 <= k <= a.len() && k <= b.len() && #[trigger] a.take(k) == b.take(k) && ((k
                == a.len() && k < b.len()) || (k < a.len() && k < b.len() && a[k] < b[k])),
    decreases a.len(),
{
    if a.len() == 0 {
        if b.len() > 0 {
            assert(a.take(0) =~= b.take(0));
        }
    } else if b.len() == 0 {
    } else if a[0] != b[0] {
        if a[0] < b[0] {
            assert(a.take(0) =~= b.take(0));
        } else {
            if exists|k: int|
                0 <= k <= a.len() && k <= b.len() && #[trigger] a.take(k) == b.take(k) && ((k
                    == a.len() && k < b.len()) || (k < a.len() && k < b.len() && a[k] < b[k])) {
                let k = choose|k: int|
                    0 <= k <= a.len() && k <= b.len() && #[trigger] a.take(k) == b.take(k) && ((k
                        == a.len() && k < b.len()) || (k < a.len() && k < b.len() && a[k]
                        < b[k]));
                if k > 0 {
                    assert(a.take(k)[0] == b.take(k)[0]);
                }
            }
        }
    } else {
        let a1 = a.drop_first();
        let b1 = b.drop_first();
        lemma_chars_less_is_lexicographic(a1, b1);
        if chars_less(a, b) {
            let k = choose|k: int|
                0 <= k <= a1.len() && k <= b1.len() && #[trigger] a1.take(k) == b1.take(k) && ((k
                    == a1.len() && k < b1.len()) || (k < a1.len() && k < b1.len() && a1[k]
                    < b1[k]));
            assert(a.take(k + 1) =~= seq![a[0]] + a1.take(k));
            assert(b.take(k + 1) =~= seq![b[0]] + b1.take(k));
            assert(a.take(k + 1) == b.take(k + 1));
        }
        if exists|k: int|
            0 <= k <= a.len() && k <= b.len() && #[trigger] a.take(k) == b.take(k) && ((k
                == a.len() && k < b.len()) || (k < a.len() && k < b.len() && a[k] < b[k])) {
            let k = choose|k: int|
                0 <= k <= a.len() && k <= b.len() && #[trigger] a.take(k) == b.take(k) && ((k
                    == a.len() && k < b.len()) || (k < a.len() && k < b.len() && a[k] < b[k]));
            assert(k > 0);
            assert(a1.take(k - 1) =~= a.take(k).drop_first());
            assert(b1.take(k - 1) =~= b.take(k).drop_first());
            assert(a1.take(k - 1) == b1.take(k - 1));
            assert(chars_less(a1, b1));
        }
    }
}

/// A directory entry as read from the file system.
pub struct FileEntry {
    pub name: String,
    /// Modification time, in whole seconds since the Unix epoch.
    pub modified_ts: u64,
    pub is_dir: bool,
}

/// Sort key of an entry: its lowercased name and its modification time.
pub open spec fn entry_key(e: FileEntry) -> (Seq<char>, u64) {
    (lowercase(e.name@), e.modified_ts)
}

/// Whether key `x` strictly comes before key `y` in `order`.
pub open spec fn key_before(order: SortOrder, x: (Seq<char>, u64), y: (Seq<char>, u64)) -> bool {
    match order {
        SortOrder::NameAsc => chars_less(x.0, y.0),
        SortOrder::NameDesc => chars_less(y.0, x.0),
        SortOrder::TimeAsc => x.1 < y.1,
        SortOrder::TimeDesc => y.1 < x.1,
    }
}

/// Whether two keys are equal as far as `order` looks.
pub open spec fn key_tied(order: SortOrder, x: (Seq<char>, u64), y: (Seq<char>, u64)) -> bool {
    match order {
        SortOrder::NameAsc | SortOrder::NameDesc => x.0 == y.0,
        SortOrder::TimeAsc | SortOrder::TimeDesc => x.1 == y.1,
    }
}

/// Whether entry `a` goes before entry `b`: by key in `order`, and entries
/// with tied keys keep the order they came in (a stable sort).
pub open spec fn precedes(keys: Seq<(Seq<char>, u64)>, order: SortOrder, a: int, b: int) -> bool {
    key_before(order, keys[a], keys[b]) || (key_tied(order, keys[a], keys[b]) && a < b)
}

/// `p` lists each of `0..n` exactly once.
pub open spec fn is_permutation(p: Seq<int>, n: int) -> bool {
    &&& p.len() == n
    &&& forall|k: int| 0 <= k < p.len() ==> 0 <= #[trigger] p[k] < n
    &&& forall|j: int, k: int| 0 <= j < k < p.len() ==> p[j] != p[k]
}

/// `p` lists entries in strictly increasing `precedes` order.
pub open spec fn sorted_by(keys: Seq<(Seq<char>, u64)>, order: SortOrder, p: Seq<int>) -> bool {
    forall|j: int, k: int| 0 <= j < k < p.len() ==> precedes(keys, order, #[trigger] p[j], #[trigger] p[k])
}

proof fn lemma_precedes_irreflexive(keys: Seq<(Seq<char>, u64)>, order: SortOrder, a: int)
    ensures
        !precedes(keys, order, a, a),
{
    lemma_chars_less_irreflexive(keys[a].0);
}

proof fn lemma_precedes_transitive(
    keys: Seq<(Seq<char>, u64)>,
    order: SortOrder,
    a: int,
    b: int,
    c: int,
)
    requires
        precedes(keys, order, a, b),
        precedes(keys, order, b, c),
    ensures
        precedes(keys, order, a, c),
{
    let (x, y, z) = (keys[a], keys[b], keys[c]);
    match order {
        SortOrder::NameAsc => {
            if chars_less(x.0, y.0) && chars_less(y.0, z.0) {
                lemma_chars_less_transitive(x.0, y.0, z.0);
            }
        },
        SortOrder::NameDesc => {
            if chars_less(y.0, x.0) && chars_less(z.0, y.0) {
                lemma_chars_less_transitive(z.0, y.0, x.0);
            }
        },
        _ => {},
    }
}

proof fn lemma_precedes_total(keys: Seq<(Seq<char>, u64)>, order: SortOrder, a: int, b: int)
    requires
        a != b,
    ensures
        precedes(keys, order, a, b) || precedes(keys, order, b, a),
{
    lemma_chars_less_total(keys[a].0, keys[b].0);
}

/// Two orderings of the same distinct items that are both strictly sorted by
/// a strict total order are the same ordering: the listing order is fully
/// determined by the entries and the sort order.
pub proof fn lemma_sorted_permutation_unique(
    keys: Seq<(Seq<char>, u64)>,
    order: SortOrder,
    p: Seq<int>,
    q: Seq<int>,
    n: int,
)
    requires
        is_permutation(p, n),
        is_permutation(q, n),
        sorted_by(keys, order, p),
        sorted_by(keys, order, q),
    ensures
        p == q,
{
    lemma_permutation_covers(p, n);
    lemma_permutation_covers(q, n);
    assert forall|x: int| p.contains(x) <==> q.contains(x) by {
        if p.contains(x) {
            let j = choose|j: int| 0 <= j < p.len() && p[j] == x;
            assert(0 <= p[j] < n);
        }
        if q.contains(x) {
            let j = choose|j: int| 0 <= j < q.len() && q[j] == x;
            assert(0 <= q[j] < n);
        }
    }
    lemma_same_items_sorted_equal(keys, order, p, q);
}

/// A permutation of `0..n` contains every number below `n`.
proof fn lemma_permutation_covers(p: Seq<int>, n: int)
    requires
        is_permutation(p, n),
    ensures
        forall|x: int| 0 <= x < n ==> p.contains(x),
{
    broadcast use vstd::seq_lib::seq_to_set_is_finite;
    assert(p.no_duplicates()) by {
        assert forall|i: int, j: int| 0 <= i < p.len() && 0 <= j < p.len() && i != j implies p[i]
            != p[j] by {
            if i > j {
                assert(p[j] != p[i]);
            }
        }
    }
    p.unique_seq_to_set();
    vstd::set_lib::lemma_int_range(0, n);
    let range = vstd::set_lib::set_int_range(0, n);
    assert(p.to_set().subset_of(range)) by {
        assert forall|x: int| p.to_set().contains(x) implies range.contains(x) by {
            let j = choose|j: int| 0 <= j < p.len() && p[j] == x;
            assert(0 <= p[j] < n);
        }
    }
    vstd::set_lib::lemma_subset_equality(p.to_set(), range);
    assert forall|x: int| 0 <= x < n implies p.contains(x) by {
        assert(range.contains(x));
        assert(p.to_set().contains(x));
    }
}

proof fn lemma_same_items_sorted_equal(
    keys: Seq<(Seq<char>, u64)>,
    order: SortOrder,
    p: Seq<int>,
    q: Seq<int>,
)
    requires
        p.len() == q.len(),
        forall|x: int| p.contains(x) <==> q.contains(x),
        forall|j: int, k: int| 0 <= j < k < p.len() ==> p[j] != p[k],
        forall|j: int, k: int| 0 <= j < k < q.len() ==> q[j] != q[k],
        sorted_by(keys, order, p),
        sorted_by(keys, order, q),
    ensures
        p == q,
    decreases p.len(),
{
    if p.len() == 0 {
        assert(p =~= q);
    } else {
        // Both start with the least item.
        assert(q.contains(p[0]));
        assert(p.contains(q[0]));
        let jq = choose|j: int| 0 <= j < q.len() && q[j] == p[0];
        let jp = choose|j: int| 0 <= j < p.len() && p[j] == q[0];
        if p[0] != q[0] {
            assert(jq > 0 && jp > 0);
            assert(precedes(keys, order, q[0], q[jq]));
            assert(precedes(keys, order, p[0], p[jp]));
            lemma_precedes_transitive(keys, order, p[0], q[0], p[0]);
            lemma_precedes_irreflexive(keys, order, p[0]);
        }
        let p1 = p.drop_first();
        let q1 = q.drop_first();
        assert forall|x: int| p1.contains(x) <==> q1.contains(x) by {
            if p1.contains(x) {
                let j = choose|j: int| 0 <= j < p1.len() && p1[j] == x;
                assert(p[j + 1] == x);
                assert(x != p[0]);
                assert(q.contains(x));
                let k = choose|k: int| 0 <= k < q.len() && q[k] == x;
                assert(k != 0);
                assert(q1[k - 1] == x);
            }
            if q1.contains(x) {
                let j = choose|j: int| 0 <= j < q1.len() && q1[j] == x;
                assert(q[j + 1] == x);
                assert(x != q[0]);
                assert(p.contains(x));
                let k = choose|k: int| 0 <= k < p.len() && p[k] == x;
                assert(k != 0);
                assert(p1[k - 1] == x);
            }
        }
        assert forall|j: int, k: int| 0 <= j < k < p1.len() implies precedes(
            keys,
            order,
            #[trigger] p1[j],
            #[trigger] p1[k],
        ) by {
            assert(p1[j] == p[j + 1] && p1[k] == p[k + 1]);
        }
        assert forall|j: int, k: int| 0 <= j < k < q1.len() implies precedes(
            keys,
            order,
            #[trigger] q1[j],
            #[trigger] q1[k],
        ) by {
            assert(q1[j] == q[j + 1] && q1[k] == q[k + 1]);
        }
        assert forall|j: int, k: int| 0 <= j < k < p1.len() implies p1[j] != p1[k] by {
            assert(p1[j] == p[j + 1] && p1[k] == p[k + 1]);
        }
        assert forall|j: int, k: int| 0 <= j < k < q1.len() implies q1[j] != q1[k] by {
            assert(q1[j] == q[j + 1] && q1[k] == q[k + 1]);
        }
        lemma_same_items_sorted_equal(keys, order, p1, q1);
        assert(p =~= seq![p[0]] + p1);
        assert(q =~= seq![q[0]] + q1);
    }
}


/// Compares two character sequences in code-point order.
fn chars_less_exec(a: &Vec<char>, b: &Vec<char>) -> (r: bool)
    ensures
        r == chars_less(a@, b@),
{
    let mut i: usize = 0;
    proof {
        assert(a@.skip(0) =~= a@);
        assert(b@.skip(0) =~= b@);
    }
    while i < a.len() && i < b.len() && a[i] == b[i]
        invariant
            i <= a@.len(),
            i <= b@.len(),
            chars_less(a@, b@) == chars_less(a@.skip(i as int), b@.skip(i as int)),
        decreases a@.len() - i,
    {
        proof {
            assert(a@.skip(i as int).drop_first() =~= a@.skip(i + 1));
            assert(b@.skip(i as int).drop_first() =~= b@.skip(i + 1));
        }
        i += 1;
    }
    if i == a.len() {
        i < b.len()
    } else if i == b.len() {
        false
    } else {
        a[i] < b[i]
    }
}

/// Whether entry `a` goes before entry `b` (see `precedes`).
fn precedes_exec(
    names: &Vec<Vec<char>>,
    times: &Vec<u64>,
    order: SortOrder,
    a: usize,
    b: usize,
    Ghost(keys): Ghost<Seq<(Seq<char>, u64)>>,
) -> (r: bool)
    requires
        a < names@.len(),
        b < names@.len(),
        names@.len() == times@.len() == keys.len(),
        forall|k: int| 0 <= k < keys.len() ==> keys[k] == (#[trigger] names@[k]@, times@[k]),
    ensures
        r == precedes(keys, order, a as int, b as int),
{
    assert(keys[a as int] == (names@[a as int]@, times@[a as int]));
    assert(keys[b as int] == (names@[b as int]@, times@[b as int]));
    match order {
        SortOrder::NameAsc => {
            chars_less_exec(&names[a], &names[b]) || (!chars_less_exec(&names[b], &names[a])
                && !chars_less_exec(&names[a], &names[b]) && a < b && {
                proof {
                    lemma_chars_less_total(names@[a as int]@, names@[b as int]@);
                }
                true
            })
        },
        SortOrder::NameDesc => {
            chars_less_exec(&names[b], &names[a]) || (!chars_less_exec(&names[b], &names[a])
                && !chars_less_exec(&names[a], &names[b]) && a < b && {
                proof {
                    lemma_chars_less_total(names@[a as int]@, names@[b as int]@);
                }
                true
            })
        },
        SortOrder::TimeAsc => times[a] < times[b] || (times[a] == times[b] && a < b),
        SortOrder::TimeDesc => times[b] < times[a] || (times[a] == times[b] && a < b),
    }
}

/// Sort keys given as names (already lowercased) and times.
pub open spec fn keys_of(names: Seq<String>, times: Seq<u64>) -> Seq<(Seq<char>, u64)> {
    Seq::new(names.len(), |i: int| (names[i]@, times[i]))
}

/// What the listing order means for two listed entries, `a` listed before
/// `b`: by name, their whole lowercased names are in code-point order (or
/// equal, and `a` was read first); by time, their modification times are in
/// order (or equal, and `a` was read first). Descending orders reverse the
/// comparison but not the tie rule.
pub open spec fn listed_before(order: SortOrder, a: FileEntry, ia: int, b: FileEntry, ib: int) -> bool {
    let la = lowercase(a.name@);
    let lb = lowercase(b.name@);
    match order {
        SortOrder::NameAsc => chars_less(la, lb) || (la == lb && ia < ib),
        SortOrder::NameDesc => chars_less(lb, la) || (la == lb && ia < ib),
        SortOrder::TimeAsc => a.modified_ts < b.modified_ts || (a.modified_ts == b.modified_ts
            && ia < ib),
        SortOrder::TimeDesc => b.modified_ts < a.modified_ts || (a.modified_ts == b.modified_ts
            && ia < ib),
    }
}

/// A listing order sorted by the entry keys lists every pair of entries by
/// their whole lowercased names (or times) as `listed_before` says: names
/// that differ anywhere are never taken as tied.
pub proof fn lemma_listing_order_uses_whole_names(
    entries: Seq<FileEntry>,
    order: SortOrder,
    p: Seq<int>,
)
    requires
        is_permutation(p, entries.len() as int),
        sorted_by(entries.map_values(|e: FileEntry| entry_key(e)), order, p),
    ensures
        forall|j: int, k: int|
            0 <= j < k < p.len() ==> listed_before(
                order,
                entries[#[trigger] p[j]],
                p[j],
                entries[#[trigger] p[k]],
                p[k],
            ),
{
    let keys = entries.map_values(|e: FileEntry| entry_key(e));
    assert forall|j: int, k: int| 0 <= j < k < p.len() implies listed_before(
        order,
        entries[#[trigger] p[j]],
        p[j],
        entries[#[trigger] p[k]],
        p[k],
    ) by {
        assert(precedes(keys, order, p[j], p[k]));
        assert(keys[p[j]] == entry_key(entries[p[j]]));
        assert(keys[p[k]] == entry_key(entries[p[k]]));
    }
}

/// The order in which entries are listed: each entry's index, once, sorted
/// by `precedes` (by name or by time as `order` says, case-insensitively for
/// names through Unicode lowercasing, ties kept in the order read).
pub fn sort_entries(entries: &Vec<FileEntry>, order: SortOrder) -> (perm: Vec<usize>)
    ensures
        is_permutation(perm@.map_values(|i: usize| i as int), entries@.len() as int),
        sorted_by(
            entries@.map_values(|e: FileEntry| entry_key(e)),
            order,
            perm@.map_values(|i: usize| i as int),
        ),
        forall|j: int, k: int|
            0 <= j < k < perm@.len() ==> listed_before(
                order,
                entries@[#[trigger] perm@[j] as int],
                perm@[j] as int,
                entries@[#[trigger] perm@[k] as int],
                perm@[k] as int,
            ),
{
    let n = entries.len();
    let mut names: Vec<String> = Vec::new();
    let mut times: Vec<u64> = Vec::new();
    let mut i: usize = 0;
    while i < n
        invariant
            i <= n == entries@.len(),
            names@.len() == i,
            times@.len() == i,
            forall|k: int|
                0 <= k < i ==> (#[trigger] names@[k])@ == lowercase(entries@[k].name@)
                    && times@[k] == entries@[k].modified_ts,
        decreases n - i,
    {
        names.push(to_lowercase(entries[i].name.as_str()));
        times.push(entries[i].modified_ts);
        i += 1;
    }
    assert(keys_of(names@, times@) =~= entries@.map_values(|e: FileEntry| entry_key(e)));
    let perm = sort_by_keys(&names, &times, order);
    proof {
        let p = perm@.map_values(|i: usize| i as int);
        lemma_listing_order_uses_whole_names(entries@, order, p);
        assert forall|j: int, k: int| 0 <= j < k < perm@.len() implies listed_before(
            order,
            entries@[#[trigger] perm@[j] as int],
            perm@[j] as int,
            entries@[#[trigger] perm@[k] as int],
            perm@[k] as int,
        ) by {
            assert(p[j] == perm@[j] as int && p[k] == perm@[k] as int);
        }
    }
    perm
}

/// Sorts indices by keys given as lowercased names and times: each index
/// once, in strictly increasing `precedes` order.
pub fn sort_by_keys(names: &Vec<String>, times: &Vec<u64>, order: SortOrder) -> (perm: Vec<usize>)
    requires
        names@.len() == times@.len(),
    ensures
        is_permutation(perm@.map_values(|i: usize| i as int), names@.len() as int),
        sorted_by(keys_of(names@, times@), order, perm@.map_values(|i: usize| i as int)),
{
    let n = names.len();
    let ghost keys = keys_of(names@, times@);
    let mut chars: Vec<Vec<char>> = Vec::new();
    let mut i: usize = 0;
    while i < n
        invariant
            i <= n == names@.len() == times@.len() == keys.len(),
            keys == keys_of(names@, times@),
            chars@.len() == i,
            forall|k: int| 0 <= k < i ==> keys[k] == (#[trigger] chars@[k]@, times@[k]),
        decreases n - i,
    {
        chars.push(chars_of(names[i].as_str()));
        i += 1;
    }
    let names = chars;
    let mut perm: Vec<usize> = Vec::new();
    let mut i: usize = 0;
    while i < n
        invariant
            i <= n == keys.len() == names@.len() == times@.len(),
            forall|k: int| 0 <= k < keys.len() ==> keys[k] == (#[trigger] names@[k]@, times@[k]),
            perm@.len() == i,
            forall|k: int| 0 <= k < perm@.len() ==> #[trigger] perm@[k] < i,
            forall|j: int, k: int| 0 <= j < k < perm@.len() ==> perm@[j] != perm@[k],
            forall|j: int, k: int|
                0 <= j < k < perm@.len() ==> precedes(
                    keys,
                    order,
                    #[trigger] perm@[j] as int,
                    #[trigger] perm@[k] as int,
                ),
        decreases n - i,
    {
        let mut pos: usize = 0;
        while pos < perm.len() && !precedes_exec(&names, &times, order, i, perm[pos], Ghost(keys))
            invariant
                pos <= perm@.len() == i < n == keys.len() == names@.len() == times@.len(),
                forall|k: int| 0 <= k < keys.len() ==> keys[k] == (#[trigger] names@[k]@, times@[k]),
                forall|k: int| 0 <= k < perm@.len() ==> #[trigger] perm@[k] < i,
                forall|k: int| 0 <= k < pos ==> !precedes(keys, order, i as int, #[trigger] perm@[k] as int),
            decreases perm@.len() - pos,
        {
            pos += 1;
        }
        let ghost old_perm = perm@;
        proof {
            assert forall|k: int| 0 <= k < pos implies precedes(keys, order, #[trigger] old_perm[k] as int, i as int) by {
                lemma_precedes_total(keys, order, old_perm[k] as int, i as int);
            }
            assert forall|k: int| pos <= k < old_perm.len() implies precedes(keys, order, i as int, #[trigger] old_perm[k] as int) by {
                if k > pos {
                    assert(precedes(keys, order, old_perm[pos as int] as int, old_perm[k] as int));
                    lemma_precedes_transitive(keys, order, i as int, old_perm[pos as int] as int, old_perm[k] as int);
                }
            }
        }
        perm.insert(pos, i);
        proof {
            assert(perm@ == old_perm.insert(pos as int, i));
            assert forall|j: int, k: int|
                0 <= j < k < perm@.len() implies precedes(
                    keys,
                    order,
                    #[trigger] perm@[j] as int,
                    #[trigger] perm@[k] as int,
                ) by {
                if j < pos && k < pos {
                    assert(perm@[j] == old_perm[j] && perm@[k] == old_perm[k]);
                } else if j < pos && k == pos {
                } else if j < pos {
                    assert(perm@[j] == old_perm[j] && perm@[k] == old_perm[k - 1]);
                } else if j == pos {
                    assert(perm@[k] == old_perm[k - 1]);
                } else {
                    assert(perm@[j] == old_perm[j - 1] && perm@[k] == old_perm[k - 1]);
                }
            }
            assert forall|j: int, k: int| 0 <= j < k < perm@.len() implies perm@[j] != perm@[k] by {
                if j < pos && k < pos {
                    assert(perm@[j] == old_perm[j] && perm@[k] == old_perm[k]);
                } else if j < pos && k == pos {
                    assert(perm@[j] == old_perm[j]);
                } else if j < pos {
                    assert(perm@[j] == old_perm[j] && perm@[k] == old_perm[k - 1]);
                } else if j == pos {
                    assert(perm@[k] == old_perm[k - 1]);
                } else {
                    assert(perm@[j] == old_perm[j - 1] && perm@[k] == old_perm[k - 1]);
                }
            }
            assert forall|k: int| 0 <= k < perm@.len() implies #[trigger] perm@[k] < i + 1 by {
                if k < pos {
                    assert(perm@[k] == old_perm[k]);
                } else if k > pos {
                    assert(perm@[k] == old_perm[k - 1]);
                }
            }
        }
        i += 1;
    }
    proof {
        let p = perm@.map_values(|i: usize| i as int);
        assert forall|j: int, k: int| 0 <= j < k < p.len() implies precedes(keys, order, #[trigger] p[j], #[trigger] p[k]) by {
            assert(p[j] == perm@[j] as int && p[k] == perm@[k] as int);
        }
        assert forall|j: int, k: int| 0 <= j < k < p.len() implies p[j] != p[k] by {
            assert(p[j] == perm@[j] as int && p[k] == perm@[k] as int);
        }
        assert forall|k: int| 0 <= k < p.len() implies 0 <= #[trigger] p[k] < n by {
            assert(p[k] == perm@[k] as int);
        }
    }
    perm
}


/// One row of a directory listing.
pub struct DirItem {
    pub name: String,
    /// Link target: the listed directory's relative path joined with the name.
    pub path: String,
    /// Modification time as `YYYY-MM-DD hh:mm`.
    pub modified: String,
    pub modified_ts: u64,
    pub is_dir: bool,
}

/// Everything a directory listing page shows.
pub struct DirListing {
    pub breadcrumbs: Vec<Breadcrumb>,
    pub files: Vec<DirItem>,
    /// The `sort` value of the current order.
    pub current_sort: &'static str,
    /// The `sort` value the name column header links to.
    pub name_next_sort: &'static str,
    /// The `sort` value the time column header links to.
    pub time_next_sort: &'static str,
}

/// The row that lists entry `e` of the directory at `rel`.
pub open spec fn item_for(item: DirItem, e: FileEntry, rel: Seq<char>) -> bool {
    &&& item.name@ == e.name@
    &&& item.path@ == joined(rel, e.name@)
    &&& item.modified@ == formatted_time(e.modified_ts as int)
    &&& item.modified_ts == e.modified_ts
    &&& item.is_dir == e.is_dir
}

/// `files` lists every entry once, as `item_for` says, in the order that
/// `sort_entries` gives.
pub open spec fn lists_entries(
    files: Seq<DirItem>,
    entries: Seq<FileEntry>,
    rel: Seq<char>,
    order: SortOrder,
) -> bool {
    exists|p: Seq<int>|
        {
            &&& is_permutation(p, entries.len() as int)
            &&& sorted_by(entries.map_values(|e: FileEntry| entry_key(e)), order, p)
            &&& forall|j: int, k: int|
                0 <= j < k < p.len() ==> listed_before(
                    order,
                    entries[#[trigger] p[j]],
                    p[j],
                    entries[#[trigger] p[k]],
                    p[k],
                )
            &&& p.len() == files.len()
            &&& forall|k: int| 0 <= k < files.len() ==> item_for(#[trigger] files[k], entries[p[k]], rel)
        }
}

/// The listing of the directory at relative path `rel` with the given
/// entries, sorted by `order`.
pub fn build_listing(rel: &str, entries: &Vec<FileEntry>, order: SortOrder) -> (l: DirListing)
    ensures
        l.breadcrumbs@.len() == components(rel@).len(),
        forall|i: int|
            0 <= i < l.breadcrumbs@.len() ==> {
                &&& (#[trigger] l.breadcrumbs@[i]).name@ == components(rel@)[i]
                &&& l.breadcrumbs@[i].path@ == join_pieces(components(rel@).take(i + 1))
            },
        l.files@.len() == entries@.len(),
        lists_entries(l.files@, entries@, rel@, order),
        l.current_sort@ == sort_token(order),
        l.name_next_sort@ == sort_token(name_toggle(order)),
        l.time_next_sort@ == sort_token(time_toggle(order)),
{
    let perm = sort_entries(entries, order);
    let ghost p = perm@.map_values(|i: usize| i as int);
    let mut files: Vec<DirItem> = Vec::new();
    let mut k: usize = 0;
    while k < perm.len()
        invariant
            k <= perm@.len() == entries@.len(),
            p == perm@.map_values(|i: usize| i as int),
            is_permutation(p, entries@.len() as int),
            files@.len() == k,
            forall|j: int| 0 <= j < k ==> item_for(#[trigger] files@[j], entries@[p[j]], rel@),
        decreases perm@.len() - k,
    {
        let idx = perm[k];
        assert(p[k as int] == idx as int);
        let e = &entries[idx];
        let item = DirItem {
            name: e.name.clone(),
            path: join_path(rel, e.name.as_str()),
            modified: format_time(e.modified_ts),
            modified_ts: e.modified_ts,
            is_dir: e.is_dir,
        };
        files.push(item);
        k += 1;
    }
    let crumbs = breadcrumbs(rel);
    assert(p.len() == files@.len());
    proof {
        lemma_listing_order_uses_whole_names(entries@, order, p);
    }
    DirListing {
        breadcrumbs: crumbs,
        files,
        current_sort: order.as_str(),
        name_next_sort: name_next_sort(order),
        time_next_sort: time_next_sort(order),
    }
}

} // verus!
