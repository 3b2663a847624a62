//! `ORDER BY` on two nullable text columns: an insertion sort of row positions,
//! with `NULL` before any text and ties kept in storage order.

use vstd::prelude::*;
use crate::text::{text_lt, text_less, text_eq, lemma_text_lt_total, lemma_text_lt_transitive, lemma_text_lt_irreflexive};

verus! {

/// The two sort columns of a row.
pub struct SortKey {
    pub first: Option<String>,
    pub second: Option<String>,
}

pub open spec fn key_view(k: SortKey) -> (Option<Seq<char>>, Option<Seq<char>>) {
    (crate::model::opt_text(k.first), crate::model::opt_text(k.second))
}

/// `ORDER BY` on one nullable text column: `NULL` first, then texts in binary collation.
pub open spec fn opt_text_lt(a: Option<Seq<char>>, b: Option<Seq<char>>) -> bool {
    match (a, b) {
        (None, Some(_)) => true,
        (Some(x), Some(y)) => text_lt(x, y),
        _ => false,
    }
}

/// `ORDER BY first, second`.
pub open spec fn key_lt(
    a: (Option<Seq<char>>, Option<Seq<char>>),
    b: (Option<Seq<char>>, Option<Seq<char>>),
) -> bool {
    opt_text_lt(a.0, b.0) || (a.0 == b.0 && opt_text_lt(a.1, b.1))
}

/// Entry `i` comes before entry `j`: by key, then by position.
pub open spec fn entry_lt(keys: Seq<(Option<Seq<char>>, Option<Seq<char>>)>, i: int, j: int) -> bool {
    key_lt(keys[i], keys[j]) || (keys[i] == keys[j] && i < j)
}

/// `order` lists every position of `keys` once, in sorted order.
pub open spec fn is_sort_order(keys: Seq<(Option<Seq<char>>, Option<Seq<char>>)>, order: Seq<usize>) -> bool {
    &&& order.len() == keys.len()
    &&& forall|k: int| 0 <= k < order.len() ==> #[trigger] order[k] < keys.len()
    &&& forall|a: int, b: int|
        0 <= a < b < order.len() ==> entry_lt(keys, #[trigger] order[a] as int, #[trigger] order[b] as int)
    &&& forall|x: int| 0 <= x < keys.len() ==> #[trigger] lists(order, x)
}

/// Position `x` occurs in `order`.
pub open spec fn lists(order: Seq<usize>, x: int) -> bool {
    exists|k: int| 0 <= k < order.len() && order[k] == x
}

pub proof fn lemma_opt_text_lt_total(a: Option<Seq<char>>, b: Option<Seq<char>>)
    ensures
        a == b || opt_text_lt(a, b) || opt_text_lt(b, a),
        !(opt_text_lt(a, b) && opt_text_lt(b, a)),
        !opt_text_lt(a, a),
{
    match (a, b) {
        (Some(x), Some(y)) => {
            lemma_text_lt_total(x, y);
            lemma_text_lt_irreflexive(x);
        },
        _ => {},
    }
}

pub proof fn lemma_opt_text_lt_transitive(a: Option<Seq<char>>, b: Option<Seq<char>>, c: Option<Seq<char>>)
    requires
        opt_text_lt(a, b),
        opt_text_lt(b, c),
    ensures
        opt_text_lt(a, c),
{
    match (a, b, c) {
        (Some(x), Some(y), Some(z)) => lemma_text_lt_transitive(x, y, z),
        _ => {},
    }
}

pub proof fn lemma_key_lt_total(
    a: (Option<Seq<char>>, Option<Seq<char>>),
    b: (Option<Seq<char>>, Option<Seq<char>>),
)
    ensures
        a == b || key_lt(a, b) || key_lt(b, a),
        !(key_lt(a, b) && key_lt(b, a)),
        !key_lt(a, a),
{
    lemma_opt_text_lt_total(a.0, b.0);
    lemma_opt_text_lt_total(a.1, b.1);
    lemma_opt_text_lt_total(a.0, a.0);
    lemma_opt_text_lt_total(a.1, a.1);
}

pub proof fn lemma_key_lt_transitive(
    a: (Option<Seq<char>>, Option<Seq<char>>),
    b: (Option<Seq<char>>, Option<Seq<char>>),
    c: (Option<Seq<char>>, Option<Seq<char>>),
)
    requires
        key_lt(a, b),
        key_lt(b, c),
    ensures
        key_lt(a, c),
{
    if opt_text_lt(a.0, b.0) && opt_text_lt(b.0, c.0) {
        lemma_opt_text_lt_transitive(a.0, b.0, c.0);
    } else if opt_text_lt(a.1, b.1) && opt_text_lt(b.1, c.1) {
        lemma_opt_text_lt_transitive(a.1, b.1, c.1);
    }
}

/// Whether `a` sorts strictly before `b` on one nullable text column.
pub fn opt_text_less(a: &Option<String>, b: &Option<String>) -> (r: bool)
    ensures
        r == opt_text_lt(crate::model::opt_text(*a), crate::model::opt_text(*b)),
{
    match (a, b) {
        (None, Some(_)) => true,
        (Some(x), Some(y)) => text_less(x.as_str(), y.as_str()),
        _ => false,
    }
}

/// Whether two nullable text values are the same.
pub fn opt_text_same(a: &Option<String>, b: &Option<String>) -> (r: bool)
    ensures
        r == (crate::model::opt_text(*a) == crate::model::opt_text(*b)),
{
    match (a, b) {
        (None, None) => true,
        (Some(x), Some(y)) => text_eq(x.as_str(), y.as_str()),
        _ => false,
    }
}

pub fn key_less(a: &SortKey, b: &SortKey) -> (r: bool)
    ensures
        r == key_lt(key_view(*a), key_view(*b)),
{
    if opt_text_less(&a.first, &b.first) {
        true
    } else if opt_text_same(&a.first, &b.first) {
        opt_text_less(&a.second, &b.second)
    } else {
        false
    }
}

/// The positions of `keys` in sorted order: by key, ties in position order.
pub fn sort_order(keys: &Vec<SortKey>) -> (order: Vec<usize>)
    ensures
        is_sort_order(keys@.map_values(|k: SortKey| key_view(k)), order@),
{
    let ghost kv = keys@.map_values(|k: SortKey| key_view(k));
    let n = keys.len();
    let mut order: Vec<usize> = Vec::new();
    let mut i: usize = 0;
    while i < n
        invariant
            n == keys.len(),
            kv == keys@.map_values(|k: SortKey| key_view(k)),
            i <= n,
            order.len() == i,
            forall|k: int| 0 <= k < order.len() ==> #[trigger] order@[k] < i,
            forall|a: int, b: int|
                0 <= a < b < order.len() ==> entry_lt(kv, #[trigger] order@[a] as int, #[trigger] order@[b] as int),
            forall|x: int| 0 <= x < i ==> #[trigger] lists(order@, x),
        decreases n - i,
    {
        let mut p: usize = 0;
        while p < order.len() && !key_less(&keys[i], &keys[order[p]])
            invariant
                n == keys.len(),
                kv == keys@.map_values(|k: SortKey| key_view(k)),
                i < n,
                order.len() == i,
                p <= order.len(),
                forall|k: int| 0 <= k < order.len() ==> #[trigger] order@[k] < i,
                forall|q: int| 0 <= q < p ==> !key_lt(kv[i as int], kv[#[trigger] order@[q] as int]),
            decreases order.len() - p,
        {
            p = p + 1;
        }
        let ghost old_order = order@;
        proof {
            assert forall|q: int| 0 <= q < p implies entry_lt(kv, #[trigger] old_order[q] as int, i as int) by {
                lemma_key_lt_total(kv[i as int], kv[old_order[q] as int]);
            }
            assert forall|q: int| p <= q < old_order.len() implies entry_lt(kv, i as int, #[trigger] old_order[q] as int) by {
                if q > p {
                    assert(entry_lt(kv, old_order[p as int] as int, old_order[q] as int));
                    if key_lt(kv[old_order[p as int] as int], kv[old_order[q] as int]) {
                        lemma_key_lt_transitive(kv[i as int], kv[old_order[p as int] as int], kv[old_order[q] as int]);
                    }
                }
            }
        }
        order.insert(p, i);
        proof {
            assert forall|a: int, b: int|
                0 <= a < b < order.len() implies entry_lt(kv, #[trigger] order@[a] as int, #[trigger] order@[b] as int) by {
                if b < p {
                    assert(order@[a] == old_order[a] && order@[b] == old_order[b]);
                } else if b == p {
                    assert(order@[a] == old_order[a]);
                } else if a < p {
                    assert(order@[a] == old_order[a] && order@[b] == old_order[b - 1]);
                } else if a == p {
                    assert(order@[b] == old_order[b - 1]);
                } else {
                    assert(order@[a] == old_order[a - 1] && order@[b] == old_order[b - 1]);
                }
            }
            assert forall|x: int| 0 <= x < i + 1 implies #[trigger] lists(order@, x) by {
                if x == i {
                    assert(order@[p as int] == x);
                } else {
                    assert(lists(old_order, x));
                    let k = choose|k: int| 0 <= k < old_order.len() && old_order[k] == x;
                    if k < p {
                        assert(order@[k] == x);
                    } else {
                        assert(order@[k + 1] == x);
                    }
                }
            }
            assert forall|k: int| 0 <= k < order.len() implies #[trigger] order@[k] < i + 1 by {
                if k < p {
                    assert(order@[k] == old_order[k]);
                } else if k > p {
                    assert(order@[k] == old_order[k - 1]);
                }
            }
        }
        i = i + 1;
    }
    order
}


/// The key of a statement without `ORDER BY`: every row ties, storage order stands.
pub open spec fn unordered_key() -> (Option<Seq<char>>, Option<Seq<char>>) {
    (None, None)
}

/// Row `p` comes before row `q` in `ORDER BY key`, ties broken by storage order.
pub open spec fn listed_before(
    key: spec_fn(int) -> (Option<Seq<char>>, Option<Seq<char>>),
    p: int,
    q: int,
) -> bool {
    key_lt(key(p), key(q)) || (key(p) == key(q) && p < q)
}

/// `pos` lists each of the rows below `len` that `selected` admits, once, in `ORDER BY key` order.
pub open spec fn is_listing(
    selected: spec_fn(int) -> bool,
    key: spec_fn(int) -> (Option<Seq<char>>, Option<Seq<char>>),
    len: int,
    pos: Seq<usize>,
) -> bool {
    &&& forall|k: int| 0 <= k < pos.len() ==> 0 <= #[trigger] pos[k] < len && selected(pos[k] as int)
    &&& forall|p: int| 0 <= p < len && selected(p) ==> #[trigger] lists(pos, p)
    &&& forall|a: int, b: int|
        0 <= a < b < pos.len() ==> listed_before(key, #[trigger] pos[a] as int, #[trigger] pos[b] as int)
}

/// Puts the selected rows `sel` (in storage order, with their sort keys `keys`) in `ORDER BY` order.
pub(crate) fn arrange(
    sel: &Vec<usize>,
    keys: &Vec<SortKey>,
    Ghost(selected): Ghost<spec_fn(int) -> bool>,
    Ghost(key): Ghost<spec_fn(int) -> (Option<Seq<char>>, Option<Seq<char>>)>,
    Ghost(len): Ghost<int>,
) -> (pos: Vec<usize>)
    requires
        keys.len() == sel.len(),
        forall|x: int| 0 <= x < sel.len() ==> 0 <= #[trigger] sel@[x] < len && selected(sel@[x] as int),
        forall|x: int, y: int| 0 <= x < y < sel.len() ==> #[trigger] sel@[x] < #[trigger] sel@[y],
        forall|p: int| 0 <= p < len && selected(p) ==> #[trigger] lists(sel@, p),
        forall|x: int| 0 <= x < sel.len() ==> key_view(#[trigger] keys@[x]) == key(sel@[x] as int),
    ensures
        is_listing(selected, key, len, pos@),
{
    let order = sort_order(keys);
    let ghost kv = keys@.map_values(|k: SortKey| key_view(k));
    let n = order.len();
    let mut pos: Vec<usize> = Vec::new();
    let mut k: usize = 0;
    while k < n
        invariant
            n == order.len(),
            n == sel.len(),
            is_sort_order(kv, order@),
            pos.len() == k,
            k <= n,
            forall|j: int| 0 <= j < k ==> #[trigger] pos@[j] == sel@[order@[j] as int],
        decreases n - k,
    {
        pos.push(sel[order[k]]);
        k = k + 1;
    }
    proof {
        assert forall|j: int| 0 <= j < pos.len() implies 0 <= #[trigger] pos@[j] < len && selected(pos@[j] as int) by {
            assert(order@[j] < sel.len());
        }
        assert forall|p: int| 0 <= p < len && selected(p) implies #[trigger] lists(pos@, p) by {
            assert(lists(sel@, p));
            let x = choose|x: int| 0 <= x < sel@.len() && sel@[x] == p;
            assert(lists(order@, x));
            let j = choose|j: int| 0 <= j < order@.len() && order@[j] == x;
            assert(pos@[j] == p);
        }
        assert forall|a: int, b: int| 0 <= a < b < pos.len() implies listed_before(key, #[trigger] pos@[a] as int, #[trigger] pos@[b] as int) by {
            let oa = order@[a] as int;
            let ob = order@[b] as int;
            assert(entry_lt(kv, oa, ob));
            assert(kv[oa] == key(sel@[oa] as int));
            assert(kv[ob] == key(sel@[ob] as int));
            if oa < ob {
                assert(sel@[oa] < sel@[ob]);
            }
        }
    }
    pos
}

/// The rows below `len` that `selected` admits.
pub open spec fn selected_rows(selected: spec_fn(int) -> bool, len: int) -> Set<int> {
    Set::new(|p: int| 0 <= p < len && selected(p))
}

/// A listing holds as many entries as there are selected rows.
pub proof fn lemma_listing_len(
    selected: spec_fn(int) -> bool,
    key: spec_fn(int) -> (Option<Seq<char>>, Option<Seq<char>>),
    len: int,
    pos: Seq<usize>,
)
    requires
        is_listing(selected, key, len, pos),
    ensures
        pos.len() == selected_rows(selected, len).len(),
        selected_rows(selected, len).finite(),
{
    let ip = pos.map_values(|p: usize| p as int);
    assert forall|a: int, b: int| 0 <= a < ip.len() && 0 <= b < ip.len() && a != b implies ip[a] != ip[b] by {
        lemma_key_lt_total(key(pos[a] as int), key(pos[a] as int));
        if a < b {
            assert(listed_before(key, pos[a] as int, pos[b] as int));
        } else {
            assert(listed_before(key, pos[b] as int, pos[a] as int));
        }
    }
    assert(ip.no_duplicates());
    assert forall|p: int| #[trigger] ip.to_set().contains(p) <==> selected_rows(selected, len).contains(p) by {
        if ip.to_set().contains(p) {
            let k = choose|k: int| 0 <= k < ip.len() && ip[k] == p;
            assert(0 <= pos[k] < len && selected(pos[k] as int));
        }
        if selected_rows(selected, len).contains(p) {
            assert(lists(pos, p));
            let k = choose|k: int| 0 <= k < pos.len() && pos[k] == p;
            assert(ip[k] == p);
            assert(ip.contains(p));
        }
    }
    assert(ip.to_set() =~= selected_rows(selected, len));
    ip.unique_seq_to_set();
    vstd::seq_lib::seq_to_set_is_finite(ip);
}

/// The order of a listing is strict: no row comes before itself, and no two rows come
/// before each other.
pub proof fn lemma_listed_before_strict(
    key: spec_fn(int) -> (Option<Seq<char>>, Option<Seq<char>>),
    p: int,
    q: int,
)
    ensures
        !listed_before(key, p, p),
        !(listed_before(key, p, q) && listed_before(key, q, p)),
{
    lemma_key_lt_total(key(p), key(q));
    lemma_key_lt_total(key(p), key(p));
}

/// A listing names no row twice.
pub proof fn lemma_listing_distinct(
    selected: spec_fn(int) -> bool,
    key: spec_fn(int) -> (Option<Seq<char>>, Option<Seq<char>>),
    len: int,
    pos: Seq<usize>,
    a: int,
    b: int,
)
    requires
        is_listing(selected, key, len, pos),
        0 <= a < pos.len(),
        0 <= b < pos.len(),
        pos[a] == pos[b],
    ensures
        a == b,
{
    lemma_listed_before_strict(key, pos[a] as int, pos[a] as int);
    if a < b {
        assert(listed_before(key, pos[a] as int, pos[b] as int));
    } else if b < a {
        assert(listed_before(key, pos[b] as int, pos[a] as int));
    }
}

/// The entries of `pos` at the indices `idx`, in that order.
pub open spec fn picks(pos: Seq<usize>, idx: Seq<usize>) -> Seq<usize> {
    idx.map_values(|k: usize| pos[k as int])
}

/// Listing fewer rows in the same order picks, in order, exactly those entries of the
/// larger listing that the smaller selection admits.
pub proof fn lemma_sublisting(
    sel1: spec_fn(int) -> bool,
    sel2: spec_fn(int) -> bool,
    key: spec_fn(int) -> (Option<Seq<char>>, Option<Seq<char>>),
    len: int,
    pos1: Seq<usize>,
    pos2: Seq<usize>,
) -> (idx: Seq<usize>)
    requires
        is_listing(sel1, key, len, pos1),
        is_listing(sel2, key, len, pos2),
        forall|p: int| 0 <= p < len && #[trigger] sel2(p) ==> sel1(p),
    ensures
        is_listing(|k: int| sel2(pos1[k] as int), |k: int| unordered_key(), pos1.len() as int, idx),
        pos2 == picks(pos1, idx),
{
    lemma_listing_len(sel1, key, len, pos1);
    let bound = vstd::set_lib::set_int_range(0, usize::MAX + 1);
    assert forall|p: int| #[trigger] selected_rows(sel1, len).contains(p) implies bound.contains(p) by {
        assert(lists(pos1, p));
    }
    vstd::set_lib::lemma_int_range(0, usize::MAX + 1);
    vstd::set_lib::lemma_len_subset(selected_rows(sel1, len), bound);
    assert(pos1.len() <= usize::MAX + 1);
    let idx = Seq::new(
        pos2.len(),
        |j: int| (choose|i: int| 0 <= i < pos1.len() && pos1[i] == pos2[j]) as usize,
    );
    assert forall|j: int| 0 <= j < pos2.len() implies 0 <= #[trigger] idx[j] < pos1.len() && pos1[idx[j] as int]
        == pos2[j] by {
        assert(sel2(pos2[j] as int));
        assert(lists(pos1, pos2[j] as int));
    }
    let usel = |k: int| sel2(pos1[k] as int);
    let ukey = |k: int| unordered_key();
    lemma_key_lt_total(unordered_key(), unordered_key());
    assert forall|k: int| 0 <= k < idx.len() implies 0 <= #[trigger] idx[k] < pos1.len() && usel(idx[k] as int) by {
        assert(pos1[idx[k] as int] == pos2[k]);
    }
    assert forall|k: int| 0 <= k < pos1.len() && usel(k) implies #[trigger] lists(idx, k) by {
        assert(lists(pos2, pos1[k] as int));
        let j = choose|j: int| 0 <= j < pos2.len() && pos2[j] == pos1[k];
        assert(pos1[idx[j] as int] == pos2[j]);
        lemma_listing_distinct(sel1, key, len, pos1, idx[j] as int, k);
        assert(idx[j] == k);
    }
    assert forall|a: int, b: int| 0 <= a < b < idx.len() implies listed_before(ukey, #[trigger] idx[a] as int, #[trigger] idx[b] as int) by {
        let x = idx[a] as int;
        let y = idx[b] as int;
        assert(listed_before(key, pos2[a] as int, pos2[b] as int));
        lemma_listed_before_strict(key, pos2[a] as int, pos2[b] as int);
        if x == y {
            assert(pos2[a] == pos2[b]);
        } else if y < x {
            assert(listed_before(key, pos1[y] as int, pos1[x] as int));
        }
    }
    assert(pos2 =~= picks(pos1, idx));
    idx
}

/// A listing that selects exactly the first `m` rows, in storage order, is `0, 1, .., m - 1`.
pub proof fn lemma_listing_of_prefix(
    selected: spec_fn(int) -> bool,
    len: int,
    m: int,
    pos: Seq<usize>,
)
    requires
        is_listing(selected, |p: int| unordered_key(), len, pos),
        0 <= m <= len,
        forall|p: int| 0 <= p < len ==> (#[trigger] selected(p) <==> p < m),
    ensures
        pos.len() == m,
        forall|k: int| 0 <= k < m ==> #[trigger] pos[k] as int == k,
{
    let key = |p: int| unordered_key();
    lemma_listing_len(selected, key, len, pos);
    assert(selected_rows(selected, len) =~= vstd::set_lib::set_int_range(0, m));
    vstd::set_lib::lemma_int_range(0, m);
    assert(pos.len() == m);
    lemma_key_lt_total(unordered_key(), unordered_key());
    assert forall|a: int, b: int| 0 <= a < b < pos.len() implies #[trigger] pos[a] < #[trigger] pos[b] by {
        assert(listed_before(key, pos[a] as int, pos[b] as int));
    }
    lemma_increasing_below(pos, m);
}

/// A strictly increasing sequence of `m` values below `m` is `0, 1, .., m - 1`.
proof fn lemma_increasing_below(pos: Seq<usize>, m: int)
    requires
        pos.len() == m,
        forall|k: int| 0 <= k < pos.len() ==> #[trigger] pos[k] < m,
        forall|a: int, b: int| 0 <= a < b < pos.len() ==> #[trigger] pos[a] < #[trigger] pos[b],
    ensures
        forall|k: int| 0 <= k < pos.len() ==> #[trigger] pos[k] == k,
{
    assert forall|k: int| 0 <= k < pos.len() implies #[trigger] pos[k] >= k by {
        lemma_increasing_lower(pos, k);
    }
    assert forall|k: int| 0 <= k < pos.len() implies #[trigger] pos[k] <= k by {
        lemma_increasing_upper(pos, m, k);
    }
}

proof fn lemma_increasing_lower(pos: Seq<usize>, k: int)
    requires
        0 <= k < pos.len(),
        forall|a: int, b: int| 0 <= a < b < pos.len() ==> #[trigger] pos[a] < #[trigger] pos[b],
    ensures
        pos[k] >= k,
    decreases k,
{
    if k > 0 {
        lemma_increasing_lower(pos, k - 1);
        assert(pos[k - 1] < pos[k]);
    }
}

proof fn lemma_increasing_upper(pos: Seq<usize>, m: int, k: int)
    requires
        pos.len() == m,
        0 <= k < m,
        forall|j: int| 0 <= j < pos.len() ==> #[trigger] pos[j] < m,
        forall|a: int, b: int| 0 <= a < b < pos.len() ==> #[trigger] pos[a] < #[trigger] pos[b],
    ensures
        pos[k] <= k,
    decreases m - k,
{
    if k < m - 1 {
        lemma_increasing_upper(pos, m, k + 1);
        assert(pos[k] < pos[k + 1]);
    } else {
        assert(pos[k] < m);
    }
}

} // verus!
