//! Stable sorting: the order in which the items of a vector stand once they are sorted by
//! a key, items with equal keys keeping their relative order.

use vstd::prelude::*;

verus! {

/// A key that items are sorted by: a total preorder.
pub trait SortKey: Sized {
    /// Whether this key comes before the other or ties with it.
    spec fn key_le(self, other: Self) -> bool;

    proof fn key_le_total(a: Self, b: Self)
        ensures
            a.key_le(b) || b.key_le(a),
    ;

    proof fn key_le_transitive(a: Self, b: Self, c: Self)
        requires
            a.key_le(b),
            b.key_le(c),
        ensures
            a.key_le(c),
    ;

    /// Whether this key comes before the other or ties with it.
    fn comes_first(&self, other: &Self) -> (r: bool)
        ensures
            r == self.key_le(*other),
    ;
}

/// Whether item `i` stands before item `j` once the items are sorted: by its key, and where
/// the keys tie, by its place.
pub open spec fn before<K: SortKey>(keys: Seq<K>, i: usize, j: usize) -> bool {
    &&& keys[i as int].key_le(keys[j as int])
    &&& keys[j as int].key_le(keys[i as int]) ==> i < j
}

/// Whether the indices in a row stand in sorted order.
pub open spec fn in_order<K: SortKey>(keys: Seq<K>, row: Seq<usize>) -> bool {
    forall|p: int, q: int| 0 <= p < q < row.len() ==> before(keys, #[trigger] row[p], #[trigger] row[q])
}

/// Whether a row holds exactly the indices from `lo` up to `hi`.
pub open spec fn spans(row: Seq<usize>, lo: int, hi: int) -> bool {
    &&& forall|p: int| 0 <= p < row.len() ==> lo <= #[trigger] row[p] < hi
    &&& forall|i: usize| lo <= i < hi ==> #[trigger] row.contains(i)
}

/// Whether `order` lists the index of every key once, in stably sorted order.
pub open spec fn stable_order<K: SortKey>(keys: Seq<K>, order: Seq<usize>) -> bool {
    &&& order.len() == keys.len()
    &&& spans(order, 0, keys.len() as int)
    &&& in_order(keys, order)
}

/// The stably sorted order of the keys.
pub open spec fn sorting<K: SortKey>(keys: Seq<K>) -> Seq<usize> {
    choose|order: Seq<usize>| stable_order(keys, order)
}

/// The items in the places that `order` gives them.
pub open spec fn permuted<T>(items: Seq<T>, order: Seq<usize>) -> Seq<T> {
    order.map_values(|i: usize| items[i as int])
}

/// `before` is transitive.
pub proof fn lemma_before_transitive<K: SortKey>(keys: Seq<K>, i: usize, j: usize, k: usize)
    requires
        before(keys, i, j),
        before(keys, j, k),
    ensures
        before(keys, i, k),
{
    let (a, b, c) = (keys[i as int], keys[j as int], keys[k as int]);
    K::key_le_transitive(a, b, c);
    if c.key_le(a) {
        K::key_le_transitive(c, a, b);
        K::key_le_transitive(b, c, a);
    }
}

proof fn lemma_rows_equal<K: SortKey>(keys: Seq<K>, a: Seq<usize>, b: Seq<usize>)
    requires
        in_order(keys, a),
        in_order(keys, b),
        a.len() == b.len(),
        forall|i: usize| a.contains(i) <==> b.contains(i),
    ensures
        a == b,
    decreases a.len(),
{
    if a.len() == 0 {
        assert(a =~= b);
    } else {
        assert(a.contains(a[0]));
        assert(b.contains(b[0]));
        let p = choose|p: int| 0 <= p < b.len() && b[p] == a[0];
        let q = choose|q: int| 0 <= q < a.len() && a[q] == b[0];
        assert(a[0] == b[0]) by {
            if p > 0 && q > 0 {
                assert(before(keys, b[0], b[p]));
                assert(before(keys, a[0], a[q]));
            }
        }
        let ra = a.drop_first();
        let rb = b.drop_first();
        assert(in_order(keys, ra)) by {
            assert forall|p: int, q: int| 0 <= p < q < ra.len() implies before(
                keys,
                #[trigger] ra[p],
                #[trigger] ra[q],
            ) by {
                assert(before(keys, a[p + 1], a[q + 1]));
            }
        }
        assert(in_order(keys, rb)) by {
            assert forall|p: int, q: int| 0 <= p < q < rb.len() implies before(
                keys,
                #[trigger] rb[p],
                #[trigger] rb[q],
            ) by {
                assert(before(keys, b[p + 1], b[q + 1]));
            }
        }
        assert forall|i: usize| ra.contains(i) implies rb.contains(i) by {
            let x = choose|x: int| 0 <= x < ra.len() && ra[x] == i;
            assert(a[x + 1] == i);
            assert(before(keys, a[0], a[x + 1]));
            assert(a.contains(i));
            assert(b.contains(i));
            let y = choose|y: int| 0 <= y < b.len() && b[y] == i;
            assert(y > 0);
            assert(rb[y - 1] == i);
        }
        assert forall|i: usize| rb.contains(i) implies ra.contains(i) by {
            let x = choose|x: int| 0 <= x < rb.len() && rb[x] == i;
            assert(b[x + 1] == i);
            assert(before(keys, b[0], b[x + 1]));
            assert(b.contains(i));
            assert(a.contains(i));
            let y = choose|y: int| 0 <= y < a.len() && a[y] == i;
            assert(y > 0);
            assert(ra[y - 1] == i);
        }
        lemma_rows_equal(keys, ra, rb);
        assert(a =~= seq![a[0]] + ra);
        assert(b =~= seq![b[0]] + rb);
    }
}

/// Keys have one stably sorted order only.
pub proof fn law_stable_order_unique<K: SortKey>(keys: Seq<K>, a: Seq<usize>, b: Seq<usize>)
    requires
        stable_order(keys, a),
        stable_order(keys, b),
    ensures
        a == b,
{
    assert forall|i: usize| a.contains(i) <==> b.contains(i) by {
        if a.contains(i) {
            let p = choose|p: int| 0 <= p < a.len() && a[p] == i;
            assert(0 <= a[p] < keys.len());
        }
        if b.contains(i) {
            let p = choose|p: int| 0 <= p < b.len() && b[p] == i;
            assert(0 <= b[p] < keys.len());
        }
    }
    lemma_rows_equal(keys, a, b);
}

/// Where an order is stably sorted, it is [`sorting`].
pub proof fn lemma_sorting<K: SortKey>(keys: Seq<K>, order: Seq<usize>)
    requires
        stable_order(keys, order),
    ensures
        order == sorting(keys),
        stable_order(keys, sorting(keys)),
{
    law_stable_order_unique(keys, order, sorting(keys));
}

/// A row with one more index, larger than those in it, put where it belongs.
proof fn lemma_insert_index<K: SortKey>(keys: Seq<K>, row: Seq<usize>, x: usize) -> (r: Seq<usize>)
    requires
        in_order(keys, row),
        forall|p: int| 0 <= p < row.len() ==> #[trigger] row[p] < x,
    ensures
        in_order(keys, r),
        r.len() == row.len() + 1,
        forall|i: usize| r.contains(i) <==> row.contains(i) || i == x,
    decreases row.len(),
{
    if row.len() == 0 {
        let r = row.push(x);
        assert(r[0] == x);
        r
    } else {
        let last = row.last();
        K::key_le_total(keys[last as int], keys[x as int]);
        if before(keys, last, x) {
            let r = row.push(x);
            assert forall|p: int, q: int| 0 <= p < q < r.len() implies before(
                keys,
                #[trigger] r[p],
                #[trigger] r[q],
            ) by {
                if q == row.len() && p < row.len() - 1 {
                    lemma_before_transitive(keys, row[p], last, x);
                }
            }
            assert forall|i: usize| r.contains(i) <==> row.contains(i) || i == x by {
                if row.contains(i) {
                    let p = choose|p: int| 0 <= p < row.len() && row[p] == i;
                    assert(r[p] == i);
                }
                assert(r[row.len() as int] == x);
            }
            r
        } else {
            let rest = row.drop_last();
            let merged = lemma_insert_index(keys, rest, x);
            let r = merged.push(last);
            assert forall|p: int, q: int| 0 <= p < q < r.len() implies before(
                keys,
                #[trigger] r[p],
                #[trigger] r[q],
            ) by {
                if q == merged.len() {
                    assert(merged.contains(merged[p]));
                    if merged[p] != x {
                        assert(rest.contains(merged[p]));
                        let k = choose|k: int| 0 <= k < rest.len() && rest[k] == merged[p];
                        assert(before(keys, row[k], row[row.len() - 1]));
                    }
                }
            }
            assert forall|i: usize| r.contains(i) <==> row.contains(i) || i == x by {
                if row.contains(i) {
                    let p = choose|p: int| 0 <= p < row.len() && row[p] == i;
                    if p < rest.len() {
                        assert(rest[p] == i);
                        assert(rest.contains(i));
                    }
                    assert(r[merged.len() as int] == last);
                }
                if merged.contains(i) {
                    let p = choose|p: int| 0 <= p < merged.len() && merged[p] == i;
                    assert(r[p] == i);
                }
                if rest.contains(i) {
                    let p = choose|p: int| 0 <= p < rest.len() && rest[p] == i;
                    assert(row[p] == i);
                }
                if r.contains(i) {
                    let p = choose|p: int| 0 <= p < r.len() && r[p] == i;
                    if p < merged.len() {
                        assert(merged[p] == i);
                    } else {
                        assert(row[row.len() - 1] == i);
                    }
                }
            }
            r
        }
    }
}

proof fn lemma_order_of_first<K: SortKey>(keys: Seq<K>, n: nat) -> (r: Seq<usize>)
    requires
        n <= usize::MAX,
    ensures
        in_order(keys, r),
        r.len() == n,
        spans(r, 0, n as int),
    decreases n,
{
    if n == 0 {
        Seq::empty()
    } else {
        let row = lemma_order_of_first(keys, (n - 1) as nat);
        let x = (n - 1) as usize;
        let r = lemma_insert_index(keys, row, x);
        assert forall|p: int| 0 <= p < r.len() implies 0 <= #[trigger] r[p] < n by {
            assert(r.contains(r[p]));
            if r[p] != x {
                let k = choose|k: int| 0 <= k < row.len() && row[k] == r[p];
                assert(row[k] < n - 1);
            }
        }
        r
    }
}

/// Keys, at most as many as indices reach, have a stably sorted order.
pub proof fn lemma_sorting_exists<K: SortKey>(keys: Seq<K>)
    requires
        keys.len() <= usize::MAX,
    ensures
        stable_order(keys, sorting(keys)),
{
    let order = lemma_order_of_first(keys, keys.len());
    lemma_sorting(keys, order);
}

/// Merges two sorted rows, the indices of the first all smaller than those of the second.
fn merge<K: SortKey>(keys: &Vec<K>, a: &Vec<usize>, b: &Vec<usize>, lo: usize, mid: usize, hi: usize) -> (r: Vec<usize>)
    requires
        lo <= mid <= hi <= keys.len(),
        spans(a@, lo as int, mid as int),
        spans(b@, mid as int, hi as int),
        in_order(keys@, a@),
        in_order(keys@, b@),
        a.len() == mid - lo,
        b.len() == hi - mid,
    ensures
        spans(r@, lo as int, hi as int),
        in_order(keys@, r@),
        r.len() == hi - lo,
{
    let mut r: Vec<usize> = Vec::new();
    let mut i: usize = 0;
    let mut j: usize = 0;
    while i < a.len() || j < b.len()
        invariant
            lo <= mid <= hi <= keys.len(),
            spans(a@, lo as int, mid as int),
            spans(b@, mid as int, hi as int),
            in_order(keys@, a@),
            in_order(keys@, b@),
            a.len() == mid - lo,
            b.len() == hi - mid,
            i <= a.len(),
            j <= b.len(),
            r.len() == i + j,
            in_order(keys@, r@),
            forall|p: int| 0 <= p < r.len() ==> lo <= #[trigger] r[p] < hi,
            forall|p: int, x: int|
                0 <= p < r.len() && i <= x < a.len() ==> before(keys@, #[trigger] r[p], #[trigger] a[x]),
            forall|p: int, y: int|
                0 <= p < r.len() && j <= y < b.len() ==> before(keys@, #[trigger] r[p], #[trigger] b[y]),
            forall|x: int| 0 <= x < i ==> r@.contains(#[trigger] a[x]),
            forall|y: int| 0 <= y < j ==> r@.contains(#[trigger] b[y]),
        decreases a.len() + b.len() - i - j,
    {
        let ghost old_r = r@;
        let from_a = if i == a.len() {
            false
        } else if j == b.len() {
            true
        } else {
            keys[a[i]].comes_first(&keys[b[j]])
        };
        if from_a {
            let next = a[i];
            r.push(next);
            proof {
                assert forall|y: int| j <= y < b.len() implies before(keys@, next, #[trigger] b[y]) by {
                    if y > j {
                        assert(before(keys@, b[j as int], b[y]));
                        K::key_le_transitive(
                            keys@[next as int],
                            keys@[b[j as int] as int],
                            keys@[b[y] as int],
                        );
                    }
                }
            }
            i = i + 1;
        } else {
            let next = b[j];
            r.push(next);
            proof {
                assert forall|x: int| i <= x < a.len() implies before(keys@, next, #[trigger] a[x]) by {
                    let kb = keys@[next as int];
                    let ka = keys@[a[i as int] as int];
                    K::key_le_total(ka, kb);
                    assert(before(keys@, next, a[i as int]));
                    if x > i {
                        lemma_before_transitive(keys@, next, a[i as int], a[x]);
                    }
                }
            }
            j = j + 1;
        }
        proof {
            assert forall|i: usize| old_r.contains(i) implies r@.contains(i) by {
                let p = choose|p: int| 0 <= p < old_r.len() && old_r[p] == i;
                assert(r@[p] == i);
            }
            assert(r@.contains(r@.last()));
        }
    }
    proof {
        assert forall|i: usize| lo <= i < hi implies #[trigger] r@.contains(i) by {
            if i < mid {
                assert(a@.contains(i));
            } else {
                assert(b@.contains(i));
            }
        }
    }
    r
}

fn sort_range<K: SortKey>(keys: &Vec<K>, lo: usize, hi: usize) -> (r: Vec<usize>)
    requires
        lo <= hi <= keys.len(),
    ensures
        spans(r@, lo as int, hi as int),
        in_order(keys@, r@),
        r.len() == hi - lo,
    decreases hi - lo,
{
    if hi - lo <= 1 {
        let mut r: Vec<usize> = Vec::new();
        if lo < hi {
            r.push(lo);
            assert(r@.contains(r@[0]));
        }
        r
    } else {
        let mid: usize = lo + (hi - lo) / 2;
        let a = sort_range(keys, lo, mid);
        let b = sort_range(keys, mid, hi);
        merge(keys, &a, &b, lo, mid, hi)
    }
}

/// The order in which items with these keys stand once they are stably sorted.
pub fn sort_order<K: SortKey>(keys: &Vec<K>) -> (r: Vec<usize>)
    ensures
        r@ == sorting(keys@),
        stable_order(keys@, r@),
{
    let r = sort_range(keys, 0, keys.len());
    proof {
        lemma_sorting(keys@, r@);
    }
    r
}

proof fn lemma_permuted_items<T>(items: Seq<T>, order: Seq<usize>)
    requires
        order.len() == items.len(),
        spans(order, 0, items.len() as int),
        order.no_duplicates(),
        items.len() <= usize::MAX,
    ensures
        permuted(items, order).to_multiset() == items.to_multiset(),
    decreases items.len(),
{
    if items.len() == 0 {
        assert(permuted(items, order) =~= items);
    } else {
        let n = items.len() as int;
        let x = (n - 1) as usize;
        assert(order.contains(x));
        let at = order.index_of(x);
        let rest = order.remove(at);
        let fewer = items.drop_last();
        assert forall|p: int| 0 <= p < rest.len() implies 0 <= #[trigger] rest[p] < n - 1 by {
            let q = if p < at { p } else { p + 1 };
            assert(rest[p] == order[q]);
            assert(order[q] != order[at]);
        }
        assert forall|i: usize| 0 <= i < n - 1 implies #[trigger] rest.contains(i) by {
            assert(order.contains(i));
            let q = order.index_of(i);
            assert(rest[if q < at { q } else { q - 1 }] == i);
        }
        assert(rest.no_duplicates()) by {
            assert forall|p: int, q: int|
                0 <= p < rest.len() && 0 <= q < rest.len() && p != q implies rest[p] != rest[q] by {
                let u = if p < at { p } else { p + 1 };
                let v = if q < at { q } else { q + 1 };
                assert(order[u] != order[v]);
            }
        }
        lemma_permuted_items(fewer, rest);
        let part = permuted(fewer, rest);
        assert(permuted(items, order) =~= part.insert(at, items[n - 1]));
        vstd::seq_lib::to_multiset_insert(part, at, items[n - 1]);
        vstd::seq_lib::to_multiset_build(fewer, items[n - 1]);
        assert(items =~= fewer.push(items[n - 1]));
    }
}

/// Sorting neither adds nor loses an item, and puts the items in the order of their keys.
pub proof fn law_sorting_keeps_items<K: SortKey, T>(keys: Seq<K>, items: Seq<T>)
    requires
        keys.len() == items.len(),
        keys.len() <= usize::MAX,
    ensures
        permuted(items, sorting(keys)).to_multiset() == items.to_multiset(),
        forall|p: int, q: int|
            0 <= p < q < items.len() ==> (#[trigger] permuted(keys, sorting(keys))[p]).key_le(
                #[trigger] permuted(keys, sorting(keys))[q],
            ),
{
    lemma_sorting_exists(keys);
    let order = sorting(keys);
    assert(order.no_duplicates()) by {
        assert forall|p: int, q: int|
            0 <= p < order.len() && 0 <= q < order.len() && p != q implies order[p] != order[q] by {
            if p < q {
                assert(before(keys, order[p], order[q]));
            } else {
                assert(before(keys, order[q], order[p]));
            }
        }
    }
    lemma_permuted_items(items, order);
    assert forall|p: int, q: int| 0 <= p < q < items.len() implies (#[trigger] permuted(
        keys,
        order,
    )[p]).key_le(#[trigger] permuted(keys, order)[q]) by {
        assert(before(keys, order[p], order[q]));
    }
}

proof fn lemma_filtered_items<T>(items: Seq<T>, keep: spec_fn(T) -> bool)
    ensures
        items.filter(keep).to_multiset() == items.to_multiset().filter(keep),
    decreases items.len(),
{
    broadcast use vstd::multiset::group_multiset_axioms;

    reveal(Seq::filter);
    if items.len() == 0 {
        assert(items.filter(keep) =~= items);
        items.to_multiset_ensures();
        assert forall|x: T| #[trigger] items.to_multiset().count(x) == 0 by {
            assert(!items.contains(x));
        }
        assert(items.filter(keep).to_multiset() =~= items.to_multiset().filter(keep));
    } else {
        let rest = items.drop_last();
        let last = items.last();
        lemma_filtered_items(rest, keep);
        assert(items =~= rest.push(last));
        vstd::seq_lib::to_multiset_build(rest, last);
        vstd::seq_lib::to_multiset_build(rest.filter(keep), last);
        assert(items.filter(keep).to_multiset() =~= items.to_multiset().filter(keep));
    }
}

/// Which items are kept does not depend on their order.
pub proof fn lemma_filter_ignores_order<T>(a: Seq<T>, b: Seq<T>, keep: spec_fn(T) -> bool)
    requires
        a.to_multiset() == b.to_multiset(),
    ensures
        a.filter(keep).to_multiset() == b.filter(keep).to_multiset(),
{
    lemma_filtered_items(a, keep);
    lemma_filtered_items(b, keep);
}

proof fn lemma_mapped_items<T, U>(items: Seq<T>, k: int, f: spec_fn(T) -> U)
    requires
        0 <= k < items.len(),
    ensures
        items.map_values(f).to_multiset() == items.remove(k).map_values(f).to_multiset().insert(
            f(items[k]),
        ),
{
    let rest = items.remove(k).map_values(f);
    assert(items.map_values(f) =~= rest.insert(k, f(items[k])));
    vstd::seq_lib::to_multiset_insert(rest, k, f(items[k]));
}

/// What becomes of items one by one does not depend on their order.
pub proof fn lemma_map_ignores_order<T, U>(a: Seq<T>, b: Seq<T>, f: spec_fn(T) -> U)
    requires
        a.to_multiset() == b.to_multiset(),
    ensures
        a.map_values(f).to_multiset() == b.map_values(f).to_multiset(),
    decreases a.len(),
{
    a.to_multiset_ensures();
    b.to_multiset_ensures();
    if a.len() == 0 {
        assert(a.map_values(f) =~= b.map_values(f));
    } else {
        let n = a.len() - 1;
        assert(a.contains(a[n]));
        assert(b.to_multiset().count(a[n]) > 0);
        let k = b.index_of(a[n]);
        lemma_map_ignores_order(a.remove(n), b.remove(k), f);
        lemma_mapped_items(a, n, f);
        lemma_mapped_items(b, k, f);
    }
}

/// Rows without an item twice that have the same items are one but for their order.
pub proof fn lemma_same_items<T>(a: Seq<T>, b: Seq<T>)
    requires
        a.no_duplicates(),
        b.no_duplicates(),
        a.to_set() == b.to_set(),
    ensures
        a.to_multiset() == b.to_multiset(),
{
    a.to_multiset_ensures();
    b.to_multiset_ensures();
    a.lemma_multiset_has_no_duplicates();
    b.lemma_multiset_has_no_duplicates();
    assert forall|x: T| #[trigger] a.to_multiset().count(x) == b.to_multiset().count(x) by {
        assert(a.to_set().contains(x) == a.contains(x));
        assert(b.to_set().contains(x) == b.contains(x));
        if a.to_multiset().count(x) > 0 {
            assert(a.to_multiset().contains(x));
        }
        if b.to_multiset().count(x) > 0 {
            assert(b.to_multiset().contains(x));
        }
    }
    assert(a.to_multiset() =~= b.to_multiset());
}

/// Sorting lists every place once; of two items with keys that tie, the one that stood first stands
/// first.
pub proof fn law_sorting_is_stable<K: SortKey>(keys: Seq<K>, p: int, q: int)
    requires
        keys.len() <= usize::MAX,
        0 <= p < q < keys.len(),
    ensures
        sorting(keys).len() == keys.len(),
        sorting(keys).no_duplicates(),
        0 <= sorting(keys)[p] < keys.len(),
        0 <= sorting(keys)[q] < keys.len(),
        keys[sorting(keys)[p] as int].key_le(keys[sorting(keys)[q] as int]),
        keys[sorting(keys)[q] as int].key_le(keys[sorting(keys)[p] as int]) ==> sorting(keys)[p]
            < sorting(keys)[q],
{
    lemma_sorting_exists(keys);
    let order = sorting(keys);
    assert(before(keys, order[p], order[q]));
    assert forall|i: int, j: int|
        0 <= i < order.len() && 0 <= j < order.len() && i != j implies order[i] != order[j] by {
        if i < j {
            assert(before(keys, order[i], order[j]));
        } else {
            assert(before(keys, order[j], order[i]));
        }
    }
}

}
