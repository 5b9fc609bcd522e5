//! What holds of a summary dataset as runs are appended to it.

use vstd::prelude::*;
use vstd::string::*;

use crate::area_map::lemma_paired;
use crate::sort::{before, in_order, lemma_sorting, lemma_sorting_exists, permuted, sorting, spans};
use crate::sort::{law_sorting_is_stable, stable_order, SortKey};
use crate::summary::{last_with_key, lemma_last_with_key};
use crate::summary::{row_views, scored_views, RunMeta, ScoreTuple, ScoredRun, ScoredRunView};
use crate::summary::{StoreView, SummaryStore};
use crate::text::{decimal_text, lemma_text_le_total, text_le, texts};

verus! {

impl StoreView {
    /// Whether there is a run with a key.
    pub open spec fn has_key(self, key: Seq<char>) -> bool {
        last_with_key(self.runs, key) >= 0
    }

    /// The metadata of the run with a key.
    pub open spec fn meta(self, key: Seq<char>) -> Option<RunMeta> {
        if self.has_key(key) {
            Some(self.runs[last_with_key(self.runs, key)])
        } else {
            None
        }
    }

    /// The scores of an area for the run with a key.
    pub open spec fn score(self, key: Seq<char>, area: Seq<char>) -> Option<ScoreTuple> {
        if self.has_key(key) && self.areas.contains_key(area) {
            self.areas[area][last_with_key(self.runs, key)]
        } else {
            None
        }
    }

    /// Whether all runs have different keys.
    pub open spec fn keys_differ(self) -> bool {
        forall|i: int, j: int|
            0 <= i < j < self.runs.len() ==> (#[trigger] self.runs[i]).key() != (
            #[trigger] self.runs[j]).key()
    }

    /// Whether the runs are in the order of date and product revision.
    pub open spec fn is_sorted(self) -> bool {
        forall|i: int, j: int|
            0 <= i < j < self.runs.len() ==> (#[trigger] self.runs[i]).key_le(
                #[trigger] self.runs[j],
            )
    }

    /// Whether another dataset says the same of the run with a key.
    pub open spec fn agrees_on(self, other: StoreView, key: Seq<char>) -> bool {
        &&& self.has_key(key) == other.has_key(key)
        &&& self.meta(key) == other.meta(key)
        &&& forall|a: Seq<char>| #[trigger] self.score(key, a) == other.score(key, a)
    }

    /// Whether the dataset says of a run what a scored run says.
    pub open spec fn holds(self, run: ScoredRunView) -> bool {
        &&& self.meta(run.meta.key()) == Some(run.meta)
        &&& forall|a: Seq<char>| #[trigger]
            self.score(run.meta.key(), a) == run.scores.get(a)
    }

    /// The dataset with runs appended.
    pub open spec fn appended(self, runs: Seq<ScoredRunView>, replace: bool) -> StoreView {
        self.with_all(runs, replace).sorted()
    }
}

proof fn lemma_found(runs: Seq<RunMeta>, key: Seq<char>, i: int)
    requires
        0 <= i < runs.len(),
        runs[i].key() == key,
        forall|j: int| 0 <= j < runs.len() && j != i ==> (#[trigger] runs[j]).key() != key,
    ensures
        last_with_key(runs, key) == i,
{
    lemma_last_with_key(runs, key);
}

proof fn lemma_not_found(runs: Seq<RunMeta>, key: Seq<char>)
    requires
        forall|j: int| 0 <= j < runs.len() ==> (#[trigger] runs[j]).key() != key,
    ensures
        last_with_key(runs, key) == -1,
{
    lemma_last_with_key(runs, key);
}

proof fn lemma_with_scored(store: StoreView, run: ScoredRunView, replace: bool)
    requires
        store.is_aligned(),
        store.keys_differ(),
    ensures
        store.with_scored(run, replace).is_aligned(),
        store.with_scored(run, replace).keys_differ(),
        store.with_scored(run, replace).runs.len() <= store.runs.len() + 1,
        store.with_scored(run, replace).has_key(run.meta.key()),
        !store.has_key(run.meta.key()) || replace ==> store.with_scored(run, replace).holds(run),
        forall|key: Seq<char>|
            key != run.meta.key() || (store.has_key(run.meta.key()) && !replace)
                ==> #[trigger] store.with_scored(run, replace).agrees_on(store, key),
{
    let k = run.meta.key();
    let at = last_with_key(store.runs, k);
    let new = store.with_scored(run, replace);
    lemma_last_with_key(store.runs, k);
    if at < 0 || replace {
        let place = if at < 0 { store.runs.len() as int } else { at };
        assert(new.runs[place] == run.meta);
        assert forall|j: int| 0 <= j < new.runs.len() && j != place implies (
        #[trigger] new.runs[j]) == store.runs[j] && store.runs[j].key() != k by {
            assert(store.runs[j] == new.runs[j]);
            if at >= 0 {
                assert(store.runs[at].key() == k);
                if j < at {
                    assert(store.runs[j].key() != store.runs[at].key());
                }
            }
        }
        lemma_found(new.runs, k, place);
        assert(new.keys_differ());
        assert forall|a: Seq<char>| #[trigger] new.areas.contains_key(a) implies new.areas[a].len()
            == new.runs.len() by {}
        assert forall|a: Seq<char>| #[trigger] new.score(k, a) == run.scores.get(a) by {
            if new.areas.contains_key(a) {
                assert(new.areas[a][place] == run.scores.get(a));
            }
        }
        assert forall|key: Seq<char>| key != k implies #[trigger] new.agrees_on(store, key) by {
            lemma_last_with_key(store.runs, key);
            let i = last_with_key(store.runs, key);
            if i >= 0 {
                assert(new.runs[i] == store.runs[i]);
                lemma_found(new.runs, key, i);
                assert forall|a: Seq<char>| #[trigger] new.score(key, a) == store.score(key, a) by {
                    if store.areas.contains_key(a) {
                        assert(store.areas[a].len() == store.runs.len());
                        assert(new.areas[a][i] == store.areas[a][i]);
                    }
                }
            } else {
                lemma_not_found(new.runs, key);
            }
        }
    }
}

proof fn lemma_with_all(store: StoreView, runs: Seq<ScoredRunView>, replace: bool)
    requires
        store.is_aligned(),
        store.keys_differ(),
    ensures
        store.with_all(runs, replace).is_aligned(),
        store.with_all(runs, replace).keys_differ(),
        store.with_all(runs, replace).runs.len() <= store.runs.len() + runs.len(),
    decreases runs.len(),
{
    if runs.len() > 0 {
        lemma_with_all(store, runs.drop_last(), replace);
        lemma_with_scored(store.with_all(runs.drop_last(), replace), runs.last(), replace);
    }
}

proof fn lemma_sorted(store: StoreView)
    requires
        store.is_aligned(),
        store.keys_differ(),
        store.runs.len() <= usize::MAX,
    ensures
        store.sorted().is_aligned(),
        store.sorted().keys_differ(),
        store.sorted().is_sorted(),
        store.sorted().runs.len() == store.runs.len(),
        forall|key: Seq<char>| #[trigger] store.sorted().agrees_on(store, key),
{
    let order = sorting(store.runs);
    let new = store.sorted();
    lemma_sorting_exists(store.runs);
    assert(stable_order(store.runs, order));
    assert forall|i: int, j: int| 0 <= i < j < new.runs.len() implies (
    #[trigger] new.runs[i]).key_le(#[trigger] new.runs[j]) && new.runs[i].key()
        != new.runs[j].key() by {
        assert(before(store.runs, order[i], order[j]));
        assert(order[i] != order[j]);
        let (x, y) = (order[i] as int, order[j] as int);
        assert(store.runs[x].key() != store.runs[y].key());
    }
    assert forall|key: Seq<char>| #[trigger] new.agrees_on(store, key) by {
        lemma_last_with_key(store.runs, key);
        let x = last_with_key(store.runs, key);
        if x >= 0 {
            assert(order.contains(x as usize));
            let p = order.index_of(x as usize);
            assert(new.runs[p] == store.runs[x]);
            assert forall|j: int| 0 <= j < new.runs.len() && j != p implies (
            #[trigger] new.runs[j]).key() != key by {
                if j < p {
                    assert(new.runs[j].key() != new.runs[p].key());
                } else {
                    assert(new.runs[p].key() != new.runs[j].key());
                }
            }
            lemma_found(new.runs, key, p);
            assert forall|a: Seq<char>| #[trigger] new.score(key, a) == store.score(key, a) by {
                if store.areas.contains_key(a) {
                    assert(new.areas[a][p] == store.areas[a][x]);
                }
            }
        } else {
            assert forall|j: int| 0 <= j < new.runs.len() implies (#[trigger] new.runs[j]).key()
                != key by {
                assert(0 <= order[j] < store.runs.len());
                assert(new.runs[j] == store.runs[order[j] as int]);
            }
            lemma_not_found(new.runs, key);
        }
    }
}

/// Appending keeps a dataset in shape: one entry per run in every row, no run twice, and the
/// runs in the order of date and product revision.
pub proof fn law_append_keeps_shape(store: StoreView, runs: Seq<ScoredRunView>, replace: bool)
    requires
        store.is_aligned(),
        store.keys_differ(),
        store.with_all(runs, replace).runs.len() <= usize::MAX,
    ensures
        store.appended(runs, replace).is_aligned(),
        store.appended(runs, replace).keys_differ(),
        store.appended(runs, replace).is_sorted(),
{
    lemma_with_all(store, runs, replace);
    lemma_sorted(store.with_all(runs, replace));
}

proof fn lemma_others_kept(
    store: StoreView,
    runs: Seq<ScoredRunView>,
    replace: bool,
    key: Seq<char>,
)
    requires
        store.is_aligned(),
        store.keys_differ(),
        (store.has_key(key) && !replace) || forall|i: int|
            0 <= i < runs.len() ==> (#[trigger] runs[i]).meta.key() != key,
    ensures
        store.with_all(runs, replace).agrees_on(store, key),
    decreases runs.len(),
{
    if runs.len() > 0 {
        let rest = runs.drop_last();
        let part = store.with_all(rest, replace);
        assert forall|i: int| 0 <= i < rest.len() implies (#[trigger] rest[i]) == runs[i] by {}
        lemma_others_kept(store, rest, replace, key);
        lemma_with_all(store, rest, replace);
        lemma_with_scored(part, runs.last(), replace);
        let new = part.with_scored(runs.last(), replace);
        assert(runs[runs.len() - 1] == runs.last());
        assert(new.agrees_on(part, key));
        assert forall|a: Seq<char>| #[trigger] new.score(key, a) == store.score(key, a) by {
            assert(new.score(key, a) == part.score(key, a));
            assert(part.score(key, a) == store.score(key, a));
        }
    }
}

/// Appending leaves other runs as they are: a run that is not among the new ones keeps its
/// metadata and scores, and so does one that is, unless it is to be replaced.
pub proof fn law_append_keeps_others(
    store: StoreView,
    runs: Seq<ScoredRunView>,
    replace: bool,
    key: Seq<char>,
)
    requires
        store.is_aligned(),
        store.keys_differ(),
        store.with_all(runs, replace).runs.len() <= usize::MAX,
        (store.has_key(key) && !replace) || forall|i: int|
            0 <= i < runs.len() ==> (#[trigger] runs[i]).meta.key() != key,
    ensures
        store.appended(runs, replace).agrees_on(store, key),
{
    lemma_with_all(store, runs, replace);
    let wide = store.with_all(runs, replace);
    let new = wide.sorted();
    lemma_sorted(wide);
    lemma_others_kept(store, runs, replace, key);
    assert(new.agrees_on(wide, key));
    assert forall|a: Seq<char>| #[trigger] new.score(key, a) == store.score(key, a) by {
        assert(new.score(key, a) == wide.score(key, a));
        assert(wide.score(key, a) == store.score(key, a));
    }
}

proof fn lemma_holds_kept(
    store: StoreView,
    runs: Seq<ScoredRunView>,
    replace: bool,
    i: int,
)
    requires
        store.is_aligned(),
        store.keys_differ(),
        0 <= i < runs.len(),
        replace ==> forall|j: int|
            i < j < runs.len() ==> (#[trigger] runs[j]).meta.key() != runs[i].meta.key(),
        !replace ==> !store.has_key(runs[i].meta.key()) && forall|j: int|
            0 <= j < i ==> (#[trigger] runs[j]).meta.key() != runs[i].meta.key(),
    ensures
        store.with_all(runs, replace).holds(runs[i]),
    decreases runs.len(),
{
    let run = runs[i];
    let key = run.meta.key();
    let rest = runs.drop_last();
    let part = store.with_all(rest, replace);
    lemma_with_all(store, rest, replace);
    lemma_with_scored(part, runs.last(), replace);
    let new = part.with_scored(runs.last(), replace);
    assert forall|j: int| 0 <= j < rest.len() implies (#[trigger] rest[j]) == runs[j] by {}
    if i < rest.len() {
        lemma_holds_kept(store, rest, replace, i);
        assert(part.holds(rest[i]));
        assert(part.has_key(key));
        assert(runs[runs.len() - 1] == runs.last());
        assert(new.agrees_on(part, key));
        assert forall|a: Seq<char>| #[trigger] new.score(key, a) == run.scores.get(a) by {
            assert(new.score(key, a) == part.score(key, a));
            assert(part.score(key, a) == rest[i].scores.get(a));
        }
    } else if !replace {
        lemma_others_kept(store, rest, replace, key);
    }
}

/// What was appended is read back: the dataset holds the metadata and the scores of every new
/// run, and no scores of that run for other areas. Of new runs with the same key the last
/// counts where runs are replaced; else the first counts, unless there was one before.
pub proof fn law_append_reads_back(
    store: StoreView,
    runs: Seq<ScoredRunView>,
    replace: bool,
    i: int,
)
    requires
        store.is_aligned(),
        store.keys_differ(),
        store.with_all(runs, replace).runs.len() <= usize::MAX,
        0 <= i < runs.len(),
        replace ==> forall|j: int|
            i < j < runs.len() ==> (#[trigger] runs[j]).meta.key() != runs[i].meta.key(),
        !replace ==> !store.has_key(runs[i].meta.key()) && forall|j: int|
            0 <= j < i ==> (#[trigger] runs[j]).meta.key() != runs[i].meta.key(),
    ensures
        store.appended(runs, replace).holds(runs[i]),
{
    lemma_with_all(store, runs, replace);
    let wide = store.with_all(runs, replace);
    let new = wide.sorted();
    let key = runs[i].meta.key();
    lemma_sorted(wide);
    lemma_holds_kept(store, runs, replace, i);
    assert(new.agrees_on(wide, key));
    assert forall|a: Seq<char>| #[trigger] new.score(key, a) == runs[i].scores.get(a) by {
        assert(new.score(key, a) == wide.score(key, a));
        assert(wide.score(key, a) == runs[i].scores.get(a));
    }
}

/// An order of the first `n` places, followed by the places from there up to `m`.
spec fn extended(order: Seq<usize>, m: nat) -> Seq<usize> {
    order + Seq::new((m - order.len()) as nat, |i: int| (order.len() + i) as usize)
}

/// Whether an order lists every place of a dataset.
spec fn lists(order: Seq<usize>, n: nat) -> bool {
    order.len() == n && spans(order, 0, n as int)
}

proof fn lemma_extended(order: Seq<usize>, n: nat, m: nat)
    requires
        lists(order, n),
        n <= m <= usize::MAX,
    ensures
        lists(extended(order, m), m),
        m < usize::MAX ==> extended(order, m + 1) == extended(order, m).push(m as usize),
{
    let e = extended(order, m);
    assert forall|i: usize| 0 <= i < m implies #[trigger] e.contains(i) by {
        if i < n {
            assert(order.contains(i));
            assert(e[order.index_of(i)] == i);
        } else {
            assert(e[i as int] == i);
        }
    }
    if m < usize::MAX {
        assert(extended(order, m + 1) =~= e.push(m as usize));
    }
}

proof fn lemma_places_keep_keys(store: StoreView, order: Seq<usize>, key: Seq<char>)
    requires
        lists(order, store.runs.len()),
        store.runs.len() <= usize::MAX,
    ensures
        store.in_places(order).has_key(key) == store.has_key(key),
{
    let moved = store.in_places(order);
    lemma_last_with_key(store.runs, key);
    lemma_last_with_key(moved.runs, key);
    if store.has_key(key) {
        let x = last_with_key(store.runs, key);
        assert(order.contains(x as usize));
        let p = order.index_of(x as usize);
        assert(moved.runs[p] == store.runs[x]);
    }
    if moved.has_key(key) {
        let p = last_with_key(moved.runs, key);
        assert(0 <= order[p] < store.runs.len());
        assert(moved.runs[p] == store.runs[order[p] as int]);
    }
}

proof fn lemma_new_run_in_places(store: StoreView, order: Seq<usize>, run: ScoredRunView)
    requires
        store.is_aligned(),
        lists(order, store.runs.len()),
        store.runs.len() < usize::MAX,
    ensures
        store.in_places(order).with_run(run.meta).with_scores(store.runs.len() as int, run)
            == store.with_run(run.meta).with_scores(store.runs.len() as int, run).in_places(
            order.push(store.runs.len() as usize),
        ),
{
    let m = store.runs.len() as int;
    let longer = order.push(m as usize);
    let a = store.in_places(order).with_run(run.meta).with_scores(m, run);
    let b = store.with_run(run.meta).with_scores(m, run).in_places(longer);
    assert forall|p: int| 0 <= p < order.len() implies 0 <= #[trigger] longer[p] < m && longer[p]
        == order[p] by {
        assert(0 <= order[p] < m);
    }
    assert(a.runs =~= b.runs);
    assert forall|area: Seq<char>| #[trigger] a.areas.contains_key(area) implies a.areas[area]
        == b.areas[area] by {
        if store.areas.contains_key(area) {
            assert(store.areas[area].len() == m);
        }
        assert(a.areas[area] =~= b.areas[area]);
    }
    assert(a.areas =~= b.areas);
}

proof fn lemma_append_to_moved(store: StoreView, order: Seq<usize>, runs: Seq<ScoredRunView>)
    requires
        store.is_aligned(),
        store.keys_differ(),
        lists(order, store.runs.len()),
        store.with_all(runs, false).runs.len() <= usize::MAX,
    ensures
        store.runs.len() <= store.with_all(runs, false).runs.len(),
        forall|i: int|
            0 <= i < store.runs.len() ==> #[trigger] store.with_all(runs, false).runs[i]
                == store.runs[i],
        store.in_places(order).with_all(runs, false) == store.with_all(runs, false).in_places(
            extended(order, store.with_all(runs, false).runs.len()),
        ),
    decreases runs.len(),
{
    let n = store.runs.len();
    if runs.len() == 0 {
        assert(extended(order, n) =~= order);
    } else {
        let rest = runs.drop_last();
        let run = runs.last();
        let part = store.with_all(rest, false);
        let m = part.runs.len();
        lemma_with_all(store, rest, false);
        lemma_append_to_moved(store, order, rest);
        lemma_extended(order, n, m);
        let e = extended(order, m);
        lemma_places_keep_keys(part, e, run.meta.key());
        if !part.has_key(run.meta.key()) {
            lemma_new_run_in_places(part, e, run);
        }
    }
}

proof fn lemma_two_moves(store: StoreView, first: Seq<usize>, second: Seq<usize>)
    requires
        store.is_aligned(),
        lists(first, store.runs.len()),
        lists(second, store.runs.len()),
    ensures
        store.in_places(first).in_places(second) == store.in_places(permuted(first, second)),
{
    let a = store.in_places(first).in_places(second);
    let b = store.in_places(permuted(first, second));
    assert forall|p: int| 0 <= p < second.len() implies 0 <= #[trigger] second[p] < first.len() by {}
    assert(a.runs =~= b.runs);
    assert forall|area: Seq<char>| #[trigger] a.areas.contains_key(area) implies a.areas[area]
        == b.areas[area] by {
        assert(a.areas[area] =~= b.areas[area]);
    }
    assert(a.areas =~= b.areas);
}

/// Sorting what was sorted before and then extended gives what sorting at the end alone gives.
proof fn lemma_sort_once(runs: Seq<RunMeta>, n: nat)
    requires
        n <= runs.len() <= usize::MAX,
    ensures
        ({
            let e = extended(sorting(runs.take(n as int)), runs.len());
            permuted(e, sorting(permuted(runs, e))) == sorting(runs)
        }),
{
    let m = runs.len();
    let old = runs.take(n as int);
    let order = sorting(old);
    lemma_sorting_exists(old);
    lemma_extended(order, n, m);
    let e = extended(order, m);
    let moved = permuted(runs, e);
    let second = sorting(moved);
    lemma_sorting_exists(moved);
    let c = permuted(e, second);
    assert forall|p: int| 0 <= p < c.len() implies 0 <= #[trigger] c[p] < m by {
        assert(0 <= second[p] < m);
        assert(0 <= e[second[p] as int] < m);
    }
    assert forall|i: usize| 0 <= i < m implies #[trigger] c.contains(i) by {
        assert(e.contains(i));
        let q = e.index_of(i);
        assert(second.contains(q as usize));
        let p = second.index_of(q as usize);
        assert(c[p] == i);
    }
    assert forall|p: int, q: int| 0 <= p < q < c.len() implies before(
        runs,
        #[trigger] c[p],
        #[trigger] c[q],
    ) by {
        assert(before(moved, second[p], second[q]));
        let (x, y) = (second[p] as int, second[q] as int);
        assert(0 <= x < m && 0 <= y < m);
        assert(moved[x] == runs[c[p] as int]);
        assert(moved[y] == runs[c[q] as int]);
        if runs[c[q] as int].key_le(runs[c[p] as int]) {
            assert(x < y);
            if y < n {
                assert(e[x] == order[x] && e[y] == order[y]);
                assert(before(old, order[x], order[y]));
                assert(0 <= order[x] < n && 0 <= order[y] < n);
            } else if x < n {
                assert(e[x] == order[x]);
                assert(0 <= order[x] < n);
            }
        }
    }
    assert(in_order(runs, c));
    assert(stable_order(runs, c));
    lemma_sorting(runs, c);
}

proof fn lemma_all_in_parts(
    store: StoreView,
    first: Seq<ScoredRunView>,
    second: Seq<ScoredRunView>,
    replace: bool,
)
    ensures
        store.with_all(first + second, replace) == store.with_all(first, replace).with_all(
            second,
            replace,
        ),
    decreases second.len(),
{
    if second.len() == 0 {
        assert(first + second =~= first);
    } else {
        assert((first + second).drop_last() =~= first + second.drop_last());
        lemma_all_in_parts(store, first, second.drop_last(), replace);
    }
}

proof fn lemma_grows(store: StoreView, runs: Seq<ScoredRunView>)
    ensures
        store.runs.len() <= store.with_all(runs, false).runs.len(),
    decreases runs.len(),
{
    if runs.len() > 0 {
        lemma_grows(store, runs.drop_last());
    }
}

/// Runs can be appended bit by bit: the dataset comes out as if all had been appended at once.
pub proof fn law_append_in_parts(
    store: StoreView,
    first: Seq<ScoredRunView>,
    second: Seq<ScoredRunView>,
)
    requires
        store.is_aligned(),
        store.keys_differ(),
        store.with_all(first + second, false).runs.len() <= usize::MAX,
    ensures
        store.appended(first, false).appended(second, false) == store.appended(
            first + second,
            false,
        ),
{
    let x = store.with_all(first, false);
    let y = x.with_all(second, false);
    lemma_with_all(store, first, false);
    lemma_with_all(x, second, false);
    lemma_all_in_parts(store, first, second, false);
    let order = sorting(x.runs);
    lemma_grows(x, second);
    lemma_sorting_exists(x.runs);
    lemma_append_to_moved(x, order, second);
    let n = x.runs.len();
    let m = y.runs.len();
    assert(y.runs.take(n as int) =~= x.runs);
    lemma_sort_once(y.runs, n);
    lemma_extended(order, n, m);
    let e = extended(order, m);
    let later = sorting(permuted(y.runs, e));
    lemma_sorting_exists(permuted(y.runs, e));
    lemma_two_moves(y, e, later);
}

proof fn lemma_all_present(store: StoreView, runs: Seq<ScoredRunView>, i: int)
    requires
        store.is_aligned(),
        store.keys_differ(),
        0 <= i < runs.len(),
    ensures
        store.with_all(runs, false).has_key(runs[i].meta.key()),
    decreases runs.len(),
{
    let rest = runs.drop_last();
    let part = store.with_all(rest, false);
    lemma_with_all(store, rest, false);
    lemma_with_scored(part, runs.last(), false);
    if i < rest.len() {
        lemma_all_present(store, rest, i);
        assert(rest[i] == runs[i]);
        let key = runs[i].meta.key();
        assert(part.with_scored(runs.last(), false).agrees_on(part, key));
    }
}

proof fn lemma_present_runs_skipped(store: StoreView, runs: Seq<ScoredRunView>)
    requires
        forall|i: int| 0 <= i < runs.len() ==> store.has_key((#[trigger] runs[i]).meta.key()),
    ensures
        store.with_all(runs, false) == store,
    decreases runs.len(),
{
    if runs.len() > 0 {
        let rest = runs.drop_last();
        assert forall|i: int| 0 <= i < rest.len() implies store.has_key(
            (#[trigger] rest[i]).meta.key(),
        ) by {
            assert(rest[i] == runs[i]);
        }
        lemma_present_runs_skipped(store, rest);
        assert(store.has_key(runs[runs.len() - 1].meta.key()));
    }
}

/// Sorting runs that are in order leaves them where they are.
proof fn lemma_sorted_stays(store: StoreView)
    requires
        store.is_aligned(),
        store.is_sorted(),
        store.runs.len() <= usize::MAX,
    ensures
        store.sorted() == store,
{
    let n = store.runs.len();
    let same = Seq::new(n, |i: int| i as usize);
    assert forall|i: usize| 0 <= i < n implies #[trigger] same.contains(i) by {
        assert(same[i as int] == i);
    }
    assert forall|p: int, q: int| 0 <= p < q < same.len() implies before(
        store.runs,
        #[trigger] same[p],
        #[trigger] same[q],
    ) by {
        assert(store.runs[p].key_le(store.runs[q]));
    }
    lemma_sorting(store.runs, same);
    let new = store.sorted();
    assert(new.runs =~= store.runs);
    assert forall|a: Seq<char>| #[trigger] store.areas.contains_key(a) implies new.areas[a]
        == store.areas[a] by {
        assert(store.areas[a].len() == n);
        assert(new.areas[a] =~= store.areas[a]);
    }
    assert(new.areas =~= store.areas);
}

/// Whether two datasets have the same areas, and runs with the same keys in the same places.
spec fn same_frame(a: StoreView, b: StoreView) -> bool {
    &&& a.runs.len() == b.runs.len()
    &&& forall|i: int|
        0 <= i < a.runs.len() ==> (#[trigger] a.runs[i]).key() == b.runs[i].key()
    &&& a.areas.dom() == b.areas.dom()
}

/// A dataset whose runs have different keys is what it says of each of them.
proof fn lemma_same_dataset(a: StoreView, b: StoreView)
    requires
        a.is_aligned(),
        b.is_aligned(),
        b.keys_differ(),
        same_frame(a, b),
        forall|key: Seq<char>| #[trigger] a.agrees_on(b, key),
    ensures
        a == b,
{
    assert forall|i: int| 0 <= i < a.runs.len() implies last_with_key(
        a.runs,
        (#[trigger] a.runs[i]).key(),
    ) == i && last_with_key(b.runs, a.runs[i].key()) == i by {
        let key = a.runs[i].key();
        assert(b.runs[i].key() == key);
        assert forall|j: int| 0 <= j < a.runs.len() && j != i implies (#[trigger] a.runs[j]).key()
            != key && b.runs[j].key() != key by {
            assert(a.runs[j].key() == b.runs[j].key());
            if j < i {
                assert(b.runs[j].key() != b.runs[i].key());
            } else {
                assert(b.runs[i].key() != b.runs[j].key());
            }
        }
        lemma_found(a.runs, key, i);
        assert forall|j: int| 0 <= j < b.runs.len() && j != i implies (#[trigger] b.runs[j]).key()
            != key by {
            assert(a.runs[j].key() == b.runs[j].key());
        }
        lemma_found(b.runs, key, i);
    }
    assert forall|i: int| 0 <= i < a.runs.len() implies a.runs[i] == b.runs[i] by {
        let key = a.runs[i].key();
        assert(a.agrees_on(b, key));
        assert(a.meta(key) == Some(a.runs[i]));
        assert(b.meta(key) == Some(b.runs[i]));
    }
    assert(a.runs =~= b.runs);
    assert forall|area: Seq<char>| #[trigger] a.areas.contains_key(area) implies a.areas[area]
        == b.areas[area] by {
        assert(b.areas.dom().contains(area));
        assert(b.areas.contains_key(area));
        assert forall|i: int| 0 <= i < a.runs.len() implies a.areas[area][i]
            == b.areas[area][i] by {
            let key = a.runs[i].key();
            assert(a.agrees_on(b, key));
            assert(a.score(key, area) == b.score(key, area));
        }
        assert(a.areas[area] =~= b.areas[area]);
    }
    assert(a.areas =~= b.areas);
}

proof fn lemma_areas_of_runs(store: StoreView, runs: Seq<ScoredRunView>, i: int)
    requires
        0 <= i < runs.len(),
    ensures
        runs[i].scores.dom().subset_of(store.with_all(runs, true).areas.dom()),
    decreases runs.len(),
{
    let rest = runs.drop_last();
    let part = store.with_all(rest, true);
    let new = part.with_scored(runs.last(), true);
    assert(part.areas.dom().subset_of(new.areas.dom()));
    if i < rest.len() {
        lemma_areas_of_runs(store, rest, i);
        assert(rest[i] == runs[i]);
    } else {
        assert(runs[i].scores.dom().subset_of(new.areas.dom()));
    }
}

proof fn lemma_replacing_keeps_frame(store: StoreView, runs: Seq<ScoredRunView>)
    requires
        forall|i: int|
            0 <= i < runs.len() ==> {
                let run = #[trigger] runs[i];
                store.has_key(run.meta.key()) && run.scores.dom().subset_of(store.areas.dom())
            },
    ensures
        same_frame(store.with_all(runs, true), store),
    decreases runs.len(),
{
    if runs.len() > 0 {
        let rest = runs.drop_last();
        let run = runs[runs.len() - 1];
        let key = run.meta.key();
        assert forall|i: int| 0 <= i < rest.len() implies {
            let run = #[trigger] rest[i];
            store.has_key(run.meta.key()) && run.scores.dom().subset_of(store.areas.dom())
        } by {
            assert(rest[i] == runs[i]);
        }
        lemma_replacing_keeps_frame(store, rest);
        let part = store.with_all(rest, true);
        lemma_last_with_key(store.runs, key);
        lemma_last_with_key(part.runs, key);
        let x = last_with_key(store.runs, key);
        assert(part.runs[x].key() == store.runs[x].key());
        let at = last_with_key(part.runs, key);
        let new = part.with_scores(at, run);
        assert forall|i: int| 0 <= i < new.runs.len() implies (#[trigger] new.runs[i]).key()
            == store.runs[i].key() by {
            assert(part.runs[i].key() == store.runs[i].key());
        }
        assert(new.areas.dom() =~= store.areas.dom());
    }
}

/// The place of the last run with a key.
proof fn lemma_last_run(runs: Seq<ScoredRunView>, key: Seq<char>, i: int) -> (last: int)
    requires
        0 <= i < runs.len(),
        runs[i].meta.key() == key,
    ensures
        0 <= last < runs.len(),
        runs[last].meta.key() == key,
        forall|j: int| last < j < runs.len() ==> (#[trigger] runs[j]).meta.key() != key,
    decreases runs.len() - i,
{
    if exists|j: int| i < j < runs.len() && (#[trigger] runs[j]).meta.key() == key {
        let j = choose|j: int| i < j < runs.len() && (#[trigger] runs[j]).meta.key() == key;
        lemma_last_run(runs, key, j)
    } else {
        i
    }
}

/// Replacing runs by themselves changes nothing.
proof fn lemma_replaced_twice(store: StoreView, runs: Seq<ScoredRunView>)
    requires
        store.is_aligned(),
        store.keys_differ(),
        store.with_all(runs, true).runs.len() <= usize::MAX,
    ensures
        store.appended(runs, true).with_all(runs, true) == store.appended(runs, true),
{
    let wide = store.with_all(runs, true);
    let once = wide.sorted();
    let again = once.with_all(runs, true);
    lemma_with_all(store, runs, true);
    lemma_sorted(wide);
    lemma_with_all(once, runs, true);
    assert forall|key: Seq<char>| #[trigger] again.agrees_on(once, key) by {
        if exists|i: int| 0 <= i < runs.len() && (#[trigger] runs[i]).meta.key() == key {
            let i = choose|i: int| 0 <= i < runs.len() && (#[trigger] runs[i]).meta.key() == key;
            let last = lemma_last_run(runs, key, i);
            lemma_holds_kept(store, runs, true, last);
            lemma_holds_kept(once, runs, true, last);
            assert(once.agrees_on(wide, key));
            assert forall|a: Seq<char>| #[trigger] again.score(key, a) == once.score(key, a) by {
                assert(once.score(key, a) == wide.score(key, a));
                assert(wide.score(key, a) == runs[last].scores.get(a));
                assert(again.score(key, a) == runs[last].scores.get(a));
            }
        } else {
            lemma_others_kept(once, runs, true, key);
        }
    }
    assert forall|i: int| 0 <= i < runs.len() implies {
        let run = #[trigger] runs[i];
        once.has_key(run.meta.key()) && run.scores.dom().subset_of(once.areas.dom())
    } by {
        lemma_areas_of_runs(store, runs, i);
        assert(once.areas.dom() =~= wide.areas.dom());
        let key = runs[i].meta.key();
        let last = lemma_last_run(runs, key, i);
        lemma_holds_kept(store, runs, true, last);
        assert(once.agrees_on(wide, key));
    }
    lemma_replacing_keeps_frame(once, runs);
    lemma_same_dataset(again, once);
}

/// Appending runs again, in the same way, changes nothing, and neither does appending none.
pub proof fn law_append_twice(store: StoreView, runs: Seq<ScoredRunView>, replace: bool)
    requires
        store.is_aligned(),
        store.keys_differ(),
        store.with_all(runs, replace).runs.len() <= usize::MAX,
    ensures
        store.appended(runs, replace).appended(runs, replace) == store.appended(runs, replace),
        store.appended(runs, replace).appended(Seq::empty(), replace) == store.appended(
            runs,
            replace,
        ),
{
    let wide = store.with_all(runs, replace);
    let once = wide.sorted();
    lemma_with_all(store, runs, replace);
    lemma_sorted(wide);
    lemma_sorted_stays(once);
    if replace {
        lemma_replaced_twice(store, runs);
    } else {
        assert forall|i: int| 0 <= i < runs.len() implies once.has_key(
            (#[trigger] runs[i]).meta.key(),
        ) by {
            lemma_all_present(store, runs, i);
            assert(once.agrees_on(wide, runs[i].meta.key()));
        }
        lemma_present_runs_skipped(once, runs);
    }
}

/// Whether one of the runs has a key.
pub open spec fn any_has_key(runs: Seq<ScoredRunView>, key: Seq<char>) -> bool {
    exists|i: int| 0 <= i < runs.len() && (#[trigger] runs[i]).meta.key() == key
}

proof fn lemma_keys_of_all(
    store: StoreView,
    runs: Seq<ScoredRunView>,
    replace: bool,
    key: Seq<char>,
)
    requires
        store.is_aligned(),
        store.keys_differ(),
    ensures
        store.with_all(runs, replace).has_key(key) <==> store.has_key(key) || any_has_key(
            runs,
            key,
        ),
    decreases runs.len(),
{
    if runs.len() > 0 {
        let rest = runs.drop_last();
        let part = store.with_all(rest, replace);
        lemma_keys_of_all(store, rest, replace, key);
        lemma_with_all(store, rest, replace);
        lemma_with_scored(part, runs.last(), replace);
        let new = part.with_scored(runs.last(), replace);
        assert(runs[runs.len() - 1] == runs.last());
        if key != runs.last().meta.key() {
            assert(new.agrees_on(part, key));
        }
        if any_has_key(rest, key) {
            let i = choose|i: int| 0 <= i < rest.len() && (#[trigger] rest[i]).meta.key() == key;
            assert(runs[i].meta.key() == key);
        }
        if any_has_key(runs, key) && key != runs.last().meta.key() {
            let i = choose|i: int| 0 <= i < runs.len() && (#[trigger] runs[i]).meta.key() == key;
            assert(rest[i].meta.key() == key);
        }
    }
}

/// Appending loses no run and brings in none but the new ones: the keys are those that were
/// there and those of the new runs, and no two runs have the same.
pub proof fn law_append_keys(
    store: StoreView,
    runs: Seq<ScoredRunView>,
    replace: bool,
    key: Seq<char>,
)
    requires
        store.is_aligned(),
        store.keys_differ(),
        store.with_all(runs, replace).runs.len() <= usize::MAX,
    ensures
        store.appended(runs, replace).has_key(key) <==> store.has_key(key) || any_has_key(
            runs,
            key,
        ),
        store.appended(runs, replace).keys_differ(),
{
    lemma_with_all(store, runs, replace);
    lemma_keys_of_all(store, runs, replace, key);
    let wide = store.with_all(runs, replace);
    lemma_sorted(wide);
    assert(wide.sorted().agrees_on(wide, key));
}

/// After an append the runs are in the order of their dates, and those of one date in the order of
/// their product revisions, both compared as text; runs that tie in both keep their order.
pub proof fn law_append_order(
    store: StoreView,
    runs: Seq<ScoredRunView>,
    replace: bool,
    i: int,
    j: int,
)
    requires
        store.with_all(runs, replace).runs.len() <= usize::MAX,
        0 <= i < j < store.appended(runs, replace).runs.len(),
    ensures
        text_le(
            store.appended(runs, replace).runs[i].date@,
            store.appended(runs, replace).runs[j].date@,
        ),
        store.appended(runs, replace).runs[i].date@ == store.appended(runs, replace).runs[j].date@
            ==> text_le(
            store.appended(runs, replace).runs[i].product_revision@,
            store.appended(runs, replace).runs[j].product_revision@,
        ),
        ({
            let wide = store.with_all(runs, replace).runs;
            let order = sorting(wide);
            let (x, y) = (wide[order[i] as int], wide[order[j] as int]);
            &&& store.appended(runs, replace).runs[i] == x
            &&& store.appended(runs, replace).runs[j] == y
            &&& x.date@ == y.date@ && x.product_revision@ == y.product_revision@ ==> order[i]
                < order[j]
        }),
{
    let wide = store.with_all(runs, replace).runs;
    let order = sorting(wide);
    lemma_sorting_exists(wide);
    law_sorting_is_stable(wide, i, j);
    let (x, y) = (wide[order[i] as int], wide[order[j] as int]);
    assert(x.key_le(y));
    lemma_text_le_total(x.date@, y.date@);
    lemma_text_le_total(x.product_revision@, y.product_revision@);
}

/// The areas after an append: those that were there, and those of the new runs. Where runs are not
/// replaced, the areas of one that is skipped are not brought in.
pub proof fn law_append_areas(
    store: StoreView,
    runs: Seq<ScoredRunView>,
    replace: bool,
    area: Seq<char>,
)
    ensures
        store.areas.contains_key(area) ==> store.appended(runs, replace).areas.contains_key(area),
        store.appended(runs, replace).areas.contains_key(area) ==> store.areas.contains_key(area)
            || exists|i: int|
            0 <= i < runs.len() && (#[trigger] runs[i]).scores.contains_key(area),
        replace ==> (store.appended(runs, replace).areas.contains_key(area)
            <==> store.areas.contains_key(area) || exists|i: int|
            0 <= i < runs.len() && (#[trigger] runs[i]).scores.contains_key(area)),
        !replace && (forall|i: int|
            0 <= i < runs.len() ==> store.has_key((#[trigger] runs[i]).meta.key()))
            ==> store.appended(runs, replace).areas.dom() == store.areas.dom(),
    decreases runs.len(),
{
    let new = store.appended(runs, replace);
    let wide = store.with_all(runs, replace);
    assert(new.areas.contains_key(area) == wide.areas.contains_key(area));
    assert(new.areas.dom() =~= wide.areas.dom());
    if runs.len() > 0 {
        let rest = runs.drop_last();
        let last = runs[runs.len() - 1];
        let part = store.with_all(rest, replace);
        law_append_areas(store, rest, replace, area);
        assert(store.appended(rest, replace).areas.contains_key(area) == part.areas.contains_key(
            area,
        ));
        if exists|i: int| 0 <= i < rest.len() && (#[trigger] rest[i]).scores.contains_key(area) {
            let i = choose|i: int|
                0 <= i < rest.len() && (#[trigger] rest[i]).scores.contains_key(area);
            assert(runs[i].scores.contains_key(area));
        }
        if exists|i: int| 0 <= i < runs.len() && (#[trigger] runs[i]).scores.contains_key(area) {
            let i = choose|i: int|
                0 <= i < runs.len() && (#[trigger] runs[i]).scores.contains_key(area);
            if i < rest.len() {
                assert(rest[i].scores.contains_key(area));
            }
        }
        if !replace && (forall|i: int|
            0 <= i < runs.len() ==> store.has_key((#[trigger] runs[i]).meta.key())) {
            lemma_present_runs_skipped(store, runs);
        }
    }
}

/// What a dataset holds: the metadata of its runs in their order, and for the name of each area its
/// row.
pub proof fn law_dataset(store: SummaryStore, i: int)
    requires
        store.wf(),
        0 <= i < store.areas.names@.len(),
    ensures
        store@.runs == store.runs@,
        store@.areas.contains_key(store.areas.names@[i]@),
        store@.areas[store.areas.names@[i]@] == store.areas.values@[i]@,
        store.areas.values@[i]@.len() == store.runs@.len(),
        forall|a: Seq<char>| #[trigger]
            store@.areas.contains_key(a) <==> exists|k: int|
                0 <= k < store.areas.names@.len() && (#[trigger] store.areas.names@[k])@ == a,
{
    let names = texts(store.areas.names@);
    let rows = row_views(store.areas.values@);
    lemma_paired(names, rows, i);
    assert(names[i] == store.areas.names@[i]@);
    assert(rows[i] == store.areas.values@[i]@);
    assert forall|a: Seq<char>| #[trigger] store@.areas.contains_key(a) <==> exists|k: int|
        0 <= k < store.areas.names@.len() && (#[trigger] store.areas.names@[k])@ == a by {
        if names.contains(a) {
            let k = names.index_of(a);
            assert(store.areas.names@[k]@ == a);
        }
        if exists|k: int|
            0 <= k < store.areas.names@.len() && (#[trigger] store.areas.names@[k])@ == a {
            let k = choose|k: int|
                0 <= k < store.areas.names@.len() && (#[trigger] store.areas.names@[k])@ == a;
            assert(names[k] == a);
        }
    }
}

/// What a scored run says: its metadata, and the scores of each of its areas.
pub proof fn law_scored_run(run: ScoredRun, i: int)
    requires
        run.scores.wf(),
        0 <= i < run.scores.names@.len(),
    ensures
        run@.meta == run.meta,
        run@.scores.contains_key(run.scores.names@[i]@),
        run@.scores[run.scores.names@[i]@] == run.scores.values@[i],
{
    lemma_paired(texts(run.scores.names@), run.scores.values@, i);
    assert(texts(run.scores.names@)[i] == run.scores.names@[i]@);
}

/// Runs without a wpt.fyi ID go by their product revision; those with one by the ID alone.
pub proof fn law_keys(a: RunMeta, b: RunMeta)
    ensures
        a.run_id is None && b.run_id is None ==> (a.key() == b.key() <==> a.product_revision@
            == b.product_revision@),
        a.run_id is None ==> a.key() == a.product_revision@,
        a.run_id is Some && a.run_id == b.run_id ==> a.key() == b.key(),
        a.run_id is Some ==> a.key() == "run:"@ + decimal_text(a.run_id->0 as nat),
{
}

/// What one run changes, in any dataset: where no run has its key, a run more, with its scores at the
/// end of every row and nothing before them in rows that are new; where one has, nothing, or, where
/// it is to be replaced, the metadata and the scores of the last such run.
pub proof fn law_one_run(
    store: StoreView,
    run: ScoredRunView,
    replace: bool,
    at: int,
    area: Seq<char>,
    k: int,
)
    requires
        store.is_aligned(),
    ensures
        (forall|i: int| 0 <= i < store.runs.len() ==> (#[trigger] store.runs[i]).key()
            != run.meta.key()) ==> {
            let new = store.with_scored(run, replace);
            &&& new.runs == store.runs.push(run.meta)
            &&& new.areas.contains_key(area) <==> store.areas.contains_key(area)
                || run.scores.contains_key(area)
            &&& new.areas.contains_key(area) ==> {
                &&& new.areas[area].len() == store.runs.len() + 1
                &&& new.areas[area].last() == run.scores.get(area)
                &&& 0 <= k < store.runs.len() && store.areas.contains_key(area)
                    ==> new.areas[area][k] == store.areas[area][k]
                &&& 0 <= k < store.runs.len() && !store.areas.contains_key(area)
                    ==> new.areas[area][k] is None
            }
        },
        0 <= at < store.runs.len() && store.runs[at].key() == run.meta.key() && (forall|i: int|
            at < i < store.runs.len() ==> (#[trigger] store.runs[i]).key() != run.meta.key()) ==> {
            let new = store.with_scored(run, replace);
            &&& !replace ==> new == store
            &&& replace ==> {
                &&& new.runs == store.runs.update(at, run.meta)
                &&& new.areas.contains_key(area) <==> store.areas.contains_key(area)
                    || run.scores.contains_key(area)
                &&& new.areas.contains_key(area) ==> {
                    &&& new.areas[area].len() == store.runs.len()
                    &&& new.areas[area][at] == run.scores.get(area)
                    &&& 0 <= k < store.runs.len() && k != at && store.areas.contains_key(area)
                        ==> new.areas[area][k] == store.areas[area][k]
                    &&& 0 <= k < store.runs.len() && k != at && !store.areas.contains_key(area)
                        ==> new.areas[area][k] is None
                }
            }
        },
{
    lemma_last_with_key(store.runs, run.meta.key());
    let new = store.with_scored(run, replace);
    if store.areas.contains_key(area) {
        assert(store.areas[area].len() == store.runs.len());
    }
    if last_with_key(store.runs, run.meta.key()) < 0 {
        assert(new.runs =~= store.runs.push(run.meta));
    }
}

/// Runs are appended one after the other, and appending none leaves the dataset but for its order.
pub proof fn law_one_after_the_other(
    store: StoreView,
    runs: Seq<ScoredRunView>,
    run: ScoredRunView,
    replace: bool,
)
    ensures
        store.with_all(runs.push(run), replace) == store.with_all(runs, replace).with_scored(
            run,
            replace,
        ),
        store.with_all(Seq::empty(), replace) == store,
{
    assert(runs.push(run).drop_last() =~= runs);
}

/// Sorting moves a run and its scores together: each place has the metadata of one run, and in every
/// row the score of that run.
pub proof fn law_sorting_moves_rows(store: StoreView, p: int, area: Seq<char>)
    requires
        store.is_aligned(),
        store.runs.len() <= usize::MAX,
        0 <= p < store.runs.len(),
    ensures
        store.sorted().runs.len() == store.runs.len(),
        store.sorted().areas.dom() == store.areas.dom(),
        exists|x: int|
            0 <= x < store.runs.len() && store.sorted().runs[p] == #[trigger] store.runs[x] && (
            store.areas.contains_key(area) ==> store.sorted().areas[area][p]
                == store.areas[area][x]),
{
    let order = sorting(store.runs);
    lemma_sorting_exists(store.runs);
    let x = order[p] as int;
    assert(0 <= order[p] < store.runs.len());
    assert(store.sorted().runs[p] == store.runs[x]);
    assert(store.sorted().areas.dom() =~= store.areas.dom());
}

/// What scored runs say, each in its place.
pub proof fn law_scored_runs(runs: Seq<ScoredRun>, i: int)
    requires
        0 <= i < runs.len(),
    ensures
        scored_views(runs).len() == runs.len(),
        scored_views(runs)[i].meta == runs[i].meta,
        scored_views(runs)[i].scores == runs[i].scores@,
{
}

}
