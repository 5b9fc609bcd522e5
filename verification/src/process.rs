//! Which runs are processed, and from which source.

use std::collections::HashSet;
use vstd::prelude::*;

use crate::args::Source;
use crate::cache::{path_prefix, subtree_prefix};
use crate::score::{test_views, RunResults, TestCounts, TestView};
use crate::sort::{law_sorting_keeps_items, lemma_sorting_exists};
use crate::sort::{permuted, sort_order, sorting, SortKey};
use crate::summary::RunMeta;
use crate::text::{begins_with, has_prefix};
use crate::time::DateError;
use crate::wptfyi::{fetch_summary, summary_tests, SummaryFile};
use crate::wptfyi::{all_started, is_first_date_error, reorder, run_starts, starts, Run};

verus! {

/// The runs from the earliest to the latest; runs that started together keep their order.
pub open spec fn by_start(runs: Seq<Run>) -> Seq<Run> {
    permuted(runs, sorting(starts(runs)))
}

/// Whether one of the runs started on a UTC day.
pub open spec fn has_day(runs: Seq<Run>, day: int) -> bool {
    exists|i: int| 0 <= i < runs.len() && (#[trigger] runs[i]).started()->0.day() == day
}

/// The runs without those that follow another of the same UTC day.
pub open spec fn first_of_days(runs: Seq<Run>) -> Seq<Run>
    decreases runs.len(),
{
    if runs.len() == 0 {
        runs
    } else {
        let before = first_of_days(runs.drop_last());
        if has_day(runs.drop_last(), runs.last().started()->0.day()) {
            before
        } else {
            before.push(runs.last())
        }
    }
}

/// Keep the earliest run of each UTC day.
pub fn thin_to_daily(runs: &mut Vec<Run>) -> (r: Result<(), DateError>)
    ensures
        r is Ok ==> all_started(old(runs)@) && final(runs)@ == first_of_days(by_start(old(runs)@)),
        r matches Err(e) ==> is_first_date_error(old(runs)@, e) && final(runs)@ == old(runs)@,
{
    let times = match run_starts(runs) {
        Ok(times) => times,
        Err(e) => {
            return Err(e);
        },
    };
    let order = sort_order(&times);
    let sorted = reorder(runs, &order);
    let mut seen_days: HashSet<i64> = HashSet::new();
    let mut kept: Vec<Run> = Vec::new();
    let mut i: usize = 0;
    proof {
        broadcast use vstd::std_specs::hash::group_hash_axioms;
        assert(sorted@.take(0) =~= Seq::<Run>::empty());
    }
    while i < sorted.len()
        invariant
            i <= sorted.len(),
            sorted.len() == order.len(),
            sorted@ == permuted(runs@, order@),
            times@ == starts(runs@),
            all_started(runs@),
            forall|p: int| 0 <= p < order@.len() ==> 0 <= #[trigger] order@[p] < runs@.len(),
            kept@ == first_of_days(sorted@.take(i as int)),
            forall|day: i64| #[trigger]
                seen_days@.contains(day) <==> has_day(sorted@.take(i as int), day as int),
        decreases sorted.len() - i,
    {
        broadcast use vstd::std_specs::hash::group_hash_axioms;

        let start = times[order[i]];
        let ghost part = sorted@.take(i as int);
        let ghost run = sorted@[i as int];
        proof {
            assert(runs@[order@[i as int] as int].started() is Some);
            assert(run.started() == Some(start));
            assert(sorted@.take(i + 1) =~= part.push(run));
            assert(part.push(run).drop_last() =~= part);
        }
        let day = start.utc_day();
        if seen_days.insert(day) {
            kept.push(sorted[i].clone());
        }
        proof {
            assert forall|d: i64| #[trigger]
                seen_days@.contains(d) <==> has_day(part.push(run), d as int) by {
                if has_day(part, d as int) {
                    let k = choose|k: int|
                        0 <= k < part.len() && (#[trigger] part[k]).started()->0.day() == d;
                    assert(part.push(run)[k].started()->0.day() == d);
                }
                if d == day {
                    assert(part.push(run)[part.len() as int].started()->0.day() == d);
                }
                if has_day(part.push(run), d as int) && d != day {
                    let k = choose|k: int|
                        0 <= k < part.push(run).len() && (#[trigger] part.push(
                            run,
                        )[k]).started()->0.day() == d;
                    assert(part[k].started()->0.day() == d);
                }
            }
        }
        i = i + 1;
    }
    proof {
        assert(sorted@.take(sorted@.len() as int) =~= sorted@);
    }
    *runs = kept;
    Ok(())
}

/// Whether a run is among those that a dataset has.
pub open spec fn has_run(present: Seq<RunMeta>, id: u64) -> bool {
    exists|i: int| 0 <= i < present.len() && (#[trigger] present[i]).run_id == Some(id)
}

/// The runs that a dataset does not have, or all of them where they are scored again.
pub open spec fn fresh(runs: Seq<Run>, present: Seq<RunMeta>, rescore: bool) -> Seq<Run> {
    runs.filter(|run: Run| rescore || !has_run(present, run.id))
}

/// The first of the runs, as many as there may be.
pub open spec fn limited(runs: Seq<Run>, max_runs: Option<usize>) -> Seq<Run> {
    match max_runs {
        Some(max) => if max < runs.len() {
            runs.take(max as int)
        } else {
            runs
        },
        None => runs,
    }
}

/// The earliest run of each UTC day where that is asked for, or all runs.
pub open spec fn thinned(runs: Seq<Run>, daily: bool) -> Seq<Run> {
    if daily {
        first_of_days(by_start(runs))
    } else {
        runs
    }
}

/// The ids of the runs that a dataset has.
fn present_ids(present: &Vec<RunMeta>) -> (r: HashSet<u64>)
    ensures
        forall|id: u64| #[trigger] r@.contains(id) <==> has_run(present@, id),
{
    broadcast use vstd::std_specs::hash::group_hash_axioms;

    let mut r: HashSet<u64> = HashSet::new();
    let mut i: usize = 0;
    while i < present.len()
        invariant
            i <= present.len(),
            forall|id: u64| #[trigger]
                r@.contains(id) <==> has_run(present@.take(i as int), id),
        decreases present.len() - i,
    {
        broadcast use vstd::std_specs::hash::group_hash_axioms;

        let ghost part = present@.take(i as int);
        let ghost meta = present@[i as int];
        match present[i].run_id {
            Some(id) => {
                r.insert(id);
            },
            None => {},
        }
        proof {
            assert(present@.take(i + 1) =~= part.push(meta));
            assert forall|id: u64| #[trigger]
                r@.contains(id) <==> has_run(part.push(meta), id) by {
                if has_run(part, id) {
                    let k = choose|k: int|
                        0 <= k < part.len() && (#[trigger] part[k]).run_id == Some(id);
                    assert(part.push(meta)[k].run_id == Some(id));
                }
                assert(part.push(meta)[part.len() as int] == meta);
                if has_run(part.push(meta), id) && meta.run_id != Some(id) {
                    let k = choose|k: int|
                        0 <= k < part.push(meta).len() && (#[trigger] part.push(meta)[k]).run_id
                            == Some(id);
                    assert(part[k].run_id == Some(id));
                }
            }
        }
        i = i + 1;
    }
    assert(present@.take(present@.len() as int) =~= present@);
    r
}

/// Which of the listed runs to score: the earliest of each UTC day where `daily` is set, of
/// those the ones that the dataset does not have, or all where they are scored again, and of
/// those the first, as many as there may be.
pub fn select_runs(
    runs: Vec<Run>,
    present: &Vec<RunMeta>,
    daily: bool,
    max_runs: Option<usize>,
    rescore: bool,
) -> (r: Result<Vec<Run>, DateError>)
    ensures
        r matches Ok(selected) ==> {
            &&& daily ==> all_started(runs@)
            &&& selected@ == limited(fresh(thinned(runs@, daily), present@, rescore), max_runs)
        },
        r matches Err(e) ==> daily && is_first_date_error(runs@, e),
{
    let mut runs = runs;
    if daily {
        match thin_to_daily(&mut runs) {
            Ok(()) => {},
            Err(e) => {
                return Err(e);
            },
        }
    }
    let existing = present_ids(present);
    let ghost all = runs@;
    let mut kept: Vec<Run> = Vec::new();
    let mut i: usize = 0;
    proof {
        reveal(Seq::filter);
        assert(all.take(0) =~= Seq::<Run>::empty());
    }
    while i < runs.len()
        invariant
            i <= runs.len(),
            runs@ == all,
            forall|id: u64| #[trigger] existing@.contains(id) <==> has_run(present@, id),
            kept@ == fresh(all.take(i as int), present@, rescore),
        decreases runs.len() - i,
    {
        broadcast use vstd::std_specs::hash::group_hash_axioms;

        proof {
            reveal(Seq::filter);
            assert(all.take(i + 1).drop_last() =~= all.take(i as int));
            assert(all.take(i + 1).last() == all[i as int]);
        }
        if rescore || !existing.contains(&runs[i].id) {
            kept.push(runs[i].clone());
        }
        i = i + 1;
    }
    assert(all.take(all.len() as int) =~= all);
    match max_runs {
        Some(max) => {
            kept.truncate(max);
        },
        None => {},
    }
    Ok(kept)
}

/// Whether the results of runs are looked for in the cache.
pub fn uses_cache(source: Source, has_cache: bool) -> (r: bool)
    ensures
        r == (has_cache && source != Source::Summary),
{
    has_cache && source != Source::Summary
}

/// What becomes of a run.
pub enum Decision {
    /// Its results, which the cache has, are scored.
    Score(RunResults),
    /// It is left out.
    Skip,
    /// Its summary file is fetched, and the results in it are scored.
    Fetch,
}

/// What becomes of a run, as a mathematical value.
pub enum DecisionView {
    Score(Seq<TestView>),
    Skip,
    Fetch,
}

impl View for Decision {
    type V = DecisionView;

    open spec fn view(&self) -> DecisionView {
        match self {
            Decision::Score(results) => DecisionView::Score(results@),
            Decision::Skip => DecisionView::Skip,
            Decision::Fetch => DecisionView::Fetch,
        }
    }
}

/// What becomes of a run, by what the cache has of it and the source of results.
pub open spec fn decision(cached: Option<RunResults>, source: Source) -> DecisionView {
    match cached {
        Some(results) => DecisionView::Score(results@),
        None => if source == Source::Cache {
            DecisionView::Skip
        } else {
            DecisionView::Fetch
        },
    }
}

/// How many runs were scored from which source, and how many were left out.
#[derive(Debug, Clone, Copy, PartialEq, Eq, Structural)]
pub struct Tally {
    pub from_cache: u64,
    pub from_summary: u64,
    pub skipped: u64,
}

impl Tally {
    /// The number of runs.
    pub open spec fn count(self) -> nat {
        (self.from_cache + self.from_summary + self.skipped) as nat
    }

    /// The tally with one more run.
    pub open spec fn with(self, decision: DecisionView) -> Tally {
        match decision {
            DecisionView::Score(_) => Tally { from_cache: (self.from_cache + 1) as u64, ..self },
            DecisionView::Skip => Tally { skipped: (self.skipped + 1) as u64, ..self },
            DecisionView::Fetch => Tally { from_summary: (self.from_summary + 1) as u64, ..self },
        }
    }

    /// A tally of no runs.
    pub fn new() -> (r: Self)
        ensures
            r.count() == 0,
    {
        Tally { from_cache: 0, from_summary: 0, skipped: 0 }
    }

    /// Decides what becomes of a run, and counts it.
    pub fn decide(&mut self, cached: Option<RunResults>, source: Source) -> (r: Decision)
        requires
            old(self).count() < u64::MAX,
        ensures
            r@ == decision(cached, source),
            *final(self) == old(self).with(r@),
            final(self).count() == old(self).count() + 1,
            cached matches Some(results) ==> {
                &&& r matches Decision::Score(scored) && scored@ == results@
                &&& final(self).from_cache == old(self).from_cache + 1
            },
            cached is None && source == Source::Cache ==> {
                &&& r is Skip
                &&& final(self).skipped == old(self).skipped + 1
            },
            cached is None && source != Source::Cache ==> {
                &&& r is Fetch
                &&& final(self).from_summary == old(self).from_summary + 1
            },
    {
        match cached {
            Some(results) => {
                self.from_cache = self.from_cache + 1;
                Decision::Score(results)
            },
            None => {
                if source == Source::Cache {
                    self.skipped = self.skipped + 1;
                    Decision::Skip
                } else {
                    self.from_summary = self.from_summary + 1;
                    Decision::Fetch
                }
            },
        }
    }
}

/// The tests of a subtree.
pub open spec fn subtree_tests(tests: Seq<TestView>, subtree: Seq<char>) -> Seq<TestView> {
    tests.filter(|t: TestView| begins_with(t.path, subtree_prefix(subtree)))
}

/// The results of the tests of a subtree.
pub fn restrict(results: RunResults, subtree: &str) -> (r: RunResults)
    ensures
        r@ == subtree_tests(results@, subtree@),
{
    let prefix = path_prefix(subtree);
    let ghost all = results@;
    let ghost tests = results.tests@;
    let mut kept: Vec<TestCounts> = Vec::new();
    proof {
        reveal(Seq::filter);
        assert(all.take(0) =~= Seq::<TestView>::empty());
        assert(test_views(kept@) =~= Seq::<TestView>::empty());
    }
    for test in it: results.tests
        invariant
            it.seq() == tests,
            all == test_views(tests),
            prefix@ == subtree_prefix(subtree@),
            test_views(kept@) == subtree_tests(all.take(it.index() as int), subtree@),
    {
        let ghost k = it.index() as int;
        let ghost before = test_views(kept@);
        proof {
            reveal(Seq::filter);
            assert(test == tests[k]);
            assert(all.take(k + 1).drop_last() =~= all.take(k));
            assert(all.take(k + 1).last() == test@);
        }
        if has_prefix(test.path.as_str(), prefix.as_str()) {
            kept.push(test);
            assert(test_views(kept@) =~= before.push(test@));
        }
    }
    assert(all.take(all.len() as int) =~= all);
    RunResults { tests: kept }
}

/// The tests of a summary file that are asked for: those of the subtree, or all of them.
pub open spec fn wanted_tests(summary: SummaryFile, subtree: Option<&str>) -> Seq<TestView> {
    match subtree {
        Some(name) => subtree_tests(summary_tests(summary), name@),
        None => summary_tests(summary),
    }
}

/// The results of a run whose summary file was fetched.
pub fn fetched_results(summary: SummaryFile, subtree: Option<&str>) -> (r: RunResults)
    ensures
        r@ == wanted_tests(summary, subtree),
{
    let results = fetch_summary(summary);
    match subtree {
        Some(name) => restrict(results, name),
        None => results,
    }
}

/// Whether progress is reported once this many runs have been gone through.
pub fn reports_progress(done: usize) -> (r: bool)
    ensures
        r == (done % 50 == 0),
{
    done % 50 == 0
}

/// Whether runs stand from the earliest to the latest.
pub open spec fn chronological(runs: Seq<Run>) -> bool {
    forall|p: int, q: int|
        0 <= p < q < runs.len() ==> (#[trigger] runs[p]).started()->0.not_after(
            (#[trigger] runs[q]).started()->0,
        )
}

/// Whether one of the runs started on the day of another, and not after it.
pub open spec fn has_earlier_of_day(runs: Seq<Run>, run: Run) -> bool {
    exists|k: int|
        0 <= k < runs.len() && (#[trigger] runs[k]).started()->0.day() == run.started()->0.day()
            && runs[k].started()->0.not_after(run.started()->0)
}

/// Whether no two of the runs started on the same day.
pub open spec fn on_different_days(runs: Seq<Run>) -> bool {
    forall|p: int, q: int|
        0 <= p < q < runs.len() ==> (#[trigger] runs[p]).started()->0.day() != (
        #[trigger] runs[q]).started()->0.day()
}

proof fn lemma_first_of_days(runs: Seq<Run>)
    requires
        chronological(runs),
    ensures
        chronological(first_of_days(runs)),
        on_different_days(first_of_days(runs)),
        forall|k: int|
            0 <= k < first_of_days(runs).len() ==> runs.contains(
                #[trigger] first_of_days(runs)[k],
            ),
        forall|i: int|
            0 <= i < runs.len() ==> has_earlier_of_day(first_of_days(runs), #[trigger] runs[i]),
    decreases runs.len(),
{
    if runs.len() > 0 {
        let n = runs.len() - 1;
        let rest = runs.drop_last();
        let run = runs.last();
        let day = run.started()->0.day();
        let before = first_of_days(rest);
        let kept = first_of_days(runs);
        lemma_first_of_days(rest);
        assert forall|k: int| 0 <= k < before.len() implies exists|i: int|
            0 <= i < n && runs[i] == #[trigger] before[k] by {
            assert(rest.contains(before[k]));
            let i = rest.index_of(before[k]);
            assert(runs[i] == before[k]);
        }
        assert forall|k: int| 0 <= k < kept.len() implies runs.contains(#[trigger] kept[k]) by {
            if k < before.len() {
                assert(kept[k] == before[k]);
                let i = choose|i: int| 0 <= i < n && runs[i] == before[k];
                assert(runs[i] == kept[k]);
            } else {
                assert(runs[n] == kept[k]);
            }
        }
        assert(kept == before || kept == before.push(run));
        assert(chronological(kept)) by {
            assert forall|p: int, q: int| 0 <= p < q < kept.len() implies (
            #[trigger] kept[p]).started()->0.not_after((#[trigger] kept[q]).started()->0) by {
                assert(kept[p] == before[p]);
                if q < before.len() {
                    assert(kept[q] == before[q]);
                } else {
                    let i = choose|i: int| 0 <= i < n && runs[i] == before[p];
                    assert(runs[i].started()->0.not_after(runs[n].started()->0));
                }
            }
        }
        assert(on_different_days(kept)) by {
            assert forall|p: int, q: int| 0 <= p < q < kept.len() implies (
            #[trigger] kept[p]).started()->0.day() != (#[trigger] kept[q]).started()->0.day() by {
                assert(kept[p] == before[p]);
                if q < before.len() {
                    assert(kept[q] == before[q]);
                } else {
                    let i = choose|i: int| 0 <= i < n && runs[i] == before[p];
                    assert(rest[i] == before[p]);
                    assert(!has_day(rest, day));
                }
            }
        }
        assert forall|i: int| 0 <= i < runs.len() implies has_earlier_of_day(
            kept,
            #[trigger] runs[i],
        ) by {
            if i < n {
                assert(has_earlier_of_day(before, rest[i]));
                let k = choose|k: int|
                    0 <= k < before.len() && (#[trigger] before[k]).started()->0.day()
                        == rest[i].started()->0.day() && before[k].started()->0.not_after(
                        rest[i].started()->0,
                    );
                assert(kept[k] == before[k]);
            } else if has_day(rest, day) {
                let j = choose|j: int|
                    0 <= j < rest.len() && (#[trigger] rest[j]).started()->0.day() == day;
                assert(has_earlier_of_day(before, rest[j]));
                let k = choose|k: int|
                    0 <= k < before.len() && (#[trigger] before[k]).started()->0.day()
                        == rest[j].started()->0.day() && before[k].started()->0.not_after(
                        rest[j].started()->0,
                    );
                assert(runs[j].started()->0.not_after(runs[n].started()->0));
                assert(kept[k] == before[k]);
            } else {
                assert(kept[before.len() as int] == run);
            }
        }
    }
}

/// Thinning to one run per day keeps, of every UTC day on which a run started, exactly one run,
/// and none of that day started earlier; what is kept is in the order of the starts.
pub proof fn law_daily(runs: Seq<Run>)
    requires
        all_started(runs),
        runs.len() <= usize::MAX,
    ensures
        chronological(thinned(runs, true)),
        on_different_days(thinned(runs, true)),
        forall|k: int|
            0 <= k < thinned(runs, true).len() ==> runs.contains(
                #[trigger] thinned(runs, true)[k],
            ),
        forall|i: int|
            0 <= i < runs.len() ==> has_earlier_of_day(thinned(runs, true), #[trigger] runs[i]),
{
    let keys = starts(runs);
    let sorted = by_start(runs);
    law_sorting_keeps_items(keys, runs);
    sorted.to_multiset_ensures();
    runs.to_multiset_ensures();
    assert(chronological(sorted)) by {
        lemma_sorting_exists(keys);
        assert forall|p: int, q: int| 0 <= p < q < sorted.len() implies (
        #[trigger] sorted[p]).started()->0.not_after((#[trigger] sorted[q]).started()->0) by {
            let (a, b) = (permuted(keys, sorting(keys))[p], permuted(keys, sorting(keys))[q]);
            assert(a.key_le(b));
        }
    }
    lemma_first_of_days(sorted);
    let kept = thinned(runs, true);
    assert forall|k: int| 0 <= k < kept.len() implies runs.contains(#[trigger] kept[k]) by {
        assert(sorted.contains(kept[k]));
        assert(sorted.to_multiset().count(kept[k]) > 0);
    }
    assert forall|i: int| 0 <= i < runs.len() implies has_earlier_of_day(
        kept,
        #[trigger] runs[i],
    ) by {
        assert(runs.contains(runs[i]));
        assert(sorted.to_multiset().count(runs[i]) > 0);
        let j = sorted.index_of(runs[i]);
        assert(has_earlier_of_day(kept, sorted[j]));
    }
}

proof fn lemma_fresh(runs: Seq<Run>, present: Seq<RunMeta>, rescore: bool)
    ensures
        forall|k: int|
            0 <= k < fresh(runs, present, rescore).len() ==> {
                let run = #[trigger] fresh(runs, present, rescore)[k];
                (rescore || !has_run(present, run.id)) && runs.contains(run)
            },
        forall|run: Run|
            runs.contains(run) && (rescore || !has_run(present, run.id)) ==> #[trigger] fresh(
                runs,
                present,
                rescore,
            ).contains(run),
    decreases runs.len(),
{
    reveal(Seq::filter);
    if runs.len() > 0 {
        let rest = runs.drop_last();
        let last = runs.last();
        let (few, all) = (fresh(rest, present, rescore), fresh(runs, present, rescore));
        lemma_fresh(rest, present, rescore);
        assert(runs[runs.len() - 1] == last);
        assert forall|k: int| 0 <= k < all.len() implies (rescore || !has_run(
            present,
            (#[trigger] all[k]).id,
        )) && runs.contains(all[k]) by {
            if k < few.len() {
                assert(all[k] == few[k]);
                assert(runs[rest.index_of(few[k])] == all[k]);
            }
        }
        assert forall|run: Run| runs.contains(run) && (rescore || !has_run(
            present,
            run.id,
        )) implies #[trigger] all.contains(run) by {
            let i = runs.index_of(run);
            if i < rest.len() {
                assert(rest[i] == run);
                assert(few.contains(run));
                assert(all[few.index_of(run)] == run);
            } else {
                assert(all[few.len() as int] == run);
            }
        }
    }
}

/// Runs that a dataset has are scored again only where that is asked for.
pub proof fn law_present_runs_left_out(
    runs: Seq<Run>,
    present: Seq<RunMeta>,
    daily: bool,
    max_runs: Option<usize>,
)
    ensures
        forall|k: int|
            #![trigger limited(fresh(thinned(runs, daily), present, false), max_runs)[k]]
            0 <= k < limited(fresh(thinned(runs, daily), present, false), max_runs).len()
                ==> !has_run(
                present,
                limited(fresh(thinned(runs, daily), present, false), max_runs)[k].id,
            ),
{
    let kept = fresh(thinned(runs, daily), present, false);
    let picked = limited(kept, max_runs);
    lemma_fresh(thinned(runs, daily), present, false);
    assert forall|k: int| 0 <= k < picked.len() implies !has_run(
        present,
        (#[trigger] picked[k]).id,
    ) by {
        assert(picked[k] == kept[k]);
    }
}

/// An update is complete: once a dataset has the runs that were selected, and still those that
/// it had before, none of the listed runs is selected any more.
pub proof fn law_update_complete(
    runs: Seq<Run>,
    before: Seq<RunMeta>,
    after: Seq<RunMeta>,
    daily: bool,
)
    requires
        forall|id: u64| #[trigger] has_run(before, id) ==> has_run(after, id),
        forall|k: int|
            0 <= k < fresh(thinned(runs, daily), before, false).len() ==> has_run(
                after,
                (#[trigger] fresh(thinned(runs, daily), before, false)[k]).id,
            ),
    ensures
        fresh(thinned(runs, daily), after, false).len() == 0,
{
    let all = thinned(runs, daily);
    let first = fresh(all, before, false);
    let rest = fresh(all, after, false);
    lemma_fresh(all, before, false);
    lemma_fresh(all, after, false);
    if rest.len() > 0 {
        let run = rest[0];
        assert(!has_run(before, run.id));
        assert(first.contains(run));
        let k = first.index_of(run);
        assert(has_run(after, first[k].id));
    }
}

/// Every run is counted once: none is fetched where only the cache is used, and none is left
/// out where it is not the only source.
pub proof fn law_tally_counts(tally: Tally, cached: Option<RunResults>, source: Source)
    requires
        tally.count() < u64::MAX,
    ensures
        tally.with(decision(cached, source)).count() == tally.count() + 1,
        source == Source::Cache ==> tally.with(decision(cached, source)).from_summary
            == tally.from_summary,
        source != Source::Cache ==> tally.with(decision(cached, source)).skipped == tally.skipped,
{
}

}
