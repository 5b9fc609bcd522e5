//! What holds of how runs are listed, selected and read.

use vstd::prelude::*;
use vstd::string::*;

use crate::args::Source;
use crate::cache::subtree_prefix;
use crate::process::by_start;
use crate::process::{decision, first_of_days, fresh, limited, subtree_tests, thinned};
use crate::process::{wanted_tests, DecisionView, Tally};
use crate::score::{RunResults, TestView};
use crate::summary::RunMeta;
use crate::sort::{law_sorting_is_stable, lemma_sorting_exists, sorting};
use crate::text::{begins_with, joined, texts};
use crate::time::{instant, is_date_error, rfc3339_instant, DateError, Timestamp};
use crate::wptfyi::{all_started, bound, gunzipped, in_window, is_first_date_error, is_gzip};
use crate::wptfyi::{newest_first, newest_keys};
use crate::wptfyi::{page_url, reaches, starts, summary_tests, unpacked, unreadable, unslashed};
use crate::wptfyi::{v1_tests, v2_tests, windowed, Run, RunQuery, SummaryFile, SummaryV2Entry};

verus! {

/// Moments are in the order of their nanoseconds since the beginning of 1970, and a moment is
/// before another if and only if it is not after it and not the same.
pub proof fn law_moments(a: Timestamp, b: Timestamp)
    requires
        a.nanos < 1_000_000_000,
        b.nanos < 1_000_000_000,
    ensures
        a.not_after(b) <==> a.seconds * 1_000_000_000 + a.nanos <= b.seconds * 1_000_000_000
            + b.nanos,
        a.earlier_than(b) <==> a.seconds * 1_000_000_000 + a.nanos < b.seconds * 1_000_000_000
            + b.nanos,
{
}

/// Moments of any kind, those within leap seconds too, are in one order.
pub proof fn law_moments_in_order(a: Timestamp, b: Timestamp, c: Timestamp)
    ensures
        a.not_after(b) || b.not_after(a),
        a.not_after(b) && b.not_after(a) ==> a == b,
        a.not_after(b) && b.not_after(c) ==> a.not_after(c),
        a.earlier_than(b) <==> a.not_after(b) && a != b,
        a.seconds < b.seconds ==> a.earlier_than(b),
        a.seconds == b.seconds ==> (a.earlier_than(b) <==> a.nanos < b.nanos),
{
}

/// A UTC day has 86400 seconds, and the first begins with 1970.
pub proof fn law_days(t: Timestamp, u: Timestamp)
    ensures
        t.day() * 86400 <= t.seconds < (t.day() + 1) * 86400,
        t.day() == u.day() ==> -86400 < t.seconds - u.seconds < 86400,
        t.not_after(u) ==> t.day() <= u.day(),
{
}

/// The moment that a date stands for is what chrono reads, to the nanosecond.
pub proof fn law_dates(text: Seq<char>, error: DateError)
    ensures
        instant(text) is Some <==> rfc3339_instant(text) is Ok,
        instant(text) is Some ==> rfc3339_instant(text) == Ok::<(i64, u32), Seq<char>>(
            (instant(text)->0.seconds, instant(text)->0.nanos),
        ),
        is_date_error(text, error) ==> instant(text) is None && error.date@ == text
            && rfc3339_instant(text) == Err::<(i64, u32), Seq<char>>(error.reason@),
{
}

/// When runs started is what their dates say, run by run; a run without a readable date is the
/// one that an error is about.
pub proof fn law_starts(runs: Seq<Run>, i: int, error: DateError)
    requires
        0 <= i < runs.len(),
    ensures
        runs[i].started() == instant(runs[i].time_start@),
        starts(runs).len() == runs.len(),
        instant(runs[i].time_start@) is Some ==> starts(runs)[i] == instant(
            runs[i].time_start@,
        )->0,
        all_started(runs) ==> instant(runs[i].time_start@) is Some,
        is_first_date_error(runs, error) ==> !all_started(runs) && exists|k: int|
            0 <= k < runs.len() && (#[trigger] runs[k]).time_start@ == error.date@ && instant(
                error.date@,
            ) is None && (forall|j: int|
                0 <= j < k ==> instant((#[trigger] runs[j]).time_start@) is Some),
{
    if all_started(runs) {
        assert(runs[i].started() is Some);
    }
    if is_first_date_error(runs, error) {
        let k = choose|k: int|
            0 <= k < runs.len() && all_started(runs.take(k)) && is_date_error(
                (#[trigger] runs[k]).time_start@,
                error,
            );
        assert(runs[k].time_start@ == error.date@);
        assert(runs[k].started() is None);
        assert forall|j: int| 0 <= j < k implies instant(
            (#[trigger] runs[j]).time_start@,
        ) is Some by {
            assert(runs.take(k)[j].started() is Some);
        }
    }
}

/// The URL of the first page of the runs of a product, without labels or dates.
pub proof fn law_plain_url(query: RunQuery)
    requires
        query.labels@.len() == 0,
        query.from is None,
        query.to is None,
    ensures
        query.url() == "https://wpt.fyi/api/runs"@ + "?product="@ + query.product@
            + "&max-count=500"@,
{
    assert(query.url() =~= "https://wpt.fyi/api/runs"@ + "?product="@ + query.product@
        + "&max-count=500"@);
}

/// Labels, wherever a query has any, are one parameter of the URL, joined by commas: it is what the
/// URL of the query has more than that of the query without them.
pub proof fn law_labels_in_url(query: RunQuery, bare: RunQuery)
    requires
        query.labels@.len() > 0,
        query.from is None,
        query.to is None,
        bare.product@ == query.product@,
        bare.labels@.len() == 0,
        bare.from is None,
        bare.to is None,
    ensures
        query.url() == bare.url() + "&labels="@ + joined(texts(query.labels@), ","@),
{
    assert(query.url() =~= bare.url() + "&labels="@ + joined(texts(query.labels@), ","@));
}

/// Each date that a query gives is a parameter of its own, after all that the query has without
/// dates; it changes nothing else, whatever the other parameters are.
pub proof fn law_dates_in_url(query: RunQuery, undated: RunQuery)
    requires
        undated.product@ == query.product@,
        texts(undated.labels@) == texts(query.labels@),
        undated.from is None,
        undated.to is None,
    ensures
        query.from is None && query.to is None ==> query.url() == undated.url(),
        query.from is Some && query.to is None ==> query.url() == undated.url() + "&from="@
            + query.from->0@,
        query.from is None && query.to is Some ==> query.url() == undated.url() + "&to="@
            + query.to->0@,
        query.from is Some && query.to is Some ==> query.url() == undated.url() + "&from="@
            + query.from->0@ + "&to="@ + query.to->0@,
{
    assert(texts(undated.labels@).len() == undated.labels@.len());
    assert(texts(query.labels@).len() == query.labels@.len());
    let base = undated.url();
    if query.from is Some && query.to is Some {
        assert(query.url() =~= base + "&from="@ + query.from->0@ + "&to="@ + query.to->0@);
    } else if query.from is Some {
        assert(query.url() =~= base + "&from="@ + query.from->0@);
    } else if query.to is Some {
        assert(query.url() =~= base + "&to="@ + query.to->0@);
    } else {
        assert(query.url() =~= base);
    }
}

/// Whatever dates a query gives, its labels are in its URL.
pub proof fn law_labels_whatever_the_dates(query: RunQuery)
    requires
        query.labels@.len() > 0,
    ensures
        begins_with(
            query.url(),
            "https://wpt.fyi/api/runs"@ + "?product="@ + query.product@ + "&max-count=500"@
                + "&labels="@ + joined(texts(query.labels@), ","@),
        ),
{
    let head = "https://wpt.fyi/api/runs"@ + "?product="@ + query.product@ + "&max-count=500"@
        + "&labels="@ + joined(texts(query.labels@), ","@);
    assert(query.url().subrange(0, head.len() as int) =~= head);
}

/// The URL of a page is that of the list of runs with the token of the page.
pub proof fn law_page_url(token: Seq<char>)
    ensures
        page_url(token) == "https://wpt.fyi/api/runs"@ + "?page="@ + token,
{
}

/// The bounds of a listing are the moments of the dates that are given; a date that is given but
/// stands for no moment is the one thing that cannot be read.
pub proof fn law_bounds(date: Option<&str>)
    ensures
        date is None ==> bound(date) is None && !unreadable(date),
        date matches Some(text) ==> bound(date) == instant(text@),
        unreadable(date) <==> date is Some && bound(date) is None,
{
}

/// Whether a page goes back past a moment: if and only if one of its runs started before it, where
/// every run has a start.
pub proof fn law_reaches(page: Seq<Run>, from: Timestamp)
    requires
        all_started(page),
    ensures
        reaches(page, from) is Some,
        reaches(page, from) == Some(true) <==> exists|i: int|
            0 <= i < page.len() && (#[trigger] page[i]).started()->0.earlier_than(from),
    decreases page.len(),
{
    if page.len() > 0 {
        let rest = page.skip(1);
        assert(page[0].started() is Some);
        assert forall|i: int| 0 <= i < rest.len() implies (#[trigger] rest[i]).started() is Some by {
            assert(rest[i] == page[i + 1]);
        }
        law_reaches(rest, from);
        if exists|i: int|
            0 <= i < page.len() && (#[trigger] page[i]).started()->0.earlier_than(from) {
            let i = choose|i: int|
                0 <= i < page.len() && (#[trigger] page[i]).started()->0.earlier_than(from);
            if i > 0 {
                assert(rest[i - 1].started()->0.earlier_than(from));
            }
        }
        if exists|i: int|
            0 <= i < rest.len() && (#[trigger] rest[i]).started()->0.earlier_than(from) {
            let i = choose|i: int|
                0 <= i < rest.len() && (#[trigger] rest[i]).started()->0.earlier_than(from);
            assert(page[i + 1].started()->0.earlier_than(from));
        }
    }
}

/// A window holds the runs that started at its beginning or later, and before its end; a bound that
/// is not given keeps no run out.
pub proof fn law_window(run: Run, from: Timestamp, to: Timestamp)
    requires
        run.started() is Some,
    ensures
        in_window(run, None, None),
        in_window(run, Some(from), None) <==> !run.started()->0.earlier_than(from),
        in_window(run, None, Some(to)) <==> run.started()->0.earlier_than(to),
        in_window(run, Some(from), Some(to)) <==> in_window(run, Some(from), None) && in_window(
            run,
            None,
            Some(to),
        ),
        run.started() == Some(from) ==> in_window(run, Some(from), None),
        run.started() == Some(to) ==> !in_window(run, None, Some(to)),
{
}

/// Bytes are taken for gzip data if and only if they begin with `1f 8b`; all others stay as they
/// are.
pub proof fn law_gzip(bytes: Seq<u8>, rest: Seq<u8>)
    ensures
        is_gzip(seq![0x1fu8, 0x8bu8] + rest),
        is_gzip(bytes) ==> bytes == seq![0x1fu8, 0x8bu8] + bytes.skip(2),
        is_gzip(bytes) ==> unpacked(bytes) == gunzipped(bytes),
        !is_gzip(bytes) ==> unpacked(bytes) == Ok::<Seq<u8>, Seq<char>>(bytes),
{
    if is_gzip(bytes) {
        assert(bytes =~= seq![0x1fu8, 0x8bu8] + bytes.skip(2));
    }
}

/// One slash at the beginning of a path, and no more, is taken off.
pub proof fn law_leading_slash(path: Seq<char>)
    ensures
        unslashed(seq!['/'] + path) == path,
        path.len() == 0 || path[0] != '/' ==> unslashed(path) == path,
{
    assert((seq!['/'] + path).skip(1) =~= path);
}

/// An entry more of a v1 file is a test more: with its own numbers, and passed if and only if they
/// are the same.
pub proof fn law_v1_entry_added(
    entries: Seq<(String, [u32; 2])>,
    entry: (String, [u32; 2]),
)
    ensures
        v1_tests(entries.push(entry)).len() == v1_tests(entries).len() + 1,
        v1_tests(entries.push(entry)).drop_last() == v1_tests(entries),
        v1_tests(entries.push(entry)).last().path == unslashed(entry.0@),
        v1_tests(entries.push(entry)).last().pass == entry.1@[0],
        v1_tests(entries.push(entry)).last().total == entry.1@[1],
        v1_tests(entries.push(entry)).last().passes <==> entry.1@[0] == entry.1@[1],
        v1_tests(Seq::empty()).len() == 0,
{
    assert(v1_tests(entries.push(entry)).drop_last() =~= v1_tests(entries));
}

/// An entry more of a v2 file is a test more, unless it says that the test was skipped (`S`): with
/// its own numbers, and passed if and only if its status is `P`.
pub proof fn law_v2_entry_added(
    entries: Seq<(String, SummaryV2Entry)>,
    entry: (String, SummaryV2Entry),
)
    ensures
        entry.1.s@ == "S"@ ==> v2_tests(entries.push(entry)) == v2_tests(entries),
        entry.1.s@ != "S"@ ==> {
            let tests = v2_tests(entries.push(entry));
            &&& tests.len() == v2_tests(entries).len() + 1
            &&& tests.drop_last() == v2_tests(entries)
            &&& tests.last().path == unslashed(entry.0@)
            &&& tests.last().pass == entry.1.c@[0]
            &&& tests.last().total == entry.1.c@[1]
            &&& tests.last().passes <==> entry.1.s@ == "P"@
        },
        v2_tests(Seq::empty()).len() == 0,
{
    reveal(Seq::filter);
    assert(entries.push(entry).drop_last() =~= entries);
    if entry.1.s@ != "S"@ {
        let tests = v2_tests(entries.push(entry));
        assert(tests.drop_last() =~= v2_tests(entries));
    }
}

/// The tests of a summary file are those of its entries, by its format, and all of them where no
/// subtree is asked for.
pub proof fn law_summary_files(summary: SummaryFile, subtree: Option<&str>)
    ensures
        summary matches SummaryFile::V1(entries) ==> summary_tests(summary) == v1_tests(entries@),
        summary matches SummaryFile::V2(entries) ==> summary_tests(summary) == v2_tests(entries@),
        subtree is None ==> wanted_tests(summary, subtree) == summary_tests(summary),
        subtree matches Some(name) ==> wanted_tests(summary, subtree) == subtree_tests(
            summary_tests(summary),
            name@,
        ),
{
}

/// A test more is one more of a subtree if and only if its path begins with that of the subtree.
pub proof fn law_subtree_test_added(tests: Seq<TestView>, test: TestView, subtree: Seq<char>)
    ensures
        begins_with(test.path, subtree_prefix(subtree)) ==> subtree_tests(
            tests.push(test),
            subtree,
        ) == subtree_tests(tests, subtree).push(test),
        !begins_with(test.path, subtree_prefix(subtree)) ==> subtree_tests(
            tests.push(test),
            subtree,
        ) == subtree_tests(tests, subtree),
        subtree_tests(Seq::empty(), subtree).len() == 0,
{
    reveal(Seq::filter);
    assert(tests.push(test).drop_last() =~= tests);
}

/// A run more that is listed is one more to score if and only if the dataset has no run of that ID,
/// or runs are scored again; the order of the runs stays.
pub proof fn law_fresh_run_added(
    runs: Seq<Run>,
    run: Run,
    present: Seq<RunMeta>,
    rescore: bool,
)
    ensures
        rescore ==> fresh(runs, present, rescore) == runs,
        !rescore && (forall|i: int|
            0 <= i < present.len() ==> (#[trigger] present[i]).run_id != Some(run.id)) ==> fresh(
            runs.push(run),
            present,
            rescore,
        ) == fresh(runs, present, rescore).push(run),
        !rescore && (exists|i: int|
            0 <= i < present.len() && (#[trigger] present[i]).run_id == Some(run.id)) ==> fresh(
            runs.push(run),
            present,
            rescore,
        ) == fresh(runs, present, rescore),
        fresh(Seq::empty(), present, rescore).len() == 0,
{
    reveal(Seq::filter);
    assert(runs.push(run).drop_last() =~= runs);
    if rescore {
        lemma_all_fresh(runs, present);
    }
}

proof fn lemma_all_fresh(runs: Seq<Run>, present: Seq<RunMeta>)
    ensures
        fresh(runs, present, true) == runs,
    decreases runs.len(),
{
    reveal(Seq::filter);
    if runs.len() == 0 {
        assert(fresh(runs, present, true) =~= runs);
    } else {
        lemma_all_fresh(runs.drop_last(), present);
        assert(runs.drop_last().push(runs.last()) =~= runs);
    }
}

/// A limit keeps the first runs, as many as it says or as there are; without it all are kept. Runs
/// are thinned only where that is asked for.
pub proof fn law_limit(runs: Seq<Run>, max: usize, i: int)
    ensures
        limited(runs, None) == runs,
        limited(runs, Some(max)).len() == (if runs.len() < max {
            runs.len() as int
        } else {
            max as int
        }),
        0 <= i < limited(runs, Some(max)).len() ==> limited(runs, Some(max))[i] == runs[i],
        thinned(runs, false) == runs,
{
}

/// What the cache has of a run is what is scored, whatever the source: nothing is fetched for it,
/// and it counts as one more from the cache.
pub proof fn law_cached_results_scored(results: RunResults, source: Source, tally: Tally)
    requires
        tally.count() < u64::MAX,
    ensures
        decision(Some(results), source) == DecisionView::Score(results@),
        tally.with(decision(Some(results), source)).from_cache == tally.from_cache + 1,
        tally.with(decision(Some(results), source)).from_summary == tally.from_summary,
        tally.with(decision(Some(results), source)).skipped == tally.skipped,
{
}

/// A summary file is fetched only for a run that the cache has no results of, and always for such a
/// run, unless the cache is the only source: then it is left out.
pub proof fn law_fetched_without_cached_results(
    cached: Option<RunResults>,
    source: Source,
    tally: Tally,
)
    requires
        tally.count() < u64::MAX,
    ensures
        decision(cached, source) is Fetch <==> cached is None && (source is Auto
            || source is Summary),
        decision(cached, source) is Skip <==> cached is None && source is Cache,
        decision(cached, source) is Fetch ==> tally.with(
            decision(cached, source),
        ).from_summary == tally.from_summary + 1,
        decision(cached, source) is Skip ==> tally.with(decision(cached, source)).skipped
            == tally.skipped + 1,
        decision(cached, source) is Score <==> tally.with(decision(cached, source)).from_cache
            != tally.from_cache,
        cached is None ==> tally.with(decision(cached, source)).from_cache == tally.from_cache,
{
}

/// Where two lists of runs, one after the other, are thinned, those of the first that are kept are
/// kept: a later run takes no earlier one's place.
pub proof fn law_earlier_runs_stay(runs: Seq<Run>, run: Run)
    ensures
        first_of_days(runs.push(run)) == first_of_days(runs) || first_of_days(runs.push(run))
            == first_of_days(runs).push(run),
        (forall|i: int|
            0 <= i < runs.len() ==> (#[trigger] runs[i]).started()->0.day()
                != run.started()->0.day()) ==> first_of_days(runs.push(run)) == first_of_days(
            runs,
        ).push(run),
        (exists|i: int|
            0 <= i < runs.len() && (#[trigger] runs[i]).started()->0.day()
                == run.started()->0.day()) ==> first_of_days(runs.push(run)) == first_of_days(runs),
{
    assert(runs.push(run).drop_last() =~= runs);
}

/// A run more that is received is one more of the window if and only if it started within it.
pub proof fn law_received_run_added(
    runs: Seq<Run>,
    run: Run,
    from: Option<Timestamp>,
    to: Option<Timestamp>,
)
    ensures
        in_window(run, from, to) ==> windowed(runs.push(run), from, to) == windowed(
            runs,
            from,
            to,
        ).push(run),
        !in_window(run, from, to) ==> windowed(runs.push(run), from, to) == windowed(
            runs,
            from,
            to,
        ),
        windowed(Seq::empty(), from, to).len() == 0,
{
    reveal(Seq::filter);
    assert(runs.push(run).drop_last() =~= runs);
}

/// Runs that started at the same time keep the order in which they were received, newest first or
/// by their start.
pub proof fn law_ties_keep_their_order(runs: Seq<Run>, p: int, q: int)
    requires
        runs.len() <= usize::MAX,
        0 <= p < q < runs.len(),
    ensures
        ({
            let order = sorting(newest_keys(runs));
            &&& newest_first(runs)[p] == runs[order[p] as int]
            &&& newest_first(runs)[q] == runs[order[q] as int]
            &&& runs[order[p] as int].started()->0 == runs[order[q] as int].started()->0
                ==> order[p] < order[q]
        }),
        ({
            let order = sorting(starts(runs));
            &&& by_start(runs)[p] == runs[order[p] as int]
            &&& by_start(runs)[q] == runs[order[q] as int]
            &&& runs[order[p] as int].started()->0 == runs[order[q] as int].started()->0
                ==> order[p] < order[q]
        }),
{
    law_sorting_is_stable(newest_keys(runs), p, q);
    law_sorting_is_stable(starts(runs), p, q);
    lemma_sorting_exists(newest_keys(runs));
    lemma_sorting_exists(starts(runs));
}

}
