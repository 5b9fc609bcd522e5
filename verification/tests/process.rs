use browser_wpt_results::args::Source;
use browser_wpt_results::process::{fetched_results, reports_progress, restrict, select_runs};
use browser_wpt_results::process::{thin_to_daily, uses_cache, Decision, Tally};
use browser_wpt_results::score::{RunResults, TestCounts};
use browser_wpt_results::summary::RunMeta;
use browser_wpt_results::wptfyi::{Run, SummaryFile};
use wptreport::SubtestCounts;

fn at(id: u64, time_start: &str) -> Run {
    Run {
        id,
        browser_version: "1.0".to_string(),
        full_revision_hash: "0123456789".to_string(),
        results_url: String::new(),
        time_start: time_start.to_string(),
    }
}

fn known(id: u64) -> RunMeta {
    RunMeta {
        date: "d".to_string(),
        wpt_revision: "w".to_string(),
        product_revision: "p".to_string(),
        commit_message: None,
        run_id: Some(id),
    }
}

fn numbers(runs: &[Run]) -> Vec<u64> {
    runs.iter().map(|run| run.id).collect()
}

fn listed() -> Vec<Run> {
    vec![
        at(5, "2026-09-03T12:00:00Z"),
        at(4, "2026-09-02T23:59:59Z"),
        at(3, "2026-09-02T00:00:00Z"),
        // The day before, in UTC.
        at(2, "2026-09-02T01:00:00+02:00"),
        at(1, "2026-09-01T00:00:00Z"),
    ]
}

fn one_test(path: &str) -> RunResults {
    RunResults {
        tests: vec![TestCounts {
            path: path.to_string(),
            passes: true,
            subtests: SubtestCounts { pass: 0, total: 0 },
        }],
    }
}

#[test]
fn earliest_run_of_each_day_is_kept() {
    let mut runs = listed();
    thin_to_daily(&mut runs).unwrap();
    assert_eq!(numbers(&runs), [1, 3, 5]);
}

#[test]
fn days_before_1970_are_days_too() {
    let mut runs = vec![
        at(3, "1970-01-01T00:00:00Z"),
        at(2, "1969-12-31T23:59:59Z"),
        at(1, "1969-12-31T00:00:00Z"),
    ];
    thin_to_daily(&mut runs).unwrap();
    assert_eq!(numbers(&runs), [1, 3]);
}

#[test]
fn runs_that_started_together_keep_their_order() {
    let mut runs = vec![at(2, "2026-09-01T00:00:00Z"), at(1, "2026-09-01T02:00:00+02:00")];
    thin_to_daily(&mut runs).unwrap();
    assert_eq!(numbers(&runs), [2]);
}

#[test]
fn runs_without_a_start_are_not_thinned() {
    let mut runs = vec![at(1, "2026-09-01T00:00:00Z"), at(2, "soon")];
    let e = thin_to_daily(&mut runs).err().unwrap();
    assert_eq!(e.date, "soon");
    assert_eq!(numbers(&runs), [1, 2]);
}

#[test]
fn runs_are_selected() {
    let pick = |present: &[u64], daily, max, rescore| {
        let present: Vec<RunMeta> = present.iter().map(|id| known(*id)).collect();
        numbers(&select_runs(listed(), &present, daily, max, rescore).unwrap())
    };
    assert_eq!(pick(&[], false, None, false), [5, 4, 3, 2, 1]);
    assert_eq!(pick(&[4, 9], false, None, false), [5, 3, 2, 1]);
    assert_eq!(pick(&[4, 9], false, Some(2), false), [5, 3]);
    assert_eq!(pick(&[4, 9], false, Some(9), true), [5, 4, 3, 2, 1]);
    assert_eq!(pick(&[], false, Some(0), false), Vec::<u64>::new());
    // Another run of a day does not step in for one that is there already.
    assert_eq!(pick(&[3], true, None, false), [1, 5]);
    assert_eq!(pick(&[3], true, Some(2), true), [1, 3]);
}

#[test]
fn updates_are_complete() {
    let picked = select_runs(listed(), &vec![], true, None, false).unwrap();
    let present: Vec<RunMeta> = picked.iter().map(|run| known(run.id)).collect();
    assert!(select_runs(listed(), &present, true, None, false).unwrap().is_empty());
}

#[test]
fn only_daily_selection_looks_at_starts() {
    let runs = || vec![at(1, "soon")];
    assert_eq!(numbers(&select_runs(runs(), &vec![], false, None, false).unwrap()), [1]);
    assert_eq!(select_runs(runs(), &vec![], true, None, false).err().unwrap().date, "soon");
}

#[test]
fn cache_is_used_where_it_is_there() {
    assert!(uses_cache(Source::Auto, true));
    assert!(uses_cache(Source::Cache, true));
    assert!(!uses_cache(Source::Summary, true));
    assert!(!uses_cache(Source::Auto, false));
}

#[test]
fn decisions_are_tallied() {
    let mut tally = Tally::new();
    match tally.decide(Some(one_test("css/a")), Source::Cache) {
        Decision::Score(results) => assert_eq!(results.tests[0].path, "css/a"),
        _ => panic!("not scored"),
    }
    assert!(matches!(tally.decide(None, Source::Cache), Decision::Skip));
    assert!(matches!(tally.decide(None, Source::Auto), Decision::Fetch));
    assert!(matches!(tally.decide(None, Source::Summary), Decision::Fetch));
    assert_eq!(tally, Tally { from_cache: 1, from_summary: 2, skipped: 1 });
}

#[test]
fn results_are_restricted_to_subtrees() {
    let mut results = one_test("css/a.html");
    results.tests.extend(one_test("css-x/b.html").tests);
    results.tests.extend(one_test("css/d/c.html").tests);
    let kept = restrict(results, "/css/");
    let paths: Vec<&str> = kept.tests.iter().map(|t| t.path.as_str()).collect();
    assert_eq!(paths, ["css/a.html", "css/d/c.html"]);
}

#[test]
fn fetched_summaries_are_restricted() {
    let summary = || {
        SummaryFile::V1(vec![
            ("/css/a.html".to_string(), [1, 2]),
            ("/html/b.html".to_string(), [2, 2]),
        ])
    };
    assert_eq!(fetched_results(summary(), None).tests.len(), 2);
    let kept = fetched_results(summary(), Some("html"));
    assert_eq!(kept.tests.len(), 1);
    assert_eq!(kept.tests[0].path, "html/b.html");
    assert!(kept.tests[0].passes);
}

#[test]
fn progress_is_reported_every_fifty_runs() {
    assert!(!reports_progress(1));
    assert!(!reports_progress(49));
    assert!(reports_progress(50));
    assert!(reports_progress(100));
}
