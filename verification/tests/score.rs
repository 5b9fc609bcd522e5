use browser_wpt_results::score::{score_run, short_revision, RunResults, ScoreError, TestCounts};
use browser_wpt_results::summary::{Score, ScoredRun, TOTAL_AREA};
use browser_wpt_results::wptfyi::Run;
use wptreport::{AreaScores, ScorableReport, SubtestCounts, TestResultIter};

fn test(path: &str, passes: bool, pass: u32, total: u32) -> TestCounts {
    TestCounts { path: path.to_string(), passes, subtests: SubtestCounts { pass, total } }
}

fn sample() -> RunResults {
    RunResults {
        tests: vec![
            test("css/css-flexbox/a.html", false, 1, 3),
            test("css/css-flexbox/alignment/b.html", true, 0, 0),
            test("css/c.html", false, 0, 0),
            test("html/d.html", false, 4, 4),
            test("top.html", true, 0, 0),
        ],
    }
}

fn run() -> Run {
    Run {
        id: 5138501145460736,
        browser_version: "154.0.8035.0".to_string(),
        full_revision_hash: "3e1155aec0123456789".to_string(),
        results_url: String::new(),
        time_start: "2026-09-01T02:38:38.75+02:00".to_string(),
    }
}

fn rounded(scores: &AreaScores) -> Score {
    let score: f64 = (scores.servo_score() * 10.0).round() / 10.0;
    Score { bits: score.to_bits() }
}

fn value(scored: &ScoredRun, area: &str) -> Option<(u32, f64, u32, u32)> {
    scored.scores.get(area).map(|t| (t.0, f64::from_bits(t.1.bits), t.2, t.3))
}

#[test]
fn areas_are_scored() {
    let scored = score_run(&run(), &sample(), false, rounded).unwrap();
    assert_eq!(scored.scores.names, ["css", "css/css-flexbox", "css/css-flexbox/alignment", "html"]);
    assert_eq!(value(&scored, "css"), Some((3, 1.3, 5, 2)));
    assert_eq!(value(&scored, "css/css-flexbox"), Some((2, 1.3, 4, 2)));
    assert_eq!(value(&scored, "css/css-flexbox/alignment"), Some((1, 1.0, 1, 1)));
    assert_eq!(value(&scored, "html"), Some((1, 1.0, 4, 4)));
    assert_eq!(value(&scored, TOTAL_AREA), None);
}

#[test]
fn total_sums_the_top_level_areas() {
    let scored = score_run(&run(), &sample(), true, rounded).unwrap();
    assert_eq!(scored.scores.len(), 5);
    assert_eq!(value(&scored, TOTAL_AREA), Some((4, 2.3, 9, 6)));
    let css = value(&scored, "css").unwrap();
    let html = value(&scored, "html").unwrap();
    assert_eq!((css.0 + html.0, css.2 + html.2, css.3 + html.3), (4, 9, 6));
}

#[test]
fn nothing_to_score_has_an_empty_total() {
    let results = RunResults { tests: vec![test("top.html", true, 0, 0)] };
    let scored = score_run(&run(), &results, true, rounded).unwrap();
    assert_eq!(value(&scored, TOTAL_AREA), Some((0, 0.0, 0, 0)));
    assert_eq!(scored.scores.len(), 1);
    let scored = score_run(&run(), &results, false, rounded).unwrap();
    assert_eq!(scored.scores.len(), 0);
}

#[test]
fn metadata_is_taken_from_the_run() {
    let meta = score_run(&run(), &sample(), false, rounded).unwrap().meta;
    assert_eq!(meta.date, "2026-09-01T00:38:38Z");
    assert_eq!(meta.wpt_revision, "3e1155aec");
    assert_eq!(meta.product_revision, "154.0.8035.0");
    assert_eq!(meta.commit_message, None);
    assert_eq!(meta.run_id, Some(5138501145460736));
}

#[test]
fn runs_that_cannot_be_scored() {
    let mut late = run();
    late.time_start = "yesterday".to_string();
    match score_run(&late, &sample(), true, rounded) {
        Err(ScoreError::Date(e)) => {
            assert_eq!(e.date, "yesterday");
            assert!(!e.reason.is_empty());
        }
        _ => panic!("scored"),
    }
    let mut short = run();
    short.full_revision_hash = "12345678".to_string();
    assert!(matches!(
        score_run(&short, &sample(), true, rounded),
        Err(ScoreError::Revision)
    ));
    let many = RunResults {
        tests: vec![test("a/b", false, 0, u32::MAX), test("c/d", false, 0, 1)],
    };
    assert!(matches!(score_run(&run(), &many, true, rounded), Err(ScoreError::Overflow)));
    // Each area fits, and there is no total to fit.
    let scored = score_run(&run(), &many, false, rounded).unwrap();
    assert_eq!(value(&scored, "a"), Some((1, 0.0, u32::MAX, 0)));
    assert_eq!(value(&scored, "c"), Some((1, 0.0, 1, 0)));
    let nested = RunResults {
        tests: vec![test("a/b/x", false, 0, u32::MAX), test("a/c/y", false, 0, 1)],
    };
    assert!(matches!(score_run(&run(), &nested, false, rounded), Err(ScoreError::Overflow)));
    let full = RunResults { tests: vec![test("a/b", false, 0, u32::MAX), test("d", false, 0, 1)] };
    assert!(score_run(&run(), &full, true, rounded).is_ok());
}

#[test]
fn revisions_are_cut_at_nine_bytes() {
    assert_eq!(short_revision("3e1155aec9").as_deref(), Some("3e1155aec"));
    assert_eq!(short_revision("123456789").as_deref(), Some("123456789"));
    assert_eq!(short_revision("12345678"), None);
    assert_eq!(short_revision("12345678ä"), None);
    assert_eq!(short_revision("1234567ä9").as_deref(), Some("1234567ä"));
}

#[test]
fn tests_without_subtests_count_as_one() {
    let passed = test("a/b", true, 0, 0);
    let failed = test("a/b", false, 0, 0);
    let some = test("a/b", true, 2, 3);
    let counts = |t: &TestCounts| {
        let c = t.subtest_counts();
        (c.pass, c.total)
    };
    assert_eq!(counts(&passed), (1, 1));
    assert_eq!(counts(&failed), (0, 1));
    assert_eq!(counts(&some), (2, 3));
    assert_eq!((&some).name(), "a/b");
    assert!(!(&some).subtest_exist_and_passes("x"));
    assert_eq!((&some).iter_subtests_results().count(), 0);
}

#[test]
fn tests_outside_directories_are_left_out() {
    let results = sample();
    let names: Vec<&str> = results.results().map(|t| t.path.as_str()).collect();
    assert_eq!(names.len(), 4);
    assert!(!names.contains(&"top.html"));
}

#[test]
fn order_of_tests_does_not_change_counts() {
    let mut tests = sample().tests;
    tests.reverse();
    let a = score_run(&run(), &sample(), true, rounded).unwrap();
    let b = score_run(&run(), &RunResults { tests }, true, rounded).unwrap();
    assert_eq!(a.scores.names, b.scores.names);
    for area in &a.scores.names {
        let (x, y) = (value(&a, area).unwrap(), value(&b, area).unwrap());
        assert_eq!((x.0, x.2, x.3), (y.0, y.2, y.3));
    }
}

#[test]
fn outer_areas_count_at_least_as_much() {
    let scored = score_run(&run(), &sample(), false, rounded).unwrap();
    let inner = value(&scored, "css/css-flexbox/alignment").unwrap();
    let outer = value(&scored, "css/css-flexbox").unwrap();
    assert!(inner.0 <= outer.0 && inner.2 <= outer.2 && inner.3 <= outer.3);
    assert!(outer.3 <= outer.2 && outer.0 <= outer.2);
}

#[test]
fn scores_read_paths_and_counts_alone() {
    let a = RunResults {
        tests: vec![test("css/a", true, 1, 3), test("css/b/c", true, 0, 0), test("d", true, 0, 0)],
    };
    let b = RunResults {
        tests: vec![test("e", false, 2, 9), test("css/a", false, 1, 3), test("css/b/c", false, 1, 1)],
    };
    for whole_tree in [false, true] {
        let x = score_run(&run(), &a, whole_tree, rounded).unwrap();
        let y = score_run(&run(), &b, whole_tree, rounded).unwrap();
        assert_eq!(x.scores.names, y.scores.names);
        assert_eq!(x.scores.values, y.scores.values);
        assert_eq!(x.meta.date, y.meta.date);
        assert_eq!(x.meta.wpt_revision, y.meta.wpt_revision);
        assert_eq!(x.meta.product_revision, y.meta.product_revision);
        assert_eq!(x.meta.run_id, y.meta.run_id);
    }
}
