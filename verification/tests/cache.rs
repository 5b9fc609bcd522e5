use browser_wpt_results::cache::{path_prefix, read_run, tag_name, test_path};
use browser_wpt_results::cache::{CachedBlob, CachedSubtest, CachedTest};
use browser_wpt_results::process::restrict;
use browser_wpt_results::score::{score_run, RunResults};
use browser_wpt_results::summary::Score;
use browser_wpt_results::wptfyi::{fetch_summary, Run, SummaryFile, SummaryV2Entry};
use wptreport::AreaScores;

fn blob(filepath: &str, status: &str, subtests: &[&str]) -> CachedBlob {
    CachedBlob {
        filepath: filepath.as_bytes().to_vec(),
        test: CachedTest {
            status: status.to_string(),
            subtests: subtests.iter().map(|s| CachedSubtest { status: s.to_string() }).collect(),
        },
    }
}

fn told(results: &RunResults) -> Vec<(String, bool, u32, u32)> {
    results
        .tests
        .iter()
        .map(|t| (t.path.clone(), t.passes, t.subtests.pass, t.subtests.total))
        .collect()
}

#[test]
fn tags_hold_the_run_id() {
    assert_eq!(tag_name(5138501145460736), "refs/tags/run/5138501145460736/results");
    assert_eq!(tag_name(0), "refs/tags/run/0/results");
    assert_eq!(tag_name(u64::MAX), "refs/tags/run/18446744073709551615/results");
    assert_ne!(tag_name(1), tag_name(11));
}

#[test]
fn blob_paths_become_test_paths() {
    let path = |prefix, file: &str| test_path(prefix, file.as_bytes()).unwrap();
    assert_eq!(
        path("", "css/css-flexbox/foo.html%3Fa%3Db.json"),
        "css/css-flexbox/foo.html?a=b"
    );
    assert_eq!(path("css/", "css-flexbox/foo.html.json"), "css/css-flexbox/foo.html");
    assert_eq!(path("css/", "foo.html.json"), "css/foo.html");
    assert_eq!(path("", "foo.html"), "foo.html");
    assert_eq!(path("", "a/.json"), "a/");
    assert_eq!(path("", "a/b.json.json"), "a/b.json");
    // Only the name of the file is encoded.
    assert_eq!(path("", "a%20b/c%20d.json"), "a%20b/c d");
    // Encoding may be in either case, and need not be there.
    assert_eq!(path("", "d/%c3%A4%2F.json"), "d/ä/");
    assert_eq!(path("", "d/100%.json"), "d/100%");
    assert_eq!(path("", "d/%zz%4.json"), "d/%zz%4");
    // What is not UTF-8 once decoded is replaced.
    assert_eq!(path("", "d/%ffx.json"), "d/\u{fffd}x");
}

#[test]
fn paths_that_are_not_utf8_are_refused() {
    assert_eq!(test_path("", &[0x61, 0xff]), None);
    let mut bad = blob("", "PASS", &[]);
    bad.filepath = vec![0x61, 0xff];
    match read_run(None, vec![blob("a/b.json", "OK", &[]), bad]) {
        Err(e) => assert_eq!(e.filepath, [0x61, 0xff]),
        Ok(_) => panic!("read"),
    }
    // A skipped test's path is not looked at.
    let mut skipped = blob("", "SKIP", &[]);
    skipped.filepath = vec![0xff];
    assert!(matches!(read_run(None, vec![skipped]), Ok(None)));
}

#[test]
fn blobs_become_tests() {
    let blobs = vec![
        blob("css/a.html.json", "OK", &["PASS", "FAIL", "PASS"]),
        blob("css/b.html.json", "SKIP", &[]),
        blob("css/c.html.json", "PASS", &[]),
        blob("d.html.json", "FAIL", &[]),
    ];
    let results = read_run(None, blobs).unwrap().unwrap();
    assert_eq!(
        told(&results),
        [
            ("css/a.html".to_string(), false, 2, 3),
            ("css/c.html".to_string(), true, 0, 0),
            ("d.html".to_string(), false, 0, 0),
        ]
    );
}

#[test]
fn runs_without_tests_are_not_cached() {
    assert!(read_run(None, vec![]).unwrap().is_none());
    assert!(read_run(None, vec![blob("a/b.json", "SKIP", &["PASS"])]).unwrap().is_none());
}

#[test]
fn subtrees_keep_their_paths() {
    assert_eq!(path_prefix("/css/css-flexbox//"), "css/css-flexbox/");
    let whole = vec![
        blob("css/a.html.json", "PASS", &[]),
        blob("css/d/b%3Fx.json", "OK", &["PASS"]),
    ];
    let part = vec![blob("a.html.json", "PASS", &[]), blob("d/b%3Fx.json", "OK", &["PASS"])];
    let a = read_run(None, whole).unwrap().unwrap();
    let b = read_run(Some("css/"), part).unwrap().unwrap();
    assert_eq!(told(&a), told(&b));
    assert_eq!(told(&b)[1].0, "css/d/b?x");
}

#[test]
fn both_sources_give_the_same_tests() {
    let entry = |path: &str, s: &str, c| (path.to_string(), SummaryV2Entry { s: s.to_string(), c });
    let summary = SummaryFile::V2(vec![
        entry("/css/a.html?x", "O", [1, 2]),
        entry("/css/b.html", "S", [0, 0]),
        entry("/css/c.html", "P", [0, 0]),
    ]);
    let blobs = vec![
        blob("css/a.html%3Fx.json", "OK", &["PASS", "TIMEOUT"]),
        blob("css/b.html.json", "SKIP", &[]),
        blob("css/c.html.json", "PASS", &[]),
    ];
    let cached = read_run(None, blobs).unwrap().unwrap();
    assert_eq!(told(&fetch_summary(summary)), told(&cached));
    assert_eq!(told(&cached).len(), 2);
}

#[test]
fn subtree_results_are_those_of_the_whole_run() {
    let whole = || {
        vec![
            blob("a.html.json", "PASS", &[]),
            blob("css/b.html.json", "OK", &["PASS", "FAIL"]),
            blob("css/c.html.json", "SKIP", &[]),
            blob("css-x/d.html.json", "PASS", &[]),
            blob("css/e/f%3Fg.json", "FAIL", &[]),
            blob("html/css/h.html.json", "PASS", &[]),
        ]
    };
    let part = vec![
        blob("b.html.json", "OK", &["PASS", "FAIL"]),
        blob("c.html.json", "SKIP", &[]),
        blob("e/f%3Fg.json", "FAIL", &[]),
    ];
    let all = read_run(None, whole()).unwrap().unwrap();
    let some = read_run(Some("css"), part).unwrap().unwrap();
    assert_eq!(told(&some), told(&restrict(all, "css")));
    assert_eq!(told(&some).len(), 2);
    // A subtree whose tests were all skipped has no results, nor has the whole run there.
    assert!(read_run(Some("svg"), vec![blob("i.html.json", "SKIP", &[])]).unwrap().is_none());
    let all = read_run(None, whole()).unwrap().unwrap();
    assert!(restrict(all, "svg").tests.is_empty());
}

#[test]
fn both_sources_score_alike() {
    let entry = |path: &str, s: &str, c| (path.to_string(), SummaryV2Entry { s: s.to_string(), c });
    let summary = SummaryFile::V2(vec![
        entry("/css/c.html", "P", [0, 0]),
        entry("/css/d/a.html?x", "O", [1, 2]),
        entry("/css/b.html", "S", [0, 0]),
    ]);
    let blobs = vec![
        blob("css/d/a.html%3Fx.json", "OK", &["PASS", "TIMEOUT"]),
        blob("css/b.html.json", "SKIP", &[]),
        blob("css/c.html.json", "PASS", &[]),
    ];
    let run = Run {
        id: 1,
        browser_version: "1.0".to_string(),
        full_revision_hash: "0123456789".to_string(),
        results_url: String::new(),
        time_start: "2026-09-01T00:00:00Z".to_string(),
    };
    let score = |results: &RunResults| {
        score_run(&run, results, true, |_: &AreaScores| Score { bits: 0 }).unwrap().scores
    };
    let a = score(&fetch_summary(summary));
    let b = score(&read_run(None, blobs).unwrap().unwrap());
    assert_eq!(a.names, ["", "css", "css/d"]);
    assert_eq!(a.names, b.names);
    assert_eq!(a.values, b.values);
    assert_eq!(a.values[1], (2, Score { bits: 0 }, 3, 2));
}
