use std::io::Write;

use browser_wpt_results::time::{parse_date, utc_date, Timestamp};
use browser_wpt_results::wptfyi::{fetch_summary, list_runs, maybe_gunzip, strip_leading_slash};
use browser_wpt_results::wptfyi::{read_v1_summary, SummaryError};
use browser_wpt_results::wptfyi::{Run, RunQuery, SummaryFile, SummaryV2Entry};

fn entity(id: u64, time_start: &str) -> Run {
    Run {
        id,
        browser_version: "1.0".to_string(),
        full_revision_hash: "0123456789".to_string(),
        results_url: "https://storage.googleapis.com/x-summary_v2.json.gz".to_string(),
        time_start: time_start.to_string(),
    }
}

fn found(runs: &[Run]) -> Vec<u64> {
    runs.iter().map(|run| run.id).collect()
}

#[test]
fn queries_have_urls() {
    let labels = ["master".to_string(), "experimental".to_string()];
    let query = RunQuery {
        product: "chrome",
        labels: &labels,
        from: Some("2026-09-01T00:00:00Z"),
        to: Some("2026-10-01T00:00:00Z"),
    };
    let listing = list_runs(&query).unwrap();
    assert_eq!(
        listing.request.as_deref(),
        Some(
            "https://wpt.fyi/api/runs?product=chrome&max-count=500&labels=master,experimental\
             &from=2026-09-01T00:00:00Z&to=2026-10-01T00:00:00Z"
        )
    );
    let query = RunQuery { product: "servo", labels: &[], from: None, to: None };
    assert_eq!(
        list_runs(&query).unwrap().request.as_deref(),
        Some("https://wpt.fyi/api/runs?product=servo&max-count=500")
    );
}

#[test]
fn unreadable_bounds_are_refused() {
    let query = RunQuery { product: "servo", labels: &[], from: Some("then"), to: Some("now") };
    assert_eq!(list_runs(&query).err().unwrap().date, "then");
    let query = RunQuery { product: "servo", labels: &[], from: None, to: Some("now") };
    assert_eq!(list_runs(&query).err().unwrap().date, "now");
}

#[test]
fn pages_are_followed_back_to_the_window() {
    let query = RunQuery {
        product: "servo",
        labels: &[],
        from: Some("2026-09-02T00:00:00Z"),
        to: Some("2026-09-04T00:00:00Z"),
    };
    let mut listing = list_runs(&query).unwrap();
    listing
        .receive(
            vec![entity(6, "2026-09-04T00:00:00Z"), entity(5, "2026-09-03T00:00:00Z")],
            Some("token".to_string()),
        )
        .unwrap();
    assert_eq!(listing.request.as_deref(), Some("https://wpt.fyi/api/runs?page=token"));
    listing
        .receive(
            vec![
                entity(2, "2026-09-02T00:00:00Z"),
                entity(3, "2026-09-02T12:00:00Z"),
                entity(1, "2026-09-01T23:59:59Z"),
            ],
            Some("more".to_string()),
        )
        .unwrap();
    assert_eq!(listing.request, None);
    assert_eq!(found(&listing.finish().unwrap()), [5, 3, 2]);
}

#[test]
fn listings_end_without_a_next_page() {
    let query = RunQuery { product: "servo", labels: &[], from: None, to: None };
    let mut listing = list_runs(&query).unwrap();
    listing.receive(vec![entity(1, "2026-09-01T00:00:00Z")], None).unwrap();
    assert_eq!(listing.request, None);
    assert_eq!(found(&listing.finish().unwrap()), [1]);
    let mut listing = list_runs(&query).unwrap();
    listing.not_found();
    assert_eq!(listing.request, None);
    assert!(listing.finish().unwrap().is_empty());
}

#[test]
fn runs_that_started_together_stay_in_order() {
    let query = RunQuery { product: "servo", labels: &[], from: None, to: None };
    let mut listing = list_runs(&query).unwrap();
    let page = vec![
        entity(1, "2026-09-01T00:00:00Z"),
        entity(2, "2026-09-02T00:00:00Z"),
        entity(3, "2026-09-01T01:00:00+01:00"),
    ];
    listing.receive(page, None).unwrap();
    assert_eq!(found(&listing.finish().unwrap()), [2, 1, 3]);
}

#[test]
fn listed_runs_need_starts() {
    let query = RunQuery {
        product: "servo",
        labels: &[],
        from: Some("2026-09-02T00:00:00Z"),
        to: None,
    };
    let mut listing = list_runs(&query).unwrap();
    assert_eq!(listing.receive(vec![entity(1, "soon")], None).err().unwrap().date, "soon");
    assert!(listing.runs.is_empty());
    // Once a page has gone back far enough, the rest of it is not looked at.
    listing
        .receive(vec![entity(2, "2026-09-01T00:00:00Z"), entity(1, "soon")], None)
        .unwrap();
    assert_eq!(listing.finish().err().unwrap().date, "soon");
}

#[test]
fn dates_are_read_and_written() {
    let t = parse_date("1970-01-02T00:00:01.5Z").unwrap();
    assert_eq!(t, Timestamp { seconds: 86_401, nanos: 500_000_000 });
    assert_eq!(t.utc_day(), 1);
    assert_eq!(utc_date("2026-09-01T02:38:38.999+02:00").unwrap(), "2026-09-01T00:38:38Z");
    assert_eq!(utc_date("2016-12-31T23:59:60Z").unwrap(), "2016-12-31T23:59:60Z");
    assert_eq!(entity(1, "1970-01-01T00:00:00Z").start().unwrap().seconds, 0);
    let e = parse_date("2026-09-01").err().unwrap();
    assert_eq!(e.date, "2026-09-01");
    assert!(!e.reason.is_empty());
}

#[test]
fn gzip_data_is_decompressed() {
    let mut encoder = flate2::write::GzEncoder::new(Vec::new(), flate2::Compression::default());
    encoder.write_all(b"{\"/a/b\":[1,2]}").unwrap();
    let packed = encoder.finish().unwrap();
    assert_eq!(maybe_gunzip(packed).unwrap(), b"{\"/a/b\":[1,2]}");
    assert_eq!(maybe_gunzip(b"{}".to_vec()).unwrap(), b"{}");
    assert_eq!(maybe_gunzip(vec![]).unwrap(), b"");
    assert_eq!(maybe_gunzip(vec![0x1f]).unwrap(), [0x1f]);
    assert!(maybe_gunzip(vec![0x1f, 0x8b, 0x00]).is_err());
}

#[test]
fn formats_are_told_apart() {
    assert!(entity(1, "").has_v2_summary());
    let mut old = entity(1, "");
    old.results_url = "https://storage.googleapis.com/x-summary.json.gz".to_string();
    assert!(!old.has_v2_summary());
}

#[test]
fn leading_slashes_are_stripped() {
    assert_eq!(strip_leading_slash("/css/a.html".to_string()), "css/a.html");
    assert_eq!(strip_leading_slash("css/a.html".to_string()), "css/a.html");
    assert_eq!(strip_leading_slash("//a".to_string()), "/a");
    assert_eq!(strip_leading_slash(String::new()), "");
}

#[test]
fn v1_summaries_are_scored_as_they_are() {
    let results = fetch_summary(SummaryFile::V1(vec![
        ("/a/b".to_string(), [2, 2]),
        ("/a/c".to_string(), [1, 2]),
        ("/a/d".to_string(), [0, 0]),
    ]));
    let told: Vec<(&str, bool, u32, u32)> = results
        .tests
        .iter()
        .map(|t| (t.path.as_str(), t.passes, t.subtests.pass, t.subtests.total))
        .collect();
    assert_eq!(told, [("a/b", true, 2, 2), ("a/c", false, 1, 2), ("a/d", true, 0, 0)]);
}

#[test]
fn v2_summaries_have_statuses() {
    let entry = |path: &str, s: &str, c| (path.to_string(), SummaryV2Entry { s: s.to_string(), c });
    let results = fetch_summary(SummaryFile::V2(vec![
        entry("/a/b", "O", [2, 2]),
        entry("/a/c", "P", [0, 0]),
        entry("/a/d", "S", [0, 0]),
        entry("/a/e", "F", [0, 0]),
    ]));
    let told: Vec<(&str, bool, u32, u32)> = results
        .tests
        .iter()
        .map(|t| (t.path.as_str(), t.passes, t.subtests.pass, t.subtests.total))
        .collect();
    assert_eq!(told, [("a/b", false, 2, 2), ("a/c", true, 0, 0), ("a/e", false, 0, 0)]);
}

#[test]
fn v1_files_are_read() {
    let body = b"{\"/a/b\":[1,2],\"/c\":[3,4],\"/a/b\":[5,6]}";
    let mut encoder = flate2::write::GzEncoder::new(Vec::new(), flate2::Compression::default());
    encoder.write_all(body).unwrap();
    let packed = encoder.finish().unwrap();
    for body in [body.to_vec(), packed] {
        let summary = read_v1_summary(body).ok().unwrap();
        let mut results = fetch_summary(summary).tests;
        results.sort_by(|a, b| a.path.cmp(&b.path));
        let told: Vec<(&str, u32, u32)> = results
            .iter()
            .map(|t| (t.path.as_str(), t.subtests.pass, t.subtests.total))
            .collect();
        assert_eq!(told, [("a/b", 5, 6), ("c", 3, 4)]);
    }
}

#[test]
fn bad_v1_files_are_refused() {
    assert!(matches!(read_v1_summary(b"{\"a\":[1]}".to_vec()), Err(SummaryError::Json(_))));
    assert!(matches!(read_v1_summary(b"[]".to_vec()), Err(SummaryError::Json(_))));
    assert!(matches!(read_v1_summary(vec![0x1f, 0x8b]), Err(SummaryError::Gzip(_))));
}

#[test]
fn order_of_v2_entries_does_not_matter() {
    let entry = |path: &str, s: &str, c| (path.to_string(), SummaryV2Entry { s: s.to_string(), c });
    let read = |backwards: bool| {
        let mut entries =
            vec![entry("/a", "O", [1, 2]), entry("/b", "S", [0, 0]), entry("/c", "P", [0, 0])];
        if backwards {
            entries.reverse();
        }
        let mut told: Vec<(String, bool, u32, u32)> = fetch_summary(SummaryFile::V2(entries))
            .tests
            .into_iter()
            .map(|t| (t.path, t.passes, t.subtests.pass, t.subtests.total))
            .collect();
        told.sort();
        told
    };
    assert_eq!(read(false), read(true));
    assert_eq!(read(true).len(), 2);
}
