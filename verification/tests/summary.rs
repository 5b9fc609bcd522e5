use browser_wpt_results::area_map::AreaMap;
use browser_wpt_results::summary::{RunMeta, Score, ScoreTuple, ScoredRun, SummaryStore};
use browser_wpt_results::summary::TOTAL_AREA;

fn meta(id: Option<u64>, date: &str, revision: &str) -> RunMeta {
    RunMeta {
        date: date.to_string(),
        wpt_revision: "3e1155aec".to_string(),
        product_revision: revision.to_string(),
        commit_message: None,
        run_id: id,
    }
}

fn tuple(n: u32) -> ScoreTuple {
    (n, Score { bits: (n as f64).to_bits() }, n, n)
}

fn scored(id: u64, date: &str, areas: &[(&str, u32)]) -> ScoredRun {
    let mut scores = AreaMap::new();
    for (area, n) in areas {
        scores.insert(area.to_string(), tuple(*n));
    }
    ScoredRun { meta: meta(Some(id), date, "1.0"), scores }
}

fn row(store: &SummaryStore, area: &str) -> Option<Vec<Option<u32>>> {
    store.areas.get(area).map(|row| row.iter().map(|e| e.map(|t| t.0)).collect())
}

fn ids(store: &SummaryStore) -> Vec<u64> {
    store.runs.iter().map(|run| run.run_id.unwrap()).collect()
}

#[test]
fn keys_tell_runs_apart() {
    assert_eq!(meta(Some(12), "d", "v").dedup_key(), "run:12");
    assert_eq!(meta(None, "d", "v").dedup_key(), "v");
    assert_ne!(meta(Some(1), "d", "v").dedup_key(), meta(Some(2), "d", "v").dedup_key());
    assert_eq!(meta(Some(1), "d", "v").dedup_key(), meta(Some(1), "e", "w").dedup_key());
}

#[test]
fn appended_runs_are_sorted_and_aligned() {
    let mut store = SummaryStore::new();
    store.append(
        vec![
            scored(2, "2026-09-02T00:00:00Z", &[("css", 20), ("html", 21)]),
            scored(1, "2026-09-01T00:00:00Z", &[("css", 10), ("dom", 11)]),
        ],
        false,
    );
    assert_eq!(ids(&store), [1, 2]);
    assert_eq!(store.areas.names, ["css", "dom", "html"]);
    assert_eq!(row(&store, "css"), Some(vec![Some(10), Some(20)]));
    assert_eq!(row(&store, "dom"), Some(vec![Some(11), None]));
    assert_eq!(row(&store, "html"), Some(vec![None, Some(21)]));
    assert_eq!(row(&store, "svg"), None);
}

#[test]
fn ties_are_broken_by_product_revision() {
    let mut store = SummaryStore::new();
    let run = |id, revision: &str| ScoredRun {
        meta: meta(Some(id), "2026-09-01T00:00:00Z", revision),
        scores: AreaMap::new(),
    };
    store.append(vec![run(1, "9"), run(2, "10"), run(3, "10"), run(4, "1")], false);
    // As text, and stably.
    assert_eq!(ids(&store), [4, 2, 3, 1]);
}

#[test]
fn present_runs_are_skipped() {
    let mut store = SummaryStore::new();
    store.append(vec![scored(1, "2026-09-01", &[("css", 1)])], false);
    store.append(
        vec![scored(1, "2026-09-05", &[("html", 2)]), scored(2, "2026-08-31", &[("css", 3)])],
        false,
    );
    assert_eq!(ids(&store), [2, 1]);
    assert_eq!(store.runs[1].date, "2026-09-01");
    assert_eq!(row(&store, "css"), Some(vec![Some(3), Some(1)]));
    assert_eq!(row(&store, "html"), None);
}

#[test]
fn present_runs_are_replaced() {
    let mut store = SummaryStore::new();
    store.append(
        vec![
            scored(1, "2026-09-01", &[("css", 1), ("dom", 2)]),
            scored(2, "2026-09-02", &[("css", 3)]),
        ],
        false,
    );
    store.append(vec![scored(1, "2026-09-03", &[("css", 7), ("html", 8)])], true);
    assert_eq!(ids(&store), [2, 1]);
    assert_eq!(row(&store, "css"), Some(vec![Some(3), Some(7)]));
    assert_eq!(row(&store, "dom"), Some(vec![None, None]));
    assert_eq!(row(&store, "html"), Some(vec![None, Some(8)]));
    assert_eq!(store.runs[1].date, "2026-09-03");
}

#[test]
fn of_new_runs_with_one_key_the_first_or_last_counts() {
    let runs = || {
        vec![
            scored(1, "2026-09-01", &[("css", 1)]),
            scored(1, "2026-09-02", &[("css", 2)]),
        ]
    };
    let mut store = SummaryStore::new();
    store.append(runs(), false);
    assert_eq!(row(&store, "css"), Some(vec![Some(1)]));
    let mut store = SummaryStore::new();
    store.append(runs(), true);
    assert_eq!(row(&store, "css"), Some(vec![Some(2)]));
    assert_eq!(store.runs[0].date, "2026-09-02");
}

#[test]
fn appending_twice_changes_nothing() {
    let runs = || {
        vec![
            scored(3, "2026-09-03", &[("css", 3), (TOTAL_AREA, 30)]),
            scored(1, "2026-09-01", &[("css", 1)]),
        ]
    };
    let mut once = SummaryStore::new();
    once.append(runs(), false);
    let mut twice = SummaryStore::new();
    twice.append(runs(), false);
    twice.append(runs(), false);
    assert_eq!(ids(&once), ids(&twice));
    assert_eq!(row(&once, "css"), row(&twice, "css"));
    assert_eq!(row(&twice, TOTAL_AREA), Some(vec![None, Some(30)]));
}

#[test]
fn appending_in_parts_is_appending_at_once() {
    let a = || scored(2, "2026-09-02", &[("css", 2)]);
    let b = || scored(3, "2026-09-02", &[("html", 3)]);
    let c = || scored(1, "2026-09-01", &[("css", 1), ("dom", 4)]);
    let mut parts = SummaryStore::new();
    parts.append(vec![a()], false);
    parts.append(vec![b()], false);
    parts.append(vec![c()], false);
    let mut whole = SummaryStore::new();
    whole.append(vec![a(), b(), c()], false);
    assert_eq!(ids(&parts), [1, 2, 3]);
    assert_eq!(ids(&parts), ids(&whole));
    assert_eq!(parts.areas.names, whole.areas.names);
    for area in ["css", "dom", "html"] {
        assert_eq!(row(&parts, area), row(&whole, area));
    }
}

#[test]
fn runs_without_an_id_go_by_their_revision() {
    let run = |revision: &str, n| {
        let mut scores = AreaMap::new();
        scores.insert("css".to_string(), tuple(n));
        ScoredRun { meta: meta(None, "2026-09-01", revision), scores }
    };
    let mut store = SummaryStore::new();
    store.append(vec![run("a", 1), run("b", 2), run("a", 3)], false);
    assert_eq!(row(&store, "css"), Some(vec![Some(1), Some(2)]));
}

#[test]
fn replacing_twice_changes_nothing() {
    let runs = || {
        vec![
            scored(2, "2026-09-05", &[("css", 7), ("html", 8)]),
            scored(2, "2026-09-01", &[("css", 9)]),
            scored(3, "2026-09-01", &[("dom", 4)]),
        ]
    };
    let start = || {
        let mut store = SummaryStore::new();
        store.append(
            vec![scored(1, "2026-09-02", &[("css", 1)]), scored(2, "2026-09-03", &[("css", 2)])],
            false,
        );
        store
    };
    let mut once = start();
    once.append(runs(), true);
    let mut twice = start();
    twice.append(runs(), true);
    twice.append(runs(), true);
    twice.append(vec![], true);
    assert_eq!(ids(&once), [2, 3, 1]);
    assert_eq!(ids(&once), ids(&twice));
    assert_eq!(once.areas.names, ["css", "dom", "html"]);
    assert_eq!(once.areas.names, twice.areas.names);
    assert_eq!(row(&once, "css"), Some(vec![Some(9), None, Some(1)]));
    assert_eq!(row(&once, "html"), Some(vec![None, None, None]));
    for area in ["css", "dom", "html"] {
        assert_eq!(row(&once, area), row(&twice, area));
    }
}

#[test]
fn appending_joins_the_keys() {
    for replace in [false, true] {
        let mut store = SummaryStore::new();
        store.append(vec![scored(1, "2026-09-01", &[]), scored(2, "2026-09-02", &[])], replace);
        store.append(
            vec![
                scored(2, "2026-09-02", &[]),
                scored(3, "2026-09-03", &[]),
                scored(3, "2026-09-03", &[]),
            ],
            replace,
        );
        assert_eq!(ids(&store), [1, 2, 3]);
    }
}
