use browser_wpt_results::area_map::AreaMap;
use browser_wpt_results::files::{area_name, area_path, area_prefix, load_area_file, path_below};
use browser_wpt_results::files::{write_json_lines, AreaFile, FileContent};
use browser_wpt_results::files::{RUNS_HEADER, SCORES_HEADER};
use browser_wpt_results::summary::{RunMeta, Score, ScoredRun, SummaryStore, TOTAL_AREA};

fn some_run(id: u64, date: &str, areas: &[&str]) -> ScoredRun {
    let mut scores = AreaMap::new();
    for area in areas {
        scores.insert(area.to_string(), (1, Score { bits: 0 }, 2, id as u32));
    }
    ScoredRun {
        meta: RunMeta {
            date: date.to_string(),
            wpt_revision: "3e1155aec".to_string(),
            product_revision: "154".to_string(),
            commit_message: None,
            run_id: Some(id),
        },
        scores,
    }
}

fn stored() -> SummaryStore {
    let mut store = SummaryStore::new();
    store.append(
        vec![
            some_run(1, "2026-09-01", &["css", "css/css-flexbox", TOTAL_AREA]),
            some_run(2, "2026-09-02", &["css", "html"]),
        ],
        false,
    );
    store
}

#[test]
fn areas_have_their_paths() {
    assert_eq!(area_path("summary/chrome", ""), "summary/chrome/total.json");
    assert_eq!(area_path("summary/chrome", "css"), "summary/chrome/areas/css.json");
    assert_eq!(
        area_path("summary/chrome/", "css/css-flexbox"),
        "summary/chrome/areas/css/css-flexbox.json"
    );
    assert_eq!(area_path("", "total"), "areas/total.json");
    assert_eq!(area_path("", "runs"), "areas/runs.json");
    assert_eq!(path_below("summary", "chrome"), "summary/chrome");
    assert_eq!(path_below("summary", "/chrome"), "/chrome");
}

#[test]
fn files_have_their_areas() {
    assert_eq!(area_name("", "css.json").as_deref(), Some("css"));
    assert_eq!(area_name("css/", "css-flexbox.json").as_deref(), Some("css/css-flexbox"));
    assert_eq!(area_name("", "a.b.json").as_deref(), Some("a.b"));
    assert_eq!(area_name("", "css.txt"), None);
    assert_eq!(area_name("", "json"), None);
    assert_eq!(area_name("", ".json"), None);
    assert_eq!(area_name("", "css.JSON"), None);
    let prefix = area_prefix(&area_prefix("", "css"), "css-flexbox");
    assert_eq!(prefix, "css/css-flexbox/");
    assert_eq!(
        area_name(&prefix, "alignment.json").as_deref(),
        Some("css/css-flexbox/alignment")
    );
}

#[test]
fn datasets_have_one_file_per_area() {
    let store = stored();
    let files = store.write("out");
    let paths: Vec<&str> = files.iter().map(|file| file.path.as_str()).collect();
    assert_eq!(
        paths,
        [
            "out/runs.json",
            "out/total.json",
            "out/areas/css.json",
            "out/areas/css/css-flexbox.json",
            "out/areas/html.json",
        ]
    );
    assert!(matches!(files[0].content, FileContent::Runs));
    assert_eq!(files[0].header, RUNS_HEADER);
    for (i, file) in files[1..].iter().enumerate() {
        assert_eq!(file.header, SCORES_HEADER);
        match file.content {
            FileContent::Area(at) => assert_eq!(at, i),
            FileContent::Runs => panic!("runs"),
        }
    }
}

#[test]
fn written_datasets_are_loaded_again() {
    let store = stored();
    let again = stored();
    let mut files: Vec<(String, AreaFile)> = Vec::new();
    let mut total = None;
    for (name, row) in again.areas.names.into_iter().zip(again.areas.values) {
        if name == TOTAL_AREA {
            total = Some(AreaFile { scores: row });
        } else {
            files.push((name, AreaFile { scores: row }));
        }
    }
    files.reverse();
    let loaded = SummaryStore::load(again.runs, files, total).unwrap();
    assert_eq!(loaded.areas.names, store.areas.names);
    for name in &store.areas.names {
        assert_eq!(loaded.areas.get(name), store.areas.get(name));
    }
    assert_eq!(loaded.runs.len(), 2);
    assert_eq!(loaded.runs[1].run_id, Some(2));
}

#[test]
fn misaligned_files_are_refused() {
    let file = |n: usize| AreaFile { scores: vec![None; n] };
    let runs = || stored().runs;
    let e = SummaryStore::load(
        runs(),
        vec![("css".to_string(), file(2)), ("html".to_string(), file(3))],
        Some(file(1)),
    )
    .err()
    .unwrap();
    assert_eq!(e.message(), "area file html is misaligned with runs.json");
    let e = SummaryStore::load(runs(), vec![("css".to_string(), file(2))], Some(file(1)))
        .err()
        .unwrap();
    assert_eq!(e.message(), "area file total is misaligned with runs.json");
    assert!(load_area_file("css", file(0), 0).is_ok());
    assert_eq!(load_area_file("css", file(0), 1).err().unwrap().name, "css");
}

#[test]
fn files_have_one_line_per_run() {
    let line = |s: &str| s.to_string();
    assert_eq!(
        write_json_lines(RUNS_HEADER, &vec![line("{\"date\":\"d\"}")]),
        "{\n\"runs\":[\n{\"date\":\"d\"}\n]}\n"
    );
    assert_eq!(
        write_json_lines(
            SCORES_HEADER,
            &vec![line("[23972,8658.8,33098,10907]"), line("null"), line("[1,1.0,1,1]")]
        ),
        "{\n\"scores\":[\n[23972,8658.8,33098,10907],\nnull,\n[1,1.0,1,1]\n]}\n"
    );
    assert_eq!(write_json_lines(SCORES_HEADER, &vec![]), "{\n\"scores\":[\n\n]}\n");
}
