# browser-wpt-results

Per-area [Web Platform Tests](https://web-platform-tests.org) score summaries for browsers
(Chrome, Firefox, Safari, Servo, ...) derived from [wpt.fyi](https://wpt.fyi) data: one compact
time series per WPT directory ("area"). The library is written in
[Verus](https://github.com/verus-lang/verus) and proved against its contracts.

| | |
| --- | --- |
| `src/args.rs` | command line arguments |
| `src/wptfyi.rs` | listing runs, reading summary files |
| `src/cache.rs` | reading runs out of results-analysis-cache |
| `src/process.rs` | which runs are scored, and from which source |
| `src/score.rs` | scoring runs over the WPT tree |
| `src/summary.rs` | the dataset: runs, and one row of scores per area |
| `src/store_laws.rs` | what holds of a dataset as runs are appended |
| `src/files.rs` | where a dataset is kept, and how its files are laid out |
| `src/time.rs`, `src/text.rs`, `src/sort.rs`, `src/area_map.rs` | moments, strings, stable sorting, maps |
| `app/` | the program: git, HTTP, JSON, the file system and floating point |

What is believed of other crates (chrono, flate2, percent-encoding, serde_json and wptreport) is
said above each function marked `external_body`. Scores are floating point numbers; the library
carries their bits and leaves the rounding to its caller.

## Data format

One dataset per product:

```text
summary/
  chrome/
    runs.json                 # shared per-run metadata (one entry per run)
    total.json                # scores for the whole run (sum of all top-level areas)
    areas/
      css.json                # scores for the whole "css" suite
      css/
        css-flexbox.json      # scores for "css/css-flexbox"
```

Each area file has one entry per run, index-aligned with `runs.json`: `null` where the area has no
data for that run, or `[total_tests, total_score, total_subtests, total_subtests_passed]`. Runs
are sorted by `(date, product_revision)`. `total.json` is only written when the whole tree was
scored (no `--subtree`). A test without subtests counts as one subtest that passes iff the test
status is `PASS`; tests with status `SKIP` are dropped.
