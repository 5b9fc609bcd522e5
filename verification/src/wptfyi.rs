//! The wpt.fyi API: listing runs, and reading the summary files of runs.

use flate2::read::GzDecoder;
use std::collections::HashMap;
use std::io::Read;
use vstd::prelude::*;
use vstd::string::*;
use wptreport::SubtestCounts;

use crate::score::{test_views, RunResults, TestCounts, TestView};
use crate::sort::{law_sorting_keeps_items, lemma_sorting_exists};
use crate::sort::{lemma_filter_ignores_order, lemma_map_ignores_order, lemma_same_items};
use crate::sort::{permuted, sort_order, sorting, SortKey};
use crate::text::{chars_of, concat, has_part, has_substring, join, joined, same_text, slice, texts};
use crate::time::{instant, is_date_error, parse_date, DateError, NewestFirst, Timestamp};

verus! {

/// A `TestRun` entity from `/api/runs`.
#[derive(Debug)]
pub struct Run {
    pub id: u64,
    pub browser_version: String,
    pub full_revision_hash: String,
    pub results_url: String,
    pub time_start: String,
}

impl Clone for Run {
    fn clone(&self) -> (r: Self)
        ensures
            r == *self,
    {
        Run {
            id: self.id,
            browser_version: self.browser_version.clone(),
            full_revision_hash: self.full_revision_hash.clone(),
            results_url: self.results_url.clone(),
            time_start: self.time_start.clone(),
        }
    }
}

impl Run {
    /// When the run started; `None` where its start is no RFC 3339 date.
    pub open spec fn started(self) -> Option<Timestamp> {
        instant(self.time_start@)
    }

    /// When the run started.
    pub fn start(&self) -> (r: Result<Timestamp, DateError>)
        ensures
            r matches Ok(t) ==> self.started() == Some(t),
            r matches Err(e) ==> is_date_error(self.time_start@, e),
    {
        parse_date(self.time_start.as_str())
    }
}

/// Whether every run has a start.
pub open spec fn all_started(runs: Seq<Run>) -> bool {
    forall|i: int| 0 <= i < runs.len() ==> (#[trigger] runs[i]).started() is Some
}

/// The starts of runs.
pub open spec fn starts(runs: Seq<Run>) -> Seq<Timestamp> {
    runs.map_values(|run: Run| run.started()->0)
}

/// Whether an error is that of the first run without a start.
pub open spec fn is_first_date_error(runs: Seq<Run>, error: DateError) -> bool {
    exists|i: int|
        0 <= i < runs.len() && all_started(runs.take(i)) && is_date_error(
            (#[trigger] runs[i]).time_start@,
            error,
        )
}

/// The starts of runs, where all have one.
pub fn run_starts(runs: &Vec<Run>) -> (r: Result<Vec<Timestamp>, DateError>)
    ensures
        r matches Ok(v) ==> all_started(runs@) && v@ == starts(runs@),
        r matches Err(e) ==> is_first_date_error(runs@, e),
{
    let mut r: Vec<Timestamp> = Vec::new();
    let mut i: usize = 0;
    while i < runs.len()
        invariant
            i <= runs.len(),
            all_started(runs@.take(i as int)),
            r@ == starts(runs@.take(i as int)),
        decreases runs.len() - i,
    {
        match runs[i].start() {
            Ok(t) => {
                r.push(t);
                proof {
                    assert(runs@.take(i + 1) =~= runs@.take(i as int).push(runs@[i as int]));
                    assert(r@ =~= starts(runs@.take(i + 1)));
                }
            },
            Err(e) => {
                return Err(e);
            },
        }
        i = i + 1;
    }
    proof {
        assert(runs@.take(runs@.len() as int) =~= runs@);
    }
    Ok(r)
}

/// The runs in the places that `order` gives them.
pub(crate) fn reorder(runs: &Vec<Run>, order: &Vec<usize>) -> (r: Vec<Run>)
    requires
        forall|p: int| 0 <= p < order@.len() ==> 0 <= #[trigger] order@[p] < runs@.len(),
    ensures
        r@ == permuted(runs@, order@),
{
    let mut r: Vec<Run> = Vec::new();
    let mut i: usize = 0;
    while i < order.len()
        invariant
            i <= order.len(),
            forall|p: int| 0 <= p < order@.len() ==> 0 <= #[trigger] order@[p] < runs@.len(),
            r@ == permuted(runs@, order@.take(i as int)),
        decreases order.len() - i,
    {
        r.push(runs[order[i]].clone());
        proof {
            assert(order@.take(i + 1) =~= order@.take(i as int).push(order@[i as int]));
            assert(r@ =~= permuted(runs@, order@.take(i + 1)));
        }
        i = i + 1;
    }
    proof {
        assert(order@.take(order@.len() as int) =~= order@);
    }
    r
}

/// What to list runs by.
pub struct RunQuery<'a> {
    pub product: &'a str,
    pub labels: &'a [String],
    pub from: Option<&'a str>,
    pub to: Option<&'a str>,
}

/// Where wpt.fyi lists runs.
pub const RUNS_API: &'static str = "https://wpt.fyi/api/runs";

/// A parameter of a URL, where it is there.
pub open spec fn parameter(name: Seq<char>, value: Option<&str>) -> Seq<char> {
    match value {
        Some(text) => name + text@,
        None => Seq::empty(),
    }
}

impl<'a> RunQuery<'a> {
    /// The URL of the first page of the runs.
    pub open spec fn url(self) -> Seq<char> {
        RUNS_API@ + "?product="@ + self.product@ + "&max-count=500"@ + (if self.labels@.len() > 0 {
            "&labels="@ + joined(texts(self.labels@), ","@)
        } else {
            Seq::empty()
        }) + parameter("&from="@, self.from) + parameter("&to="@, self.to)
    }

    /// The URL of the first page of the runs.
    fn first_url(&self) -> (r: String)
        ensures
            r@ == self.url(),
    {
        let mut url = concat(RUNS_API, "?product=");
        url.append(self.product);
        url.append("&max-count=500");
        let ghost head = RUNS_API@ + "?product="@ + self.product@ + "&max-count=500"@;
        if self.labels.len() > 0 {
            let labels = join(self.labels, ",");
            url.append("&labels=");
            url.append(labels.as_str());
        }
        let ghost labelled = head + (if self.labels@.len() > 0 {
            "&labels="@ + joined(texts(self.labels@), ","@)
        } else {
            Seq::empty()
        });
        assert(url@ =~= labelled);
        match self.from {
            Some(from) => {
                url.append("&from=");
                url.append(from);
            },
            None => {},
        }
        assert(url@ =~= labelled + parameter("&from="@, self.from));
        match self.to {
            Some(to) => {
                url.append("&to=");
                url.append(to);
            },
            None => {},
        }
        assert(url@ =~= self.url());
        url
    }
}

/// The URL of a page of runs, by its token.
pub open spec fn page_url(token: Seq<char>) -> Seq<char> {
    RUNS_API@ + "?page="@ + token
}

/// A listing of runs under way: the window of starts that it is for, the runs received so
/// far, and the URL of the page to request next, if there is one.
pub struct RunListing {
    pub from: Option<Timestamp>,
    pub to: Option<Timestamp>,
    pub runs: Vec<Run>,
    pub request: Option<String>,
}

/// The moment that an optional date stands for.
pub open spec fn bound(date: Option<&str>) -> Option<Timestamp> {
    match date {
        Some(text) => instant(text@),
        None => None,
    }
}

/// Whether an optional date is there but cannot be read.
pub open spec fn unreadable(date: Option<&str>) -> bool {
    date matches Some(text) && instant(text@) is None
}

/// Reads an optional date.
fn parse_bound(date: Option<&str>) -> (r: Result<Option<Timestamp>, DateError>)
    ensures
        r matches Ok(t) ==> !unreadable(date) && t == bound(date),
        r matches Err(e) ==> date matches Some(text) && is_date_error(text@, e),
{
    match date {
        Some(text) => match parse_date(text) {
            Ok(t) => Ok(Some(t)),
            Err(e) => Err(e),
        },
        None => Ok(None),
    }
}

/// Begin to list the runs that match the query.
pub fn list_runs(query: &RunQuery) -> (r: Result<RunListing, DateError>)
    ensures
        r matches Ok(listing) ==> {
            &&& !unreadable(query.from)
            &&& !unreadable(query.to)
            &&& listing.from == bound(query.from)
            &&& listing.to == bound(query.to)
            &&& listing.runs@.len() == 0
            &&& listing.request is Some
            &&& listing.request->0@ == query.url()
        },
        r matches Err(e) ==> if unreadable(query.from) {
            is_date_error(query.from->0@, e)
        } else {
            unreadable(query.to) && is_date_error(query.to->0@, e)
        },
{
    let url = query.first_url();
    let from = match parse_bound(query.from) {
        Ok(from) => from,
        Err(e) => {
            return Err(e);
        },
    };
    let to = match parse_bound(query.to) {
        Ok(to) => to,
        Err(e) => {
            return Err(e);
        },
    };
    Ok(RunListing { from, to, runs: Vec::new(), request: Some(url) })
}

/// Whether a page of runs goes back past a moment: whether, read from its beginning, it comes
/// to a run that started before. `None` where it comes to a run without a start first.
pub open spec fn reaches(page: Seq<Run>, from: Timestamp) -> Option<bool>
    decreases page.len(),
{
    if page.len() == 0 {
        Some(false)
    } else {
        match page[0].started() {
            None => None,
            Some(t) => if t.earlier_than(from) {
                Some(true)
            } else {
                reaches(page.skip(1), from)
            },
        }
    }
}

/// Whether a page of runs goes back past a moment.
fn page_reaches(page: &Vec<Run>, from: &Timestamp) -> (r: Result<bool, DateError>)
    ensures
        r matches Ok(b) ==> reaches(page@, *from) == Some(b),
        r matches Err(e) ==> reaches(page@, *from) is None && is_first_date_error(page@, e),
{
    let mut i: usize = 0;
    proof {
        assert(page@.skip(0) =~= page@);
    }
    while i < page.len()
        invariant
            i <= page.len(),
            reaches(page@, *from) == reaches(page@.skip(i as int), *from),
            all_started(page@.take(i as int)),
        decreases page.len() - i,
    {
        proof {
            assert(page@.skip(i as int).skip(1) =~= page@.skip(i + 1));
            assert(page@.skip(i as int)[0] == page@[i as int]);
            assert(page@.take(i + 1) =~= page@.take(i as int).push(page@[i as int]));
        }
        match page[i].start() {
            Ok(t) => {
                if t.is_before(from) {
                    return Ok(true);
                }
            },
            Err(e) => {
                return Err(e);
            },
        }
        i = i + 1;
    }
    Ok(false)
}

/// Whether a run started within a window: not before `from`, and before `to`.
pub open spec fn in_window(run: Run, from: Option<Timestamp>, to: Option<Timestamp>) -> bool {
    let t = run.started()->0;
    &&& from matches Some(f) ==> f.not_after(t)
    &&& to matches Some(u) ==> t.earlier_than(u)
}

/// The runs of a window.
pub open spec fn windowed(
    runs: Seq<Run>,
    from: Option<Timestamp>,
    to: Option<Timestamp>,
) -> Seq<Run> {
    runs.filter(|run: Run| in_window(run, from, to))
}

/// The keys by which runs are sorted from the latest to the earliest.
pub open spec fn newest_keys(runs: Seq<Run>) -> Seq<NewestFirst> {
    runs.map_values(|run: Run| NewestFirst(run.started()->0))
}

/// The runs from the latest to the earliest; runs that started together keep their order.
pub open spec fn newest_first(runs: Seq<Run>) -> Seq<Run> {
    permuted(runs, sorting(newest_keys(runs)))
}

impl RunListing {
    /// The pagination token does not preserve `from`, so pages keep walking back in time past
    /// it: the listing ends once a page reaches runs older than `from`, or names no next page.
    pub fn receive(&mut self, page: Vec<Run>, next_page: Option<String>) -> (r: Result<
        (),
        DateError,
    >)
        ensures
            final(self).from == old(self).from,
            final(self).to == old(self).to,
            r is Ok ==> {
                let reached = match old(self).from {
                    Some(from) => reaches(page@, from),
                    None => Some(false),
                };
                &&& reached is Some
                &&& final(self).runs@ == old(self).runs@ + page@
                &&& if next_page is Some && reached == Some(false) {
                    final(self).request is Some && final(self).request->0@ == page_url(
                        next_page->0@,
                    )
                } else {
                    final(self).request is None
                }
            },
            r matches Err(e) ==> {
                &&& old(self).from is Some
                &&& reaches(page@, old(self).from->0) is None
                &&& is_first_date_error(page@, e)
                &&& final(self).runs@ == old(self).runs@
                &&& final(self).request == old(self).request
            },
    {
        let reached_from = match &self.from {
            Some(from) => match page_reaches(&page, from) {
                Ok(reached) => reached,
                Err(e) => {
                    return Err(e);
                },
            },
            None => false,
        };
        let mut page = page;
        self.runs.append(&mut page);
        self.request = match next_page {
            Some(token) => if reached_from {
                None
            } else {
                let mut url = concat(RUNS_API, "?page=");
                url.append(token.as_str());
                Some(url)
            },
            None => None,
        };
        Ok(())
    }

    /// wpt.fyi answers that nothing is found where no run matches: the listing ends.
    pub fn not_found(&mut self)
        ensures
            final(self).from == old(self).from,
            final(self).to == old(self).to,
            final(self).runs == old(self).runs,
            final(self).request is None,
    {
        self.request = None;
    }

    /// The runs of the window, newest first.
    pub fn finish(self) -> (r: Result<Vec<Run>, DateError>)
        ensures
            r matches Ok(runs) ==> all_started(self.runs@) && runs@ == newest_first(
                windowed(self.runs@, self.from, self.to),
            ),
            r matches Err(e) ==> is_first_date_error(self.runs@, e),
    {
        let times = match run_starts(&self.runs) {
            Ok(times) => times,
            Err(e) => {
                return Err(e);
            },
        };
        let ghost pred = |run: Run| in_window(run, self.from, self.to);
        let mut kept: Vec<Run> = Vec::new();
        let mut keys: Vec<NewestFirst> = Vec::new();
        let mut i: usize = 0;
        while i < self.runs.len()
            invariant
                i <= self.runs.len(),
                times@ == starts(self.runs@),
                all_started(self.runs@),
                kept@ == windowed(self.runs@.take(i as int), self.from, self.to),
                keys@ == newest_keys(kept@),
            decreases self.runs.len() - i,
        {
            let t = times[i];
            let ghost run = self.runs@[i as int];
            let ghost before = kept@;
            proof {
                reveal(Seq::filter);
                assert(run.started() is Some);
                assert(self.runs@.take(i + 1).drop_last() =~= self.runs@.take(i as int));
                assert(self.runs@.take(i + 1).last() == run);
            }
            let after_from = match &self.from {
                Some(from) => from.at_or_before(&t),
                None => true,
            };
            let before_to = match &self.to {
                Some(to) => t.is_before(to),
                None => true,
            };
            if after_from && before_to {
                kept.push(self.runs[i].clone());
                keys.push(NewestFirst(t));
                assert(keys@ =~= newest_keys(kept@));
            }
            i = i + 1;
        }
        proof {
            assert(self.runs@.take(self.runs@.len() as int) =~= self.runs@);
        }
        let order = sort_order(&keys);
        Ok(reorder(&kept, &order))
    }
}

/// What flate2's `GzDecoder` makes of bytes: those that they decompress to, or the wording of
/// the error.
pub uninterp spec fn gunzipped(bytes: Seq<u8>) -> Result<Seq<u8>, Seq<char>>;

/// A decompression result as a mathematical value.
pub open spec fn gunzip_view(r: Result<Vec<u8>, String>) -> Result<Seq<u8>, Seq<char>> {
    match r {
        Ok(bytes) => Ok(bytes@),
        Err(reason) => Err(reason@),
    }
}

/// Reads flate2's `GzDecoder` to its end. Believed: the result is a function of the bytes. How
/// gzip data is laid out is left to flate2.
#[verifier::external_body]
fn gunzip(bytes: &[u8]) -> (r: Result<Vec<u8>, String>)
    ensures
        gunzip_view(r) == gunzipped(bytes@),
{
    let mut out = Vec::new();
    match GzDecoder::new(bytes).read_to_end(&mut out) {
        Ok(_) => Ok(out),
        Err(error) => Err(error.to_string()),
    }
}

/// Whether bytes begin as gzip data does.
pub open spec fn is_gzip(bytes: Seq<u8>) -> bool {
    bytes.len() >= 2 && bytes[0] == 0x1f && bytes[1] == 0x8b
}

/// Bytes, decompressed where they are gzip data.
pub open spec fn unpacked(bytes: Seq<u8>) -> Result<Seq<u8>, Seq<char>> {
    if is_gzip(bytes) {
        gunzipped(bytes)
    } else {
        Ok(bytes)
    }
}

/// Summary files are served with a content encoding that the client decodes, but decompress
/// defensively where raw gzip data came. An error is the wording of what is wrong with it.
pub fn maybe_gunzip(body: Vec<u8>) -> (r: Result<Vec<u8>, String>)
    ensures
        gunzip_view(r) == unpacked(body@),
{
    if body.len() >= 2 && body[0] == 0x1f && body[1] == 0x8b {
        gunzip(body.as_slice())
    } else {
        Ok(body)
    }
}

/// A single test's entry in a `summary_v2.json.gz` file.
pub struct SummaryV2Entry {
    /// Abbreviated test status (`O`, `P`, `F`, `S`, ...).
    pub s: String,
    /// Subtests passed, and in total.
    pub c: [u32; 2],
}

/// The entries of a summary file: the paths of tests, each with what the file says of it.
pub enum SummaryFile {
    /// Pre-July-2022: subtests passed and in total, with the test status folded in.
    V1(Vec<(String, [u32; 2])>),
    /// With a separate test status.
    V2(Vec<(String, SummaryV2Entry)>),
}

/// What `serde_json` makes of the bytes of a v1 summary file: its entries, each a path with the
/// numbers of subtests passed and in total, or the wording of the error.
pub uninterp spec fn v1_entries(bytes: Seq<u8>) -> Result<Set<(Seq<char>, u32, u32)>, Seq<char>>;

/// An entry of a v1 summary file as a mathematical value.
pub open spec fn v1_entry(entry: (String, [u32; 2])) -> (Seq<char>, u32, u32) {
    (entry.0@, entry.1@[0], entry.1@[1])
}

/// The entries of a v1 summary file as a mathematical value, in whichever order they are.
pub open spec fn v1_view(r: Result<Vec<(String, [u32; 2])>, String>) -> Result<
    Set<(Seq<char>, u32, u32)>,
    Seq<char>,
> {
    match r {
        Ok(entries) => Ok(entries@.map_values(|e: (String, [u32; 2])| v1_entry(e)).to_set()),
        Err(reason) => Err(reason@),
    }
}

/// Whether no two entries have the same path.
pub open spec fn paths_differ(entries: Seq<(String, [u32; 2])>) -> bool {
    forall|i: int, j: int|
        0 <= i < j < entries.len() ==> (#[trigger] entries[i]).0@ != (#[trigger] entries[j]).0@
}

/// Calls `serde_json::from_slice` for a map from strings to pairs of numbers, and lists the
/// entries of the map. Believed: which entries there are, and the wording of an error, is a
/// function of the bytes, and no path is listed twice. The order of the entries, which is that
/// of a hash map, is left unsaid.
#[verifier::external_body]
fn parse_v1(bytes: &[u8]) -> (r: Result<Vec<(String, [u32; 2])>, String>)
    ensures
        v1_view(r) == v1_entries(bytes@),
        r is Ok ==> paths_differ(r->Ok_0@),
{
    match serde_json::from_slice::<HashMap<String, [u32; 2]>>(bytes) {
        Ok(entries) => Ok(entries.into_iter().collect()),
        Err(error) => Err(error.to_string()),
    }
}

/// Why a summary file cannot be read, with the wording of what is wrong.
#[derive(Debug)]
pub enum SummaryError {
    /// It is no valid gzip data.
    Gzip(String),
    /// It is no valid JSON of its format.
    Json(String),
}

/// Whether a summary file is what the body of a v1 summary file holds.
pub open spec fn is_v1_summary_of(summary: SummaryFile, body: Seq<u8>) -> bool {
    &&& unpacked(body) is Ok
    &&& summary matches SummaryFile::V1(entries) && paths_differ(entries@) && v1_view(Ok(entries))
        == v1_entries(unpacked(body)->Ok_0)
}

/// Reads the body of a v1 summary file.
pub fn read_v1_summary(body: Vec<u8>) -> (r: Result<SummaryFile, SummaryError>)
    ensures
        r matches Ok(summary) ==> is_v1_summary_of(summary, body@),
        r matches Err(SummaryError::Gzip(reason)) ==> unpacked(body@) == Err::<
            Seq<u8>,
            Seq<char>,
        >(reason@),
        r matches Err(SummaryError::Json(reason)) ==> unpacked(body@) is Ok && v1_entries(
            unpacked(body@)->Ok_0,
        ) == Err::<Set<(Seq<char>, u32, u32)>, Seq<char>>(reason@),
{
    let bytes = match maybe_gunzip(body) {
        Ok(bytes) => bytes,
        Err(reason) => {
            return Err(SummaryError::Gzip(reason));
        },
    };
    match parse_v1(bytes.as_slice()) {
        Ok(entries) => Ok(SummaryFile::V1(entries)),
        Err(reason) => Err(SummaryError::Json(reason)),
    }
}

impl Run {
    /// Whether the summary file of the run is in the v2 format.
    pub fn has_v2_summary(&self) -> (r: bool)
        ensures
            r == has_part(self.results_url@, "summary_v2"@),
    {
        has_substring(self.results_url.as_str(), "summary_v2")
    }
}

/// A path without a slash at its beginning.
pub open spec fn unslashed(path: Seq<char>) -> Seq<char> {
    if path.len() > 0 && path[0] == '/' {
        path.skip(1)
    } else {
        path
    }
}

/// Takes one slash off the beginning of a path.
pub fn strip_leading_slash(path: String) -> (r: String)
    ensures
        r@ == unslashed(path@),
{
    let chars = chars_of(path.as_str());
    if chars.len() > 0 && chars[0] == '/' {
        let r = slice(path.as_str(), 1, chars.len());
        assert(r@ =~= path@.skip(1));
        r
    } else {
        path
    }
}

/// The test that a v1 entry stands for: its status is folded into the counts, so it passes
/// where all that is counted passes.
pub open spec fn v1_test(path: Seq<char>, counts: Seq<u32>) -> TestView {
    TestView {
        path: unslashed(path),
        passes: counts[0] == counts[1],
        pass: counts[0],
        total: counts[1],
    }
}

/// The test that a v2 entry stands for.
pub open spec fn v2_test(path: Seq<char>, status: Seq<char>, counts: Seq<u32>) -> TestView {
    TestView {
        path: unslashed(path),
        passes: status == "P"@,
        pass: counts[0],
        total: counts[1],
    }
}

/// The tests of a v1 file.
pub open spec fn v1_tests(entries: Seq<(String, [u32; 2])>) -> Seq<TestView> {
    entries.map_values(|e: (String, [u32; 2])| v1_test(e.0@, e.1@))
}

/// The tests of a v2 file, without those that were skipped.
pub open spec fn v2_tests(entries: Seq<(String, SummaryV2Entry)>) -> Seq<TestView> {
    entries.filter(|e: (String, SummaryV2Entry)| e.1.s@ != "S"@).map_values(
        |e: (String, SummaryV2Entry)| v2_test(e.0@, e.1.s@, e.1.c@),
    )
}

/// The tests of a summary file.
pub open spec fn summary_tests(summary: SummaryFile) -> Seq<TestView> {
    match summary {
        SummaryFile::V1(entries) => v1_tests(entries@),
        SummaryFile::V2(entries) => v2_tests(entries@),
    }
}

/// The results of a run by its summary file. Skipped tests are dropped.
pub fn fetch_summary(summary: SummaryFile) -> (r: RunResults)
    ensures
        r@ == summary_tests(summary),
{
    let mut tests: Vec<TestCounts> = Vec::new();
    match summary {
        SummaryFile::V1(entries) => {
            let mut i: usize = 0;
            while i < entries.len()
                invariant
                    i <= entries.len(),
                    test_views(tests@) == v1_tests(entries@.take(i as int)),
                decreases entries.len() - i,
            {
                let entry = &entries[i];
                let ghost before = test_views(tests@);
                let test = TestCounts {
                    path: strip_leading_slash(entry.0.clone()),
                    passes: entry.1[0] == entry.1[1],
                    subtests: SubtestCounts { pass: entry.1[0], total: entry.1[1] },
                };
                tests.push(test);
                proof {
                    assert(entries@.take(i + 1) =~= entries@.take(i as int).push(
                        entries@[i as int],
                    ));
                    assert(test_views(tests@) =~= before.push(test@));
                    assert(test_views(tests@) =~= v1_tests(entries@.take(i + 1)));
                }
                i = i + 1;
            }
            assert(entries@.take(entries@.len() as int) =~= entries@);
        },
        SummaryFile::V2(entries) => {
            let mut i: usize = 0;
            while i < entries.len()
                invariant
                    i <= entries.len(),
                    test_views(tests@) == v2_tests(entries@.take(i as int)),
                decreases entries.len() - i,
            {
                let entry = &entries[i];
                let ghost before = test_views(tests@);
                proof {
                    reveal(Seq::filter);
                    assert(entries@.take(i + 1).drop_last() =~= entries@.take(i as int));
                    assert(entries@.take(i + 1).last() == entries@[i as int]);
                }
                if !same_text(entry.1.s.as_str(), "S") {
                    let test = TestCounts {
                        path: strip_leading_slash(entry.0.clone()),
                        passes: same_text(entry.1.s.as_str(), "P"),
                        subtests: SubtestCounts { pass: entry.1.c[0], total: entry.1.c[1] },
                    };
                    tests.push(test);
                    proof {
                        assert(test_views(tests@) =~= before.push(test@));
                        assert(test_views(tests@) =~= v2_tests(entries@.take(i + 1)));
                    }
                }
                i = i + 1;
            }
            assert(entries@.take(entries@.len() as int) =~= entries@);
        },
    }
    RunResults { tests }
}

proof fn lemma_windowed(runs: Seq<Run>, from: Option<Timestamp>, to: Option<Timestamp>)
    ensures
        windowed(runs, from, to).len() <= runs.len(),
        forall|k: int|
            0 <= k < windowed(runs, from, to).len() ==> {
                let run = #[trigger] windowed(runs, from, to)[k];
                in_window(run, from, to) && runs.contains(run)
            },
        forall|i: int|
            0 <= i < runs.len() && in_window(runs[i], from, to) ==> windowed(
                runs,
                from,
                to,
            ).contains(#[trigger] runs[i]),
    decreases runs.len(),
{
    reveal(Seq::filter);
    if runs.len() > 0 {
        let rest = runs.drop_last();
        let (few, all) = (windowed(rest, from, to), windowed(runs, from, to));
        lemma_windowed(rest, from, to);
        assert forall|k: int| 0 <= k < all.len() implies in_window(
            #[trigger] all[k],
            from,
            to,
        ) && runs.contains(all[k]) by {
            if k < few.len() {
                assert(all[k] == few[k]);
                assert(runs[rest.index_of(few[k])] == all[k]);
            } else {
                assert(runs[runs.len() - 1] == all[k]);
            }
        }
        assert forall|i: int| 0 <= i < runs.len() && in_window(
            runs[i],
            from,
            to,
        ) implies all.contains(#[trigger] runs[i]) by {
            if i < rest.len() {
                assert(few.contains(rest[i]));
                assert(all[few.index_of(rest[i])] == runs[i]);
            } else {
                assert(all[few.len() as int] == runs[i]);
            }
        }
    }
}

/// A listing holds the runs of the window and no others, as often as they were received, newest
/// first.
pub proof fn law_listing(runs: Seq<Run>, from: Option<Timestamp>, to: Option<Timestamp>)
    requires
        runs.len() <= usize::MAX,
    ensures
        newest_first(windowed(runs, from, to)).to_multiset() == windowed(
            runs,
            from,
            to,
        ).to_multiset(),
        forall|k: int|
            0 <= k < newest_first(windowed(runs, from, to)).len() ==> {
                let run = #[trigger] newest_first(windowed(runs, from, to))[k];
                in_window(run, from, to) && runs.contains(run)
            },
        forall|i: int|
            0 <= i < runs.len() && in_window(runs[i], from, to) ==> newest_first(
                windowed(runs, from, to),
            ).contains(#[trigger] runs[i]),
        forall|p: int, q: int|
            #![trigger newest_first(windowed(runs, from, to))[p], newest_first(windowed(runs, from, to))[q]]
            0 <= p < q < newest_first(windowed(runs, from, to)).len() ==> newest_first(
                windowed(runs, from, to),
            )[q].started()->0.not_after(
                newest_first(windowed(runs, from, to))[p].started()->0,
            ),
{
    let kept = windowed(runs, from, to);
    let keys = newest_keys(kept);
    let listed = newest_first(kept);
    lemma_windowed(runs, from, to);
    lemma_sorting_exists(keys);
    law_sorting_keeps_items(keys, kept);
    kept.to_multiset_ensures();
    listed.to_multiset_ensures();
    assert forall|k: int| 0 <= k < listed.len() implies in_window(
        #[trigger] listed[k],
        from,
        to,
    ) && runs.contains(listed[k]) by {
        assert(listed.contains(listed[k]));
        assert(kept.to_multiset().count(listed[k]) > 0);
        let i = kept.index_of(listed[k]);
        assert(kept[i] == listed[k]);
    }
    assert forall|i: int| 0 <= i < runs.len() && in_window(
        runs[i],
        from,
        to,
    ) implies listed.contains(#[trigger] runs[i]) by {
        assert(kept.contains(runs[i]));
        assert(listed.to_multiset().count(runs[i]) > 0);
    }
    assert forall|p: int, q: int| 0 <= p < q < listed.len() implies (
    #[trigger] listed[q]).started()->0.not_after((#[trigger] listed[p]).started()->0) by {
        let (a, b) = (permuted(keys, sorting(keys))[p], permuted(keys, sorting(keys))[q]);
        assert(a.key_le(b));
    }
}

proof fn lemma_reaches(page: Seq<Run>, from: Timestamp) -> (i: int)
    requires
        reaches(page, from) == Some(true),
    ensures
        0 <= i < page.len(),
        page[i].started() is Some,
        page[i].started()->0.earlier_than(from),
    decreases page.len(),
{
    if page[0].started()->0.earlier_than(from) {
        0
    } else {
        1 + lemma_reaches(page.skip(1), from)
    }
}

/// A listing that ends because a page went back past the beginning of the window misses no run
/// of the window: where pages walk back in time, no later page has one.
pub proof fn law_nothing_missed(
    page: Seq<Run>,
    later: Run,
    from: Timestamp,
    to: Option<Timestamp>,
)
    requires
        reaches(page, from) == Some(true),
        forall|i: int|
            0 <= i < page.len() ==> later.started()->0.not_after(
                (#[trigger] page[i]).started()->0,
            ),
    ensures
        !in_window(later, Some(from), to),
{
    let i = lemma_reaches(page, from);
    assert(later.started()->0.not_after(page[i].started()->0));
}

/// What the entries of a v2 file say, as mathematical values.
pub open spec fn v2_views(entries: Seq<(String, SummaryV2Entry)>) -> Seq<
    (Seq<char>, Seq<char>, Seq<u32>),
> {
    entries.map_values(|e: (String, SummaryV2Entry)| (e.0@, e.1.s@, e.1.c@))
}

spec fn v2_tests_of(views: Seq<(Seq<char>, Seq<char>, Seq<u32>)>) -> Seq<TestView> {
    views.filter(|v: (Seq<char>, Seq<char>, Seq<u32>)| v.1 != "S"@).map_values(
        |v: (Seq<char>, Seq<char>, Seq<u32>)| v2_test(v.0, v.1, v.2),
    )
}

proof fn lemma_v2_tests_of(entries: Seq<(String, SummaryV2Entry)>)
    ensures
        v2_tests(entries) == v2_tests_of(v2_views(entries)),
    decreases entries.len(),
{
    reveal(Seq::filter);
    if entries.len() == 0 {
        assert(v2_tests(entries) =~= v2_tests_of(v2_views(entries)));
    } else {
        let rest = entries.drop_last();
        let e = entries.last();
        lemma_v2_tests_of(rest);
        assert(v2_views(entries).drop_last() =~= v2_views(rest));
        assert(v2_views(entries).last() == (e.0@, e.1.s@, e.1.c@));
        if e.1.s@ != "S"@ {
            let test = v2_test(e.0@, e.1.s@, e.1.c@);
            assert(v2_tests(entries) =~= v2_tests(rest).push(test));
            assert(v2_tests_of(v2_views(entries)) =~= v2_tests_of(v2_views(rest)).push(test));
        }
    }
}

/// The tests of a v2 file do not depend on the order in which its entries are listed.
pub proof fn law_v2_order(
    a: Seq<(String, SummaryV2Entry)>,
    b: Seq<(String, SummaryV2Entry)>,
)
    requires
        v2_views(a).to_multiset() == v2_views(b).to_multiset(),
    ensures
        v2_tests(a).to_multiset() == v2_tests(b).to_multiset(),
{
    let keep = |v: (Seq<char>, Seq<char>, Seq<u32>)| v.1 != "S"@;
    let test = |v: (Seq<char>, Seq<char>, Seq<u32>)| v2_test(v.0, v.1, v.2);
    lemma_v2_tests_of(a);
    lemma_v2_tests_of(b);
    lemma_filter_ignores_order(v2_views(a), v2_views(b), keep);
    lemma_map_ignores_order(v2_views(a).filter(keep), v2_views(b).filter(keep), test);
}

/// The entries of a v1 file as mathematical values.
spec fn v1_views(entries: Seq<(String, [u32; 2])>) -> Seq<(Seq<char>, u32, u32)> {
    entries.map_values(|e: (String, [u32; 2])| v1_entry(e))
}

proof fn lemma_v1_order(a: Seq<(String, [u32; 2])>, b: Seq<(String, [u32; 2])>)
    requires
        paths_differ(a),
        paths_differ(b),
        v1_views(a).to_set() == v1_views(b).to_set(),
    ensures
        v1_tests(a).to_multiset() == v1_tests(b).to_multiset(),
{
    let test = |v: (Seq<char>, u32, u32)|
        TestView { path: unslashed(v.0), passes: v.1 == v.2, pass: v.1, total: v.2 };
    assert(v1_views(a).no_duplicates()) by {
        assert forall|i: int, j: int| 0 <= i < a.len() && 0 <= j < a.len() && i != j implies
            v1_views(a)[i] != v1_views(a)[j] by {
            if i < j {
                assert(a[i].0@ != a[j].0@);
            } else {
                assert(a[j].0@ != a[i].0@);
            }
        }
    }
    assert(v1_views(b).no_duplicates()) by {
        assert forall|i: int, j: int| 0 <= i < b.len() && 0 <= j < b.len() && i != j implies
            v1_views(b)[i] != v1_views(b)[j] by {
            if i < j {
                assert(b[i].0@ != b[j].0@);
            } else {
                assert(b[j].0@ != b[i].0@);
            }
        }
    }
    lemma_same_items(v1_views(a), v1_views(b));
    lemma_map_ignores_order(v1_views(a), v1_views(b), test);
    assert(v1_tests(a) =~= v1_views(a).map_values(test));
    assert(v1_tests(b) =~= v1_views(b).map_values(test));
}

/// It makes no difference whether a summary file comes as it is or as raw gzip data: the same
/// bytes are read, and the tests that a v1 file holds are the same but for their order.
pub proof fn law_gzip_makes_no_difference(
    body: Seq<u8>,
    packed: Seq<u8>,
    from_body: SummaryFile,
    from_packed: SummaryFile,
)
    requires
        !is_gzip(body),
        is_gzip(packed),
        gunzipped(packed) == Ok::<Seq<u8>, Seq<char>>(body),
    ensures
        unpacked(packed) == unpacked(body),
        is_v1_summary_of(from_body, body) && is_v1_summary_of(from_packed, packed)
            ==> summary_tests(from_body).to_multiset() == summary_tests(
            from_packed,
        ).to_multiset(),
{
    if is_v1_summary_of(from_body, body) && is_v1_summary_of(from_packed, packed) {
        let a = from_body->V1_0;
        let b = from_packed->V1_0;
        assert(v1_view(Ok(a)) == v1_view(Ok(b)));
        assert(v1_views(a@).to_set() == v1_views(b@).to_set());
        lemma_v1_order(a@, b@);
    }
}

}
