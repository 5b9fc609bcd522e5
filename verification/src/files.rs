//! The files of a summary dataset: `runs.json`, `total.json` and one file per area below
//! `areas/`.

use vstd::prelude::*;
use vstd::string::*;

use crate::area_map::{lemma_paired, AreaMap};
use crate::summary::{area_rows, Row, RunMeta, ScoreTuple, StoreView, SummaryStore, TOTAL_AREA};
use crate::summary::lemma_same_areas;
use crate::text::{chars_of, concat, find_last, join, joined, last_position, lemma_last_position};
use crate::text::{same_text, slice, split_at_each, texts};

verus! {

/// A path below another: appended after a slash, unless it begins with one itself.
pub open spec fn below(base: Seq<char>, part: Seq<char>) -> Seq<char> {
    if part.len() > 0 && part[0] == '/' {
        part
    } else if base.len() == 0 || base.last() == '/' {
        base + part
    } else {
        base + "/"@ + part
    }
}

/// Puts a path below another.
pub fn path_below(base: &str, part: &str) -> (r: String)
    ensures
        r@ == below(base@, part@),
{
    let start = chars_of(part);
    let end = chars_of(base);
    if start.len() > 0 && start[0] == '/' {
        part.to_owned()
    } else if end.len() == 0 || end[end.len() - 1] == '/' {
        concat(base, part)
    } else {
        let mut r = concat(base, "/");
        r.append(part);
        r
    }
}

/// The path of the file of an area.
pub open spec fn area_file(dir: Seq<char>, area: Seq<char>) -> Seq<char> {
    if area == TOTAL_AREA@ {
        below(dir, "total.json"@)
    } else {
        below(below(dir, "areas"@), area + ".json"@)
    }
}

/// The path of the file of an area. The total stands next to `runs.json` rather than under
/// `areas/`, so that it cannot collide with a WPT directory.
pub fn area_path(dir: &str, area: &str) -> (r: String)
    ensures
        r@ == area_file(dir@, area@),
{
    if same_text(area, TOTAL_AREA) {
        path_below(dir, "total.json")
    } else {
        let areas = path_below(dir, "areas");
        let file = concat(area, ".json");
        path_below(areas.as_str(), file.as_str())
    }
}

/// The area that a file in a directory holds, where its extension is `json`: the prefix of the
/// directory and the file name up to its last dot. A dot that the name begins with starts no
/// extension.
pub open spec fn file_area(prefix: Seq<char>, file_name: Seq<char>) -> Option<Seq<char>> {
    let dot = last_position(file_name, '.');
    if dot > 0 && file_name.skip(dot + 1) == "json"@ {
        Some(prefix + file_name.take(dot))
    } else {
        None
    }
}

/// The area that a file in a directory holds.
pub fn area_name(prefix: &str, file_name: &str) -> (r: Option<String>)
    ensures
        r matches Some(area) ==> file_area(prefix@, file_name@) == Some(area@),
        r is None <==> file_area(prefix@, file_name@) is None,
{
    proof {
        lemma_last_position(file_name@, '.');
    }
    match find_last(file_name, '.') {
        Some(dot) => {
            if dot == 0 {
                return None;
            }
            let len: usize = file_name.unicode_len();
            let extension = slice(file_name, dot + 1, len);
            assert(extension@ =~= file_name@.skip(dot + 1));
            if same_text(extension.as_str(), "json") {
                let stem = slice(file_name, 0, dot);
                assert(stem@ =~= file_name@.take(dot as int));
                Some(concat(prefix, stem.as_str()))
            } else {
                None
            }
        },
        None => None,
    }
}

/// The prefix of the areas in a directory.
pub open spec fn directory_prefix(prefix: Seq<char>, name: Seq<char>) -> Seq<char> {
    prefix + name + "/"@
}

/// The prefix of the areas in a directory, by the prefix of the one above and its name.
pub fn area_prefix(prefix: &str, name: &str) -> (r: String)
    ensures
        r@ == directory_prefix(prefix@, name@),
{
    let mut r = concat(prefix, name);
    r.append("/");
    r
}

/// Scores for a single area (one WPT folder). `scores` is index-aligned with `runs.json`: one
/// entry per run. `None` marks a run with no data for this area.
pub struct AreaFile {
    pub scores: Row,
}

/// The file of an area does not have one entry per run.
#[derive(Debug)]
pub struct Misaligned {
    pub name: String,
}

impl Misaligned {
    /// What is wrong, in words.
    pub fn message(&self) -> (r: String)
        ensures
            r@ == "area file "@ + self.name@ + " is misaligned with runs.json"@,
    {
        let mut r = concat("area file ", self.name.as_str());
        r.append(" is misaligned with runs.json");
        r
    }
}

/// The scores of the file of an area, where there is one entry per run.
pub fn load_area_file(name: &str, file: AreaFile, run_count: usize) -> (r: Result<
    Row,
    Misaligned,
>)
    ensures
        r matches Ok(row) ==> file.scores@.len() == run_count && row == file.scores,
        r matches Err(e) ==> file.scores@.len() != run_count && e.name@ == name@,
{
    if file.scores.len() == run_count {
        Ok(file.scores)
    } else {
        Err(Misaligned { name: name.to_owned() })
    }
}

/// Whether every file has one entry per run.
pub open spec fn all_aligned(files: Seq<(String, AreaFile)>, run_count: nat) -> bool {
    forall|i: int| 0 <= i < files.len() ==> (#[trigger] files[i]).1.scores@.len() == run_count
}

/// The rows of files, by area. Of two files for one area the later counts.
pub open spec fn rows_of(files: Seq<(String, AreaFile)>) -> Map<Seq<char>, Seq<Option<ScoreTuple>>>
    decreases files.len(),
{
    if files.len() == 0 {
        Map::empty()
    } else {
        rows_of(files.drop_last()).insert(files.last().0@, files.last().1.scores@)
    }
}

/// The rows of a dataset, by the files of its areas and that of the total.
pub open spec fn loaded_rows(
    files: Seq<(String, AreaFile)>,
    total: Option<AreaFile>,
) -> Map<Seq<char>, Seq<Option<ScoreTuple>>> {
    match total {
        Some(file) => rows_of(files).insert(TOTAL_AREA@, file.scores@),
        None => rows_of(files),
    }
}

impl SummaryStore {
    /// Puts a row under its area.
    fn put_row(&mut self, area: String, row: Row)
        requires
            old(self).wf(),
            row@.len() == old(self).runs@.len(),
        ensures
            final(self).wf(),
            final(self).runs == old(self).runs,
            final(self)@.areas == old(self)@.areas.insert(area@, row@),
    {
        let ghost before = self.areas;
        let ghost n = self.runs@.len();
        self.areas.insert(area, row);
        proof {
            lemma_same_areas(before);
            lemma_same_areas(self.areas);
            assert forall|k: int| 0 <= k < self.areas.values@.len() implies (
            #[trigger] self.areas.values@[k])@.len() == n by {
                let a = texts(self.areas.names@)[k];
                lemma_paired(texts(self.areas.names@), self.areas.values@, k);
                if a != area@ {
                    let j = texts(before.names@).index_of(a);
                    lemma_paired(texts(before.names@), before.values@, j);
                }
            }
            assert(self@.areas =~= area_rows(before).insert(area@, row@));
        }
    }

    /// The dataset that files hold: that of the runs, those of the areas, each with the name of
    /// its area, and that of the total, if it is there. Fails where one of them does not have
    /// one entry per run.
    pub fn load(
        runs: Vec<RunMeta>,
        area_files: Vec<(String, AreaFile)>,
        total: Option<AreaFile>,
    ) -> (r: Result<SummaryStore, Misaligned>)
        ensures
            r matches Ok(store) ==> {
                &&& all_aligned(area_files@, runs@.len())
                &&& total matches Some(file) ==> file.scores@.len() == runs@.len()
                &&& store.wf()
                &&& store.runs == runs
                &&& store@.areas == loaded_rows(area_files@, total)
            },
            r matches Err(e) ==> {
                ||| exists|i: int|
                    0 <= i < area_files@.len() && all_aligned(area_files@.take(i), runs@.len()) && (
                    #[trigger] area_files@[i]).1.scores@.len() != runs@.len() && e.name@
                        == area_files@[i].0@
                ||| all_aligned(area_files@, runs@.len()) && total is Some
                    && total->0.scores@.len() != runs@.len() && e.name@ == "total"@
            },
    {
        let run_count = runs.len();
        let mut store = SummaryStore { runs, areas: AreaMap::new() };
        let ghost all = area_files@;
        proof {
            assert(store@.areas =~= rows_of(all.take(0)));
        }
        for file in it: area_files
            invariant
                it.seq() == all,
                store.wf(),
                store.runs == runs,
                run_count == runs@.len(),
                all_aligned(all.take(it.index() as int), runs@.len()),
                store@.areas == rows_of(all.take(it.index() as int)),
        {
            let ghost k = it.index() as int;
            proof {
                assert(file == all[k]);
                assert(all.take(k + 1).drop_last() =~= all.take(k));
                assert(all.take(k + 1) =~= all.take(k).push(all[k]));
            }
            let (area, file) = file;
            match load_area_file(area.as_str(), file, run_count) {
                Ok(row) => {
                    store.put_row(area, row);
                },
                Err(e) => {
                    return Err(e);
                },
            }
        }
        assert(all.take(all.len() as int) =~= all);
        match total {
            Some(file) => match load_area_file("total", file, run_count) {
                Ok(row) => {
                    store.put_row(TOTAL_AREA.to_owned(), row);
                },
                Err(e) => {
                    return Err(e);
                },
            },
            None => {},
        }
        Ok(store)
    }
}

/// What a file of a dataset lists, one line each.
pub enum FileContent {
    /// The metadata of the runs.
    Runs,
    /// The scores in the row of the area at this place.
    Area(usize),
}

/// A file of a dataset: where it stands, how it begins, and what it lists.
pub struct PlannedFile {
    pub path: String,
    pub header: String,
    pub content: FileContent,
}

/// How the file of the runs begins.
pub const RUNS_HEADER: &'static str = "{\n\"runs\":[\n";

/// How the file of an area begins.
pub const SCORES_HEADER: &'static str = "{\n\"scores\":[\n";

/// Whether a file is the one of the runs.
pub open spec fn is_runs_file(file: PlannedFile, dir: Seq<char>) -> bool {
    &&& file.path@ == below(dir, "runs.json"@)
    &&& file.header@ == RUNS_HEADER@
    &&& file.content is Runs
}

/// Whether a file is the one of the area at a place.
pub open spec fn is_area_file(
    file: PlannedFile,
    dir: Seq<char>,
    areas: AreaMap<Row>,
    at: int,
) -> bool {
    &&& file.path@ == area_file(dir, areas.names@[at]@)
    &&& file.header@ == SCORES_HEADER@
    &&& file.content matches FileContent::Area(k) && k == at
}

impl SummaryStore {
    /// The files to write the dataset to: runs.json, and one per area.
    pub fn write(&self, dir: &str) -> (r: Vec<PlannedFile>)
        ensures
            r@.len() == self.areas.names@.len() + 1,
            is_runs_file(r@[0], dir@),
            forall|i: int|
                0 <= i < self.areas.names@.len() ==> is_area_file(
                    #[trigger] r@[i + 1],
                    dir@,
                    self.areas,
                    i,
                ),
    {
        let mut r: Vec<PlannedFile> = Vec::new();
        r.push(
            PlannedFile {
                path: path_below(dir, "runs.json"),
                header: RUNS_HEADER.to_owned(),
                content: FileContent::Runs,
            },
        );
        let mut i: usize = 0;
        while i < self.areas.names.len()
            invariant
                i <= self.areas.names@.len(),
                r@.len() == i + 1,
                is_runs_file(r@[0], dir@),
                forall|k: int|
                    0 <= k < i ==> is_area_file(#[trigger] r@[k + 1], dir@, self.areas, k),
            decreases self.areas.names.len() - i,
        {
            let ghost before = r@;
            let file = PlannedFile {
                path: area_path(dir, self.areas.names[i].as_str()),
                header: SCORES_HEADER.to_owned(),
                content: FileContent::Area(i),
            };
            r.push(file);
            proof {
                assert forall|k: int| 0 <= k < i + 1 implies is_area_file(
                    #[trigger] r@[k + 1],
                    dir@,
                    self.areas,
                    k,
                ) by {
                    if k < i {
                        assert(r@[k + 1] == before[k + 1]);
                    }
                }
            }
            i = i + 1;
        }
        r
    }
}

/// How every file ends.
pub const FOOTER: &'static str = "\n]}\n";

/// The contents of a file: its header, its lines with a comma and a line break between each
/// two, and its end.
pub open spec fn json_lines(header: Seq<char>, lines: Seq<Seq<char>>) -> Seq<char> {
    header + joined(lines, ",\n"@) + FOOTER@
}

/// The contents of a file, with one line per run so that appends produce one-line diffs.
pub fn write_json_lines(header: &str, lines: &Vec<String>) -> (r: String)
    ensures
        r@ == json_lines(header@, texts(lines@)),
{
    let body = join(lines.as_slice(), ",\n");
    let mut r = concat(header, body.as_str());
    r.append(FOOTER);
    r
}

/// What stands before the names of what a directory holds.
spec fn root(dir: Seq<char>) -> Seq<char> {
    if dir.len() == 0 || dir.last() == '/' {
        dir
    } else {
        dir + "/"@
    }
}

proof fn lemma_paths(dir: Seq<char>, area: Seq<char>)
    requires
        area.len() > 0 ==> area[0] != '/',
    ensures
        below(dir, "runs.json"@) == root(dir) + "runs.json"@,
        area == TOTAL_AREA@ ==> area_file(dir, area) == root(dir) + "total.json"@,
        area != TOTAL_AREA@ ==> area_file(dir, area) == root(dir) + "areas/"@ + area + ".json"@,
{
    reveal_strlit("");
    reveal_strlit("/");
    reveal_strlit("runs.json");
    reveal_strlit("total.json");
    reveal_strlit("areas");
    reveal_strlit("areas/");
    reveal_strlit(".json");
    assert(below(dir, "runs.json"@) =~= root(dir) + "runs.json"@);
    assert(below(dir, "total.json"@) =~= root(dir) + "total.json"@);
    let areas = below(dir, "areas"@);
    assert(areas =~= root(dir) + "areas"@);
    assert(areas.last() == 's');
    if area != TOTAL_AREA@ {
        assert(area.len() > 0) by {
            if area.len() == 0 {
                assert(area =~= TOTAL_AREA@);
            }
        }
        assert(below(areas, area + ".json"@) =~= root(dir) + "areas/"@ + area + ".json"@);
    }
}

/// The files of a dataset do not collide: areas have different files, the total among them, and
/// none of them is that of the runs.
pub proof fn law_files_differ(dir: Seq<char>, a: Seq<char>, b: Seq<char>)
    requires
        a.len() > 0 ==> a[0] != '/',
        b.len() > 0 ==> b[0] != '/',
        a != b,
    ensures
        area_file(dir, a) != area_file(dir, b),
        area_file(dir, a) != below(dir, "runs.json"@),
{
    reveal_strlit("runs.json");
    reveal_strlit("total.json");
    reveal_strlit("areas/");
    reveal_strlit(".json");
    lemma_paths(dir, a);
    lemma_paths(dir, b);
    let n = root(dir).len() as int;
    let (x, y) = (area_file(dir, a), area_file(dir, b));
    assert(x[n] == if a == TOTAL_AREA@ { 't' } else { 'a' });
    assert(y[n] == if b == TOTAL_AREA@ { 't' } else { 'a' });
    assert(below(dir, "runs.json"@)[n] == 'r');
    if x == y {
        assert(a != TOTAL_AREA@ && b != TOTAL_AREA@);
        assert(x.len() == n + 6 + a.len() + 5);
        assert(y.len() == n + 6 + b.len() + 5);
        assert(x.subrange(n + 6, n + 6 + a.len()) =~= a);
        assert(y.subrange(n + 6, n + 6 + b.len()) =~= b);
    }
}

/// The prefix of the areas in a directory that is reached through these, from `areas/` down.
pub open spec fn walked(dirs: Seq<Seq<char>>) -> Seq<char>
    decreases dirs.len(),
{
    if dirs.len() == 0 {
        Seq::empty()
    } else {
        directory_prefix(walked(dirs.drop_last()), dirs.last())
    }
}

proof fn lemma_walked(area: Seq<char>)
    ensures
        split_at_each(area, '/').len() > 0,
        walked(split_at_each(area, '/').drop_last()) + split_at_each(area, '/').last() == area,
    decreases area.len(),
{
    let parts = split_at_each(area, '/');
    if area.len() == 0 {
        assert(walked(parts.drop_last()) + parts.last() =~= area);
    } else {
        reveal_strlit("/");
        let before = split_at_each(area.drop_last(), '/');
        lemma_walked(area.drop_last());
        if area.last() == '/' {
            assert(parts.drop_last() =~= before);
            assert(walked(before) + parts.last() =~= area);
        } else {
            assert(parts.drop_last() =~= before.drop_last());
            assert(parts.last() == before.last().push(area.last()));
            assert(walked(before.drop_last()) + before.last() == area.drop_last());
            assert(area.drop_last().push(area.last()) =~= area);
            assert(walked(before.drop_last()) + parts.last() =~= area);
        }
    }
}

/// The area that a file was written for is found again: walking down the directories below
/// `areas/` and reading the name of the file gives its name. (The file of an area whose name
/// ends with a slash has nothing but an extension for its name, and is not read.)
pub proof fn law_area_found(dir: Seq<char>, area: Seq<char>)
    requires
        area.len() > 0,
        area[0] != '/',
        area.last() != '/',
    ensures
        ({
            let parts = split_at_each(area, '/');
            let prefix = walked(parts.drop_last());
            let file_name = parts.last() + ".json"@;
            &&& area_file(dir, area) == below(dir, "areas"@) + "/"@ + prefix + file_name
            &&& file_area(prefix, file_name) == Some(area)
        }),
{
    reveal_strlit("");
    reveal_strlit("/");
    reveal_strlit("areas");
    reveal_strlit("areas/");
    reveal_strlit(".json");
    reveal_strlit("json");
    let parts = split_at_each(area, '/');
    let prefix = walked(parts.drop_last());
    let stem = parts.last();
    let file_name = stem + ".json"@;
    lemma_walked(area);
    lemma_paths(dir, area);
    assert(area != TOTAL_AREA@);
    assert(stem.len() > 0);
    assert(below(dir, "areas"@) =~= root(dir) + "areas"@);
    assert(area_file(dir, area) =~= below(dir, "areas"@) + "/"@ + prefix + file_name);
    lemma_last_position(file_name, '.');
    let dot = last_position(file_name, '.');
    assert(file_name[stem.len() as int] == '.');
    assert(dot == stem.len()) by {
        if dot > stem.len() {
            assert(file_name[dot] == ".json"@[dot - stem.len()]);
        }
    }
    assert(file_name.skip(dot + 1) =~= "json"@);
    assert(file_name.take(dot) =~= stem);
}

/// Whether files hold the rows of a dataset.
pub open spec fn are_files_of(
    files: Seq<(String, AreaFile)>,
    total: Option<AreaFile>,
    store: StoreView,
) -> bool {
    &&& forall|i: int|
        0 <= i < files.len() ==> {
            let (name, file) = #[trigger] files[i];
            &&& name@ != TOTAL_AREA@
            &&& store.areas.contains_key(name@)
            &&& file.scores@ == store.areas[name@]
        }
    &&& forall|a: Seq<char>| #[trigger]
        store.areas.contains_key(a) && a != TOTAL_AREA@ ==> exists|i: int|
            0 <= i < files.len() && (#[trigger] files[i]).0@ == a
    &&& total is Some <==> store.areas.contains_key(TOTAL_AREA@)
    &&& total matches Some(file) ==> file.scores@ == store.areas[TOTAL_AREA@]
}

proof fn lemma_rows_of(files: Seq<(String, AreaFile)>, store: StoreView)
    requires
        forall|i: int|
            0 <= i < files.len() ==> {
                let (name, file) = #[trigger] files[i];
                store.areas.contains_key(name@) && file.scores@ == store.areas[name@]
            },
    ensures
        forall|a: Seq<char>| #[trigger]
            rows_of(files).contains_key(a) <==> exists|i: int|
                0 <= i < files.len() && (#[trigger] files[i]).0@ == a,
        forall|a: Seq<char>| #[trigger]
            rows_of(files).contains_key(a) ==> store.areas.contains_key(a) && rows_of(files)[a]
                == store.areas[a],
    decreases files.len(),
{
    if files.len() > 0 {
        let rest = files.drop_last();
        let last = files[files.len() - 1];
        assert forall|i: int| 0 <= i < rest.len() implies {
            let (name, file) = #[trigger] rest[i];
            store.areas.contains_key(name@) && file.scores@ == store.areas[name@]
        } by {
            assert(rest[i] == files[i]);
        }
        lemma_rows_of(rest, store);
        assert(store.areas.contains_key(last.0@) && last.1.scores@ == store.areas[last.0@]);
        assert forall|a: Seq<char>| #[trigger] rows_of(files).contains_key(a) implies
            store.areas.contains_key(a) && rows_of(files)[a] == store.areas[a] by {
            if a != last.0@ {
                assert(rows_of(rest).contains_key(a));
            }
        }
        assert forall|a: Seq<char>| #[trigger]
            rows_of(files).contains_key(a) <==> exists|i: int|
                0 <= i < files.len() && (#[trigger] files[i]).0@ == a by {
            if rows_of(rest).contains_key(a) {
                let i = choose|i: int| 0 <= i < rest.len() && (#[trigger] rest[i]).0@ == a;
                assert(files[i].0@ == a);
            }
            if exists|i: int| 0 <= i < files.len() && (#[trigger] files[i]).0@ == a {
                let i = choose|i: int| 0 <= i < files.len() && (#[trigger] files[i]).0@ == a;
                if i < rest.len() {
                    assert(rest[i].0@ == a);
                }
            }
        }
    }
}

/// Loading gives back the dataset that was written, in whichever order its files are found.
pub proof fn law_load_undoes_write(
    store: StoreView,
    files: Seq<(String, AreaFile)>,
    total: Option<AreaFile>,
)
    requires
        store.is_aligned(),
        are_files_of(files, total, store),
    ensures
        all_aligned(files, store.runs.len()),
        total matches Some(file) ==> file.scores@.len() == store.runs.len(),
        loaded_rows(files, total) == store.areas,
{
    assert forall|i: int| 0 <= i < files.len() implies (#[trigger] files[i]).1.scores@.len()
        == store.runs.len() by {
        assert(store.areas.contains_key(files[i].0@));
    }
    lemma_rows_of(files, store);
    assert(loaded_rows(files, total) =~= store.areas);
}

/// A run more changes a file in one place only: what stood before its end still does, and a line
/// follows before the end.
pub proof fn law_one_line_more(header: Seq<char>, lines: Seq<Seq<char>>, line: Seq<char>)
    requires
        lines.len() > 0,
    ensures
        json_lines(header, lines) == header + joined(lines, ",\n"@) + FOOTER@,
        json_lines(header, lines.push(line)) == header + joined(lines, ",\n"@) + ",\n"@ + line
            + FOOTER@,
{
    assert(lines.push(line).drop_last() =~= lines);
    assert(json_lines(header, lines.push(line)) =~= header + joined(lines, ",\n"@) + ",\n"@ + line
        + FOOTER@);
}

proof fn lemma_split_concat(a: Seq<char>, b: Seq<char>, c: char)
    ensures
        split_at_each(a + seq![c] + b, c) == split_at_each(a, c) + split_at_each(b, c),
    decreases b.len(),
{
    let both = a + seq![c] + b;
    if b.len() == 0 {
        assert(both.drop_last() =~= a);
        assert(split_at_each(both, c) =~= split_at_each(a, c) + split_at_each(b, c));
    } else {
        let rest = b.drop_last();
        assert(both.drop_last() =~= a + seq![c] + rest);
        lemma_split_concat(a, rest, c);
        lemma_split_nonempty(rest, c);
        assert(split_at_each(both, c) =~= split_at_each(a, c) + split_at_each(b, c));
    }
}

proof fn lemma_split_nonempty(s: Seq<char>, c: char)
    ensures
        split_at_each(s, c).len() > 0,
    decreases s.len(),
{
    if s.len() > 0 {
        lemma_split_nonempty(s.drop_last(), c);
    }
}

proof fn lemma_split_whole(s: Seq<char>, c: char)
    requires
        !s.contains(c),
    ensures
        split_at_each(s, c) == seq![s],
    decreases s.len(),
{
    if s.len() > 0 {
        assert(!s.drop_last().contains(c)) by {
            assert forall|i: int| 0 <= i < s.len() - 1 implies s.drop_last()[i] != c by {
                assert(s[i] != c);
            }
        }
        lemma_split_whole(s.drop_last(), c);
        assert(s.last() != c) by {
            assert(s[s.len() - 1] == s.last());
        }
        assert(s.drop_last().push(s.last()) =~= s);
        assert(split_at_each(s, c) =~= seq![s]);
    } else {
        assert(s =~= Seq::<char>::empty());
    }
}

/// What stands on the line of a run: the line, and a comma unless it is the last.
pub open spec fn text_lines(lines: Seq<Seq<char>>) -> Seq<Seq<char>> {
    Seq::new(
        lines.len(),
        |i: int|
            if i < lines.len() - 1 {
                lines[i].push(',')
            } else {
                lines[i]
            },
    )
}

/// Files have one line per run, as long as what is listed has no line breaks.
pub proof fn law_one_line_per_run(lines: Seq<Seq<char>>)
    requires
        lines.len() > 0,
        forall|i: int| 0 <= i < lines.len() ==> !(#[trigger] lines[i]).contains('\n'),
    ensures
        split_at_each(joined(lines, ",\n"@), '\n') == text_lines(lines),
    decreases lines.len(),
{
    reveal_strlit(",\n");
    let last = lines[lines.len() - 1];
    lemma_split_whole(last, '\n');
    if lines.len() == 1 {
        assert(split_at_each(joined(lines, ",\n"@), '\n') =~= text_lines(lines));
    } else {
        let rest = lines.drop_last();
        assert forall|i: int| 0 <= i < rest.len() implies !(#[trigger] rest[i]).contains('\n') by {
            assert(rest[i] == lines[i]);
        }
        law_one_line_per_run(rest);
        let head = joined(rest, ",\n"@);
        let comma = head.push(',');
        assert(joined(lines, ",\n"@) =~= comma + seq!['\n'] + last);
        lemma_split_concat(comma, last, '\n');
        assert(comma.drop_last() =~= head);
        assert(split_at_each(comma, '\n') =~= text_lines(rest).drop_last().push(
            text_lines(rest).last().push(','),
        ));
        assert(split_at_each(joined(lines, ",\n"@), '\n') =~= text_lines(lines));
    }
}

}
