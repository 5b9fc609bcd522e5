//! What holds of the files of a dataset.

use vstd::prelude::*;
use vstd::string::*;

use crate::area_map::AreaMap;
use crate::files::{all_aligned, area_file, below, directory_prefix, file_area, is_area_file};
use crate::files::{is_runs_file, json_lines, loaded_rows, rows_of, AreaFile, FileContent};
use crate::files::PlannedFile;
use crate::summary::{Row, TOTAL_AREA};
use crate::text::{joined, last_position, lemma_last_position};
use crate::text_laws::law_last_place;

verus! {

/// A path is put below another after one slash; where the other is empty or ends with a slash, none
/// is added, and a path that begins with one stands for itself.
pub proof fn law_paths_below(base: Seq<char>, part: Seq<char>)
    ensures
        part.len() > 0 && part[0] == '/' ==> below(base, part) == part,
        (part.len() == 0 || part[0] != '/') && base.len() > 0 && base.last() != '/' ==> below(
            base,
            part,
        ) == base.push('/') + part,
        (part.len() == 0 || part[0] != '/') && (base.len() == 0 || base.last() == '/') ==> below(
            base,
            part,
        ) == base + part,
{
    reveal_strlit("/");
    assert(base + "/"@ =~= base.push('/'));
}

/// The file of an area is below `areas`, at the path of the area and with the extension `json`; that
/// of the total, the area without a name, is `total.json`.
pub proof fn law_area_paths(dir: Seq<char>, area: Seq<char>)
    requires
        dir.len() > 0 ==> dir.last() != '/',
    ensures
        area.len() == 0 && dir.len() > 0 ==> area_file(dir, area) == dir + "/total.json"@,
        area.len() == 0 && dir.len() == 0 ==> area_file(dir, area) == "total.json"@,
        area.len() > 0 && area[0] != '/' && dir.len() > 0 ==> area_file(dir, area) == dir
            + "/areas/"@ + area + ".json"@,
        area.len() > 0 && area[0] != '/' && dir.len() == 0 ==> area_file(dir, area) == "areas/"@
            + area + ".json"@,
{
    reveal_strlit("");
    reveal_strlit("/");
    reveal_strlit("total.json");
    reveal_strlit("/total.json");
    reveal_strlit("areas");
    reveal_strlit("areas/");
    reveal_strlit("/areas/");
    reveal_strlit(".json");
    if area.len() == 0 {
        assert(area =~= TOTAL_AREA@);
        assert(area_file(dir, area) =~= if dir.len() > 0 {
            dir + "/total.json"@
        } else {
            "total.json"@
        });
    } else if area[0] != '/' {
        assert(area != TOTAL_AREA@);
        let areas = below(dir, "areas"@);
        assert(areas.last() == 's');
        assert(area_file(dir, area) =~= if dir.len() > 0 {
            dir + "/areas/"@ + area + ".json"@
        } else {
            "areas/"@ + area + ".json"@
        });
    }
}

/// A file holds an area if and only if its name is more than an extension and the extension is
/// `json`; the area is named by the prefix of the directory and what stands before the extension.
pub proof fn law_files_with_areas(prefix: Seq<char>, stem: Seq<char>, name: Seq<char>)
    ensures
        stem.len() > 0 ==> file_area(prefix, stem + ".json"@) == Some(prefix + stem),
        file_area(prefix, ".json"@) is None,
        file_area(prefix, name) is Some ==> exists|s: Seq<char>|
            s.len() > 0 && name == #[trigger] (s + ".json"@),
        file_area(Seq::empty(), name) is Some ==> file_area(prefix, name) == Some(
            prefix + file_area(Seq::empty(), name)->0,
        ),
{
    reveal_strlit(".json");
    reveal_strlit("json");
    let rest = "json"@;
    assert(!rest.contains('.')) by {
        assert forall|i: int| 0 <= i < rest.len() implies rest[i] != '.' by {}
    }
    law_last_place(stem, '.', rest);
    assert(stem + ".json"@ =~= stem + seq!['.'] + rest);
    assert((stem + ".json"@).skip(stem.len() as int + 1) =~= rest);
    assert((stem + ".json"@).take(stem.len() as int) =~= stem);
    law_last_place(Seq::empty(), '.', rest);
    assert(".json"@ =~= Seq::<char>::empty() + seq!['.'] + rest);
    if file_area(prefix, name) is Some {
        lemma_last_position(name, '.');
        let dot = last_position(name, '.');
        let s = name.take(dot);
        assert(name =~= s + seq!['.'] + name.skip(dot + 1));
        assert(name =~= s + ".json"@);
    }
    if file_area(Seq::empty(), name) is Some {
        let dot = last_position(name, '.');
        assert(Seq::<char>::empty() + name.take(dot) =~= name.take(dot));
    }
}

/// The areas in a directory are named below its own name.
pub proof fn law_directory_prefix(prefix: Seq<char>, name: Seq<char>)
    ensures
        directory_prefix(prefix, name) == (prefix + name).push('/'),
{
    reveal_strlit("/");
    assert(directory_prefix(prefix, name) =~= (prefix + name).push('/'));
}

/// A file more brings in its row, and leaves those of other areas; the total is the row of the area
/// without a name.
pub proof fn law_file_added(
    files: Seq<(String, AreaFile)>,
    file: (String, AreaFile),
    total: AreaFile,
    area: Seq<char>,
)
    ensures
        rows_of(files.push(file)).contains_key(file.0@),
        rows_of(files.push(file))[file.0@] == file.1.scores@,
        area != file.0@ ==> (rows_of(files.push(file)).contains_key(area) <==> rows_of(
            files,
        ).contains_key(area)),
        area != file.0@ && rows_of(files).contains_key(area) ==> rows_of(files.push(file))[area]
            == rows_of(files)[area],
        !rows_of(Seq::empty()).contains_key(area),
        loaded_rows(files, None) == rows_of(files),
        loaded_rows(files, Some(total)) == rows_of(files).insert(Seq::empty(), total.scores@),
{
    reveal_strlit("");
    assert(files.push(file).drop_last() =~= files);
    assert(TOTAL_AREA@ =~= Seq::<char>::empty());
}

/// Files are aligned if and only if each has exactly one entry per run.
pub proof fn law_alignment(
    files: Seq<(String, AreaFile)>,
    file: (String, AreaFile),
    run_count: nat,
)
    ensures
        all_aligned(files.push(file), run_count) <==> all_aligned(files, run_count)
            && file.1.scores@.len() == run_count,
        all_aligned(Seq::empty(), run_count),
{
    let more = files.push(file);
    if all_aligned(more, run_count) {
        assert(more[files.len() as int] == file);
        assert forall|i: int| 0 <= i < files.len() implies (#[trigger] files[i]).1.scores@.len()
            == run_count by {
            assert(more[i] == files[i]);
        }
    }
}

/// What is written where: the metadata of the runs to `runs.json`, and the row of each area to the
/// file of that area.
pub proof fn law_planned_files(file: PlannedFile, dir: Seq<char>, areas: AreaMap<Row>, at: int)
    ensures
        is_runs_file(file, dir) ==> file.path@ == below(dir, "runs.json"@) && file.header@
            == "{\n\"runs\":[\n"@ && file.content is Runs,
        is_area_file(file, dir, areas, at) ==> file.path@ == area_file(dir, areas.names@[at]@)
            && file.header@ == "{\n\"scores\":[\n"@ && (file.content matches FileContent::Area(k)
            && k == at),
{
}

/// A file is its header, its lines, and its end.
pub proof fn law_file_text(header: Seq<char>, lines: Seq<Seq<char>>, line: Seq<char>)
    ensures
        json_lines(header, Seq::empty()) == header + "\n]}\n"@,
        json_lines(header, seq![line]) == header + line + "\n]}\n"@,
        json_lines(header, lines) == header + joined(lines, ",\n"@) + "\n]}\n"@,
{
    assert(json_lines(header, Seq::empty()) =~= header + "\n]}\n"@);
}

}
