//! Run results out of results-analysis-cache.
//!
//! Every wpt.fyi run is an orphan commit tagged `run/<id>/results`, whose tree mirrors the WPT
//! directory structure with one JSON blob per test at `<dirs>/<url-encoded test file
//! name>.json`. Blobs are the test's wptreport entry reduced to `status`, `name` and
//! `subtests[].{name,status}`.

use vstd::prelude::*;
use vstd::string::*;
use vstd::utf8::{decode_utf8, encode_utf8, valid_utf8};
use vstd::utf8::{encode_utf8_decode_utf8, encode_utf8_valid_utf8};
use wptreport::SubtestCounts;

use crate::process::subtree_tests;
use crate::score::{area_tests, law_counts_ignore_order};
use crate::score::{subtests_passed, subtests_total, tests_passed};
use crate::score::{test_views, RunResults, TestCounts, TestView};
use crate::sort::{lemma_filter_ignores_order, lemma_map_ignores_order};
use crate::text::{concat, decimal, decimal_text, find_last, last_position, same_text, slice};
use crate::text::{begins_with, ends_with, lemma_decimal_injective};
use crate::text::{lemma_last_position, strip_suffix, trim_both, trim_matches, without_suffix};
use crate::wptfyi::{law_v2_order, unslashed, v2_test, v2_tests, v2_views, SummaryV2Entry};

verus! {

/// The name of the tag of a run.
pub open spec fn tag_text(run_id: u64) -> Seq<char> {
    "refs/tags/run/"@ + decimal_text(run_id as nat) + "/results"@
}

/// The name of the tag of a run.
pub fn tag_name(run_id: u64) -> (r: String)
    ensures
        r@ == tag_text(run_id),
{
    let id = decimal(run_id);
    let mut r = concat("refs/tags/run/", id.as_str());
    r.append("/results");
    r
}

/// The value of a hexadecimal digit.
pub open spec fn hex_value(b: u8) -> Option<u8> {
    if 0x30 <= b <= 0x39 {
        Some((b - 0x30) as u8)
    } else if 0x41 <= b <= 0x46 {
        Some((b - 0x41 + 10) as u8)
    } else if 0x61 <= b <= 0x66 {
        Some((b - 0x61 + 10) as u8)
    } else {
        None
    }
}

/// Bytes with every `%` that two hexadecimal digits follow decoded.
pub open spec fn percent_bytes(b: Seq<u8>) -> Seq<u8>
    decreases b.len(),
{
    if b.len() == 0 {
        b
    } else if b[0] == 0x25 && b.len() >= 3 && hex_value(b[1]) is Some && hex_value(b[2]) is Some {
        seq![(hex_value(b[1])->0 * 16 + hex_value(b[2])->0) as u8] + percent_bytes(b.skip(3))
    } else {
        seq![b[0]] + percent_bytes(b.skip(1))
    }
}

/// What `percent_encoding` makes of a text: its percent-decoding, read as UTF-8, with
/// replacement characters for what is not.
pub uninterp spec fn percent_decoded(text: Seq<char>) -> Seq<char>;

/// Calls `percent_encoding`'s `percent_decode_str` and `decode_utf8_lossy`. Believed: the
/// result is a function of the text, and where the decoded bytes are UTF-8, it is the string
/// that they encode. Where replacement characters stand otherwise is left unsaid.
#[verifier::external_body]
fn percent_decode(text: &str) -> (r: String)
    ensures
        r@ == percent_decoded(text@),
        valid_utf8(percent_bytes(encode_utf8(text@))) ==> r@ == decode_utf8(
            percent_bytes(encode_utf8(text@)),
        ),
{
    percent_encoding::percent_decode_str(text).decode_utf8_lossy().into_owned()
}

/// Calls `std::str::from_utf8`. Believed: it gives the string that the bytes encode, where
/// they are UTF-8, and else an error.
#[verifier::external_body]
fn utf8_text(bytes: &[u8]) -> (r: Option<&str>)
    ensures
        r is Some <==> valid_utf8(bytes@),
        r is Some ==> r->0@ == decode_utf8(bytes@),
{
    std::str::from_utf8(bytes).ok()
}

/// What a percent-encoded text stands for.
pub open spec fn decoded_name(text: Seq<char>) -> Seq<char> {
    let bytes = percent_bytes(encode_utf8(text));
    if valid_utf8(bytes) {
        decode_utf8(bytes)
    } else {
        percent_decoded(text)
    }
}

/// The path of a test, by the directories and the name of its blob.
pub open spec fn joined_path(prefix: Seq<char>, dirs: Seq<char>, name: Seq<char>) -> Seq<char> {
    if dirs.len() == 0 {
        prefix + name
    } else {
        prefix + dirs + "/"@ + name
    }
}

/// Puts together the path of a test.
pub fn join_path(prefix: &str, dirs: &str, name: &str) -> (r: String)
    ensures
        r@ == joined_path(prefix@, dirs@, name@),
{
    let mut r = prefix.to_owned();
    if !dirs.is_empty() {
        r.append(dirs);
        r.append("/");
    }
    r.append(name);
    r
}

/// The directories of a blob.
pub open spec fn blob_dirs(filepath: Seq<char>) -> Seq<char> {
    let path = without_suffix(filepath, ".json"@);
    let at = last_position(path, '/');
    if at < 0 {
        Seq::empty()
    } else {
        path.take(at)
    }
}

/// The encoded name of the test of a blob.
pub open spec fn blob_name(filepath: Seq<char>) -> Seq<char> {
    let path = without_suffix(filepath, ".json"@);
    path.skip(last_position(path, '/') + 1)
}

/// The path of the test of a blob.
pub open spec fn blob_test_path(prefix: Seq<char>, filepath: Seq<char>) -> Seq<char> {
    joined_path(prefix, blob_dirs(filepath), decoded_name(blob_name(filepath)))
}

/// Convert a blob path in the cache (`css/css-flexbox/foo.html%3Fa%3Db.json`) back into a WPT
/// test path (`css/css-flexbox/foo.html?a=b`); `None` where it is not UTF-8.
pub fn test_path(prefix: &str, filepath: &[u8]) -> (r: Option<String>)
    ensures
        r is Some <==> valid_utf8(filepath@),
        r matches Some(path) ==> path@ == blob_test_path(prefix@, decode_utf8(filepath@)),
{
    let text = match utf8_text(filepath) {
        Some(text) => text,
        None => {
            return None;
        },
    };
    let path = strip_suffix(text, ".json");
    match find_last(path.as_str(), '/') {
        Some(at) => {
            let dirs = slice(path.as_str(), 0, at);
            let len: usize = path.as_str().unicode_len();
            let encoded = slice(path.as_str(), at + 1, len);
            assert(dirs@ =~= path@.take(at as int));
            assert(encoded@ =~= path@.skip(at + 1));
            let name = percent_decode(encoded.as_str());
            Some(join_path(prefix, dirs.as_str(), name.as_str()))
        },
        None => {
            proof {
                reveal_strlit("");
                assert(""@ =~= Seq::<char>::empty());
                assert(path@.skip(0) =~= path@);
            }
            let name = percent_decode(path.as_str());
            Some(join_path(prefix, "", name.as_str()))
        },
    }
}

/// A test's blob.
pub struct CachedTest {
    pub status: String,
    pub subtests: Vec<CachedSubtest>,
}

/// A subtest in a test's blob.
pub struct CachedSubtest {
    pub status: String,
}

/// A blob of a run's tree, with its path below the tree.
pub struct CachedBlob {
    pub filepath: Vec<u8>,
    pub test: CachedTest,
}

/// The number of subtests that pass.
pub open spec fn passing(subtests: Seq<CachedSubtest>) -> nat {
    subtests.filter(|s: CachedSubtest| s.status@ == "PASS"@).len()
}

/// The number of subtests that pass.
fn count_passing(subtests: &Vec<CachedSubtest>) -> (r: usize)
    ensures
        r == passing(subtests@),
        r <= subtests@.len(),
{
    let mut r: usize = 0;
    let mut i: usize = 0;
    while i < subtests.len()
        invariant
            i <= subtests.len(),
            r <= i,
            r == passing(subtests@.take(i as int)),
        decreases subtests.len() - i,
    {
        proof {
            reveal(Seq::filter);
            assert(subtests@.take(i + 1).drop_last() =~= subtests@.take(i as int));
            assert(subtests@.take(i + 1).last() == subtests@[i as int]);
        }
        if same_text(subtests[i].status.as_str(), "PASS") {
            r = r + 1;
        }
        i = i + 1;
    }
    assert(subtests@.take(subtests@.len() as int) =~= subtests@);
    r
}

impl CachedBlob {
    /// Whether the test was skipped.
    pub open spec fn skipped(self) -> bool {
        self.test.status@ == "SKIP"@
    }

    /// The test that the blob stands for.
    pub open spec fn test_view(self, prefix: Seq<char>) -> TestView {
        TestView {
            path: blob_test_path(prefix, decode_utf8(self.filepath@)),
            passes: self.test.status@ == "PASS"@,
            pass: passing(self.test.subtests@) as u32,
            total: self.test.subtests@.len() as u32,
        }
    }
}

/// What stands before the paths of the tests of a subtree: its name, without slashes at the
/// ends, and a slash.
pub open spec fn subtree_prefix(subtree: Seq<char>) -> Seq<char> {
    trim_both(subtree, '/') + "/"@
}

/// What stands before the paths of the tests of a subtree.
pub fn path_prefix(subtree: &str) -> (r: String)
    ensures
        r@ == subtree_prefix(subtree@),
{
    let mut r = trim_matches(subtree, '/');
    r.append("/");
    r
}

/// What stands before the paths of the tests of a run, by the subtree that it is restricted to.
pub open spec fn run_prefix(subtree: Option<&str>) -> Seq<char> {
    match subtree {
        Some(name) => subtree_prefix(name@),
        None => Seq::empty(),
    }
}

/// The blobs of tests that were not skipped.
pub open spec fn unskipped(blobs: Seq<CachedBlob>) -> Seq<CachedBlob> {
    blobs.filter(|b: CachedBlob| !b.skipped())
}

/// The tests of blobs, without those that were skipped.
pub open spec fn cached_tests(prefix: Seq<char>, blobs: Seq<CachedBlob>) -> Seq<TestView> {
    unskipped(blobs).map_values(|b: CachedBlob| b.test_view(prefix))
}

/// Whether the path of a blob that is read can be read.
pub open spec fn readable(blob: CachedBlob) -> bool {
    blob.skipped() || valid_utf8(blob.filepath@)
}

/// Whether the paths of all blobs that are read can be read.
pub open spec fn all_readable(blobs: Seq<CachedBlob>) -> bool {
    forall|i: int| 0 <= i < blobs.len() ==> readable(#[trigger] blobs[i])
}

/// The path of a blob is not UTF-8.
#[derive(Debug)]
pub struct PathError {
    pub filepath: Vec<u8>,
}

/// Read a run's results out of the blobs of its tree, or of its subtree where it is restricted
/// to one (e.g. `css`). Skipped tests are dropped. Returns `None` if there is no other test,
/// which happens for some early runs whose raw report was unavailable.
pub fn read_run(subtree: Option<&str>, blobs: Vec<CachedBlob>) -> (r: Result<
    Option<RunResults>,
    PathError,
>)
    ensures
        r matches Ok(None) ==> unskipped(blobs@).len() == 0,
        r matches Ok(Some(results)) ==> unskipped(blobs@).len() > 0 && all_readable(blobs@)
            && results@ == cached_tests(run_prefix(subtree), blobs@),
        r matches Err(e) ==> exists|i: int|
            0 <= i < blobs@.len() && all_readable(blobs@.take(i)) && !readable(
                #[trigger] blobs@[i],
            ) && e.filepath@ == blobs@[i].filepath@,
{
    let prefix = match subtree {
        Some(name) => path_prefix(name),
        None => String::new(),
    };
    let mut tests: Vec<TestCounts> = Vec::new();
    let mut i: usize = 0;
    while i < blobs.len()
        invariant
            i <= blobs.len(),
            prefix@ == run_prefix(subtree),
            all_readable(blobs@.take(i as int)),
            test_views(tests@) == cached_tests(prefix@, blobs@.take(i as int)),
            tests@.len() == unskipped(blobs@.take(i as int)).len(),
        decreases blobs.len() - i,
    {
        let blob = &blobs[i];
        let ghost before = test_views(tests@);
        proof {
            reveal(Seq::filter);
            assert(blobs@.take(i + 1).drop_last() =~= blobs@.take(i as int));
            assert(blobs@.take(i + 1).last() == blobs@[i as int]);
            assert(blobs@.take(i + 1) =~= blobs@.take(i as int).push(blobs@[i as int]));
        }
        if !same_text(blob.test.status.as_str(), "SKIP") {
            let path = match test_path(prefix.as_str(), blob.filepath.as_slice()) {
                Some(path) => path,
                None => {
                    return Err(PathError { filepath: copy_bytes(&blob.filepath) });
                },
            };
            let test = TestCounts {
                path,
                passes: same_text(blob.test.status.as_str(), "PASS"),
                subtests: SubtestCounts {
                    pass: count_passing(&blob.test.subtests) as u32,
                    total: blob.test.subtests.len() as u32,
                },
            };
            tests.push(test);
            proof {
                assert(test_views(tests@) =~= before.push(test@));
                assert(test_views(tests@) =~= cached_tests(prefix@, blobs@.take(i + 1)));
            }
        }
        i = i + 1;
    }
    assert(blobs@.take(blobs@.len() as int) =~= blobs@);
    if tests.is_empty() {
        Ok(None)
    } else {
        Ok(Some(RunResults { tests }))
    }
}

fn copy_bytes(bytes: &Vec<u8>) -> (r: Vec<u8>)
    ensures
        r@ == bytes@,
{
    let r = bytes.clone();
    assert(r@ =~= bytes@);
    r
}

/// Runs have different tags.
pub proof fn law_tags_differ(a: u64, b: u64)
    requires
        a != b,
    ensures
        tag_text(a) != tag_text(b),
{
    if tag_text(a) == tag_text(b) {
        let (head, tail) = ("refs/tags/run/"@, "/results"@);
        let (x, y) = (decimal_text(a as nat), decimal_text(b as nat));
        assert(tag_text(a).len() == head.len() + x.len() + tail.len());
        assert(tag_text(b).len() == head.len() + y.len() + tail.len());
        assert(x =~= tag_text(a).subrange(head.len() as int, (head.len() + x.len()) as int));
        assert(y =~= tag_text(b).subrange(head.len() as int, (head.len() + y.len()) as int));
        lemma_decimal_injective(a as nat, b as nat);
    }
}

/// A hexadecimal digit.
pub open spec fn hex_digit(d: u8) -> u8 {
    if d < 10 {
        (0x30 + d) as u8
    } else {
        (0x41 + d - 10) as u8
    }
}

/// A percent-encoding of bytes: those that are `safe` stand for themselves, and others are
/// written as `%` and two hexadecimal digits.
pub open spec fn percent_encoded(bytes: Seq<u8>, safe: spec_fn(u8) -> bool) -> Seq<u8>
    decreases bytes.len(),
{
    if bytes.len() == 0 {
        bytes
    } else {
        (if safe(bytes[0]) {
            seq![bytes[0]]
        } else {
            seq![0x25u8, hex_digit(bytes[0] / 16), hex_digit(bytes[0] % 16)]
        }) + percent_encoded(bytes.skip(1), safe)
    }
}

/// Decoding undoes encoding, whichever bytes stand for themselves, as long as `%` does not.
pub proof fn law_percent_round_trip(bytes: Seq<u8>, safe: spec_fn(u8) -> bool)
    requires
        !safe(0x25),
    ensures
        percent_bytes(percent_encoded(bytes, safe)) == bytes,
    decreases bytes.len(),
{
    if bytes.len() > 0 {
        let b = bytes[0];
        let rest = percent_encoded(bytes.skip(1), safe);
        let all = percent_encoded(bytes, safe);
        law_percent_round_trip(bytes.skip(1), safe);
        if safe(b) {
            assert(all.skip(1) =~= rest);
        } else {
            assert(all.skip(3) =~= rest);
            assert(hex_value(hex_digit(b / 16)) == Some((b / 16) as u8));
            assert(hex_value(hex_digit(b % 16)) == Some((b % 16) as u8));
        }
        assert(seq![b] + bytes.skip(1) =~= bytes);
    }
}

proof fn lemma_blob_parts(dirs: Seq<char>, name: Seq<char>)
    requires
        !name.contains('/'),
    ensures
        blob_dirs(dirs + "/"@ + name + ".json"@) == dirs,
        blob_name(dirs + "/"@ + name + ".json"@) == name,
{
    reveal_strlit("/");
    let path = dirs + "/"@ + name;
    let file = path + ".json"@;
    assert(file.subrange(path.len() as int, file.len() as int) =~= ".json"@);
    assert(without_suffix(file, ".json"@) =~= path);
    lemma_last_position(path, '/');
    let at = last_position(path, '/');
    assert(path[dirs.len() as int] == '/');
    if at > dirs.len() {
        assert(path[at] == name[at - dirs.len() - 1]);
    }
    assert(at == dirs.len());
    assert(path.take(at) =~= dirs);
    assert(path.skip(at + 1) =~= name);
}

proof fn lemma_blob_alone(name: Seq<char>)
    requires
        !name.contains('/'),
    ensures
        blob_dirs(name + ".json"@) == Seq::<char>::empty(),
        blob_name(name + ".json"@) == name,
{
    let file = name + ".json"@;
    assert(file.subrange(name.len() as int, file.len() as int) =~= ".json"@);
    assert(without_suffix(file, ".json"@) =~= name);
    lemma_last_position(name, '/');
    assert(name.skip(0) =~= name);
}

/// The path of a test is found again from the path of its blob: the directories, and the
/// percent-encoded name of the test's file with `.json` after it.
pub proof fn law_test_path_found(
    prefix: Seq<char>,
    dirs: Seq<char>,
    name: Seq<char>,
    encoded: Seq<char>,
    safe: spec_fn(u8) -> bool,
)
    requires
        !safe(0x25),
        encode_utf8(encoded) == percent_encoded(encode_utf8(name), safe),
        !encoded.contains('/'),
    ensures
        blob_test_path(prefix, dirs + "/"@ + encoded + ".json"@) == joined_path(
            prefix,
            dirs,
            name,
        ),
        blob_test_path(prefix, encoded + ".json"@) == prefix + name,
{
    lemma_blob_parts(dirs, encoded);
    lemma_blob_alone(encoded);
    law_percent_round_trip(encode_utf8(name), safe);
    encode_utf8_valid_utf8(name);
    encode_utf8_decode_utf8(name);
}

/// Where a run is restricted to a subtree, its tests have the paths that they have in the
/// whole tree.
pub proof fn law_subtree_paths(subtree: Seq<char>, filepath: Seq<char>)
    requires
        trim_both(subtree, '/').len() > 0,
        filepath.len() > 0,
        filepath[0] != '/',
    ensures
        blob_test_path(subtree_prefix(subtree), filepath) == blob_test_path(
            Seq::empty(),
            subtree_prefix(subtree) + filepath,
        ),
{
    reveal_strlit("/");
    reveal_strlit(".json");
    let prefix = subtree_prefix(subtree);
    let whole = prefix + filepath;
    let path = without_suffix(filepath, ".json"@);
    let n = whole.len() - 5;
    assert(ends_with(whole, ".json"@) == ends_with(filepath, ".json"@)) by {
        if filepath.len() >= 5 {
            assert(whole.subrange(n, n + 5) =~= filepath.subrange(
                filepath.len() - 5,
                filepath.len() as int,
            ));
        } else if ends_with(whole, ".json"@) {
            assert(whole.subrange(n, n + 5)[prefix.len() - 1 - n] == whole[prefix.len() - 1]);
        }
    }
    assert(without_suffix(whole, ".json"@) =~= prefix + path);
    lemma_last_position(path, '/');
    lemma_last_position(prefix + path, '/');
    let at = last_position(path, '/');
    let both = last_position(prefix + path, '/');
    assert((prefix + path)[prefix.len() - 1] == '/');
    if at >= 0 {
        assert((prefix + path)[prefix.len() + at] == '/');
        assert(path[0] == filepath[0]);
    }
    assert(both == prefix.len() + at) by {
        if both > prefix.len() + at {
            assert(path[both - prefix.len()] == '/');
        }
    }
    assert((prefix + path).skip(both + 1) =~= path.skip(at + 1));
    let name = decoded_name(path.skip(at + 1));
    let dirs = blob_dirs(whole);
    assert(dirs.len() > 0);
    if at >= 0 {
        assert(dirs =~= prefix + path.take(at));
        assert(Seq::<char>::empty() + dirs + "/"@ + name =~= prefix + path.take(at) + "/"@ + name);
    } else {
        assert(dirs + "/"@ =~= prefix);
        assert(Seq::<char>::empty() + dirs + "/"@ + name =~= prefix + name);
    }
}

/// A blob that is read for a subtree stands for the test that it stands for in the whole tree,
/// and that test is one of the subtree.
pub proof fn law_subtree_tests(subtree: Seq<char>, part: CachedBlob, whole: CachedBlob)
    requires
        trim_both(subtree, '/').len() > 0,
        decode_utf8(part.filepath@).len() > 0,
        decode_utf8(part.filepath@)[0] != '/',
        decode_utf8(whole.filepath@) == subtree_prefix(subtree) + decode_utf8(part.filepath@),
        whole.test == part.test,
    ensures
        part.test_view(subtree_prefix(subtree)) == whole.test_view(Seq::empty()),
        begins_with(whole.test_view(Seq::empty()).path, subtree_prefix(subtree)),
{
    law_subtree_paths(subtree, decode_utf8(part.filepath@));
    let prefix = subtree_prefix(subtree);
    let path = blob_test_path(prefix, decode_utf8(part.filepath@));
    assert(path.subrange(0, prefix.len() as int) =~= prefix);
}

/// Whether the name of a blob's test, decoded, has no slash in it.
pub open spec fn has_plain_name(blob: CachedBlob) -> bool {
    !decoded_name(blob_name(decode_utf8(blob.filepath@))).contains('/')
}

/// Whether a blob of the whole tree lies below a subtree.
pub open spec fn lies_below(blob: CachedBlob, subtree: Seq<char>) -> bool {
    begins_with(decode_utf8(blob.filepath@), subtree_prefix(subtree))
}

/// Whether a blob of a subtree is one of the whole tree: the same test, its path with that of the
/// subtree before it.
pub open spec fn is_part_of(part: CachedBlob, whole: CachedBlob, subtree: Seq<char>) -> bool {
    let path = decode_utf8(part.filepath@);
    &&& path.len() > 0
    &&& path[0] != '/'
    &&& decode_utf8(whole.filepath@) == subtree_prefix(subtree) + path
    &&& whole.test == part.test
}

/// The blobs of the whole tree that lie below a subtree.
pub open spec fn blobs_below(wholes: Seq<CachedBlob>, subtree: Seq<char>) -> Seq<CachedBlob> {
    wholes.filter(|b: CachedBlob| lies_below(b, subtree))
}

/// Whether blobs are those of a subtree, in the order in which the whole tree has them.
pub open spec fn are_parts_of(
    parts: Seq<CachedBlob>,
    wholes: Seq<CachedBlob>,
    subtree: Seq<char>,
) -> bool {
    &&& parts.len() == blobs_below(wholes, subtree).len()
    &&& forall|i: int|
        0 <= i < parts.len() ==> is_part_of(
            #[trigger] parts[i],
            blobs_below(wholes, subtree)[i],
            subtree,
        )
}

proof fn lemma_tests_elsewhere(blob: CachedBlob, subtree: Seq<char>)
    requires
        trim_both(subtree, '/').len() > 0,
        has_plain_name(blob),
        !lies_below(blob, subtree),
    ensures
        !begins_with(blob.test_view(Seq::empty()).path, subtree_prefix(subtree)),
{
    reveal_strlit("/");
    let file = decode_utf8(blob.filepath@);
    let prefix = subtree_prefix(subtree);
    let path = without_suffix(file, ".json"@);
    let at = last_position(path, '/');
    let dirs = blob_dirs(file);
    let name = decoded_name(blob_name(file));
    let test = blob_test_path(Seq::empty(), file);
    let n = prefix.len() as int;
    lemma_last_position(path, '/');
    assert(prefix[n - 1] == '/');
    if begins_with(test, prefix) {
        assert(test.subrange(0, n) == prefix);
        assert(test[n - 1] == test.subrange(0, n)[n - 1]);
        if dirs.len() == 0 {
            assert(test =~= name);
            assert(name[n - 1] == '/');
        } else {
            assert(dirs =~= path.take(at));
            assert(n - 1 <= at) by {
                if n - 1 > at {
                    assert(test[n - 1] == name[n - 1 - at - 1]);
                }
            }
            assert forall|i: int| 0 <= i < n implies file[i] == prefix[i] by {
                assert(prefix[i] == test.subrange(0, n)[i]);
                assert(test[i] == path[i]);
            }
            assert(file.subrange(0, n) =~= prefix);
        }
    }
}

proof fn lemma_subtree_list(subtree: Seq<char>, parts: Seq<CachedBlob>, wholes: Seq<CachedBlob>)
    requires
        trim_both(subtree, '/').len() > 0,
        are_parts_of(parts, wholes, subtree),
        forall|i: int| 0 <= i < wholes.len() ==> has_plain_name(#[trigger] wholes[i]),
    ensures
        cached_tests(subtree_prefix(subtree), parts) == subtree_tests(
            cached_tests(Seq::empty(), wholes),
            subtree,
        ),
    decreases wholes.len(),
{
    reveal(Seq::filter);
    let prefix = subtree_prefix(subtree);
    let tests = cached_tests(Seq::empty(), wholes);
    if wholes.len() == 0 {
        assert(cached_tests(prefix, parts) =~= subtree_tests(tests, subtree));
    } else {
        let rest = wholes.drop_last();
        let whole = wholes[wholes.len() - 1];
        let few = cached_tests(Seq::empty(), rest);
        let test = whole.test_view(Seq::empty());
        assert forall|i: int| 0 <= i < rest.len() implies has_plain_name(#[trigger] rest[i]) by {
            assert(rest[i] == wholes[i]);
        }
        if !whole.skipped() {
            assert(tests =~= few.push(test));
            assert(tests.drop_last() =~= few);
        } else {
            assert(tests =~= few);
        }
        if lies_below(whole, subtree) {
            let inside = blobs_below(rest, subtree);
            assert(blobs_below(wholes, subtree) == inside.push(whole));
            let part = parts[parts.len() - 1];
            let others = parts.drop_last();
            assert forall|i: int| 0 <= i < others.len() implies is_part_of(
                #[trigger] others[i],
                inside[i],
                subtree,
            ) by {
                assert(is_part_of(parts[i], inside.push(whole)[i], subtree));
            }
            lemma_subtree_list(subtree, others, rest);
            assert(is_part_of(part, inside.push(whole)[parts.len() - 1], subtree));
            law_subtree_tests(subtree, part, whole);
            if !whole.skipped() {
                assert(cached_tests(prefix, parts) =~= cached_tests(prefix, others).push(test));
                assert(subtree_tests(tests, subtree) =~= subtree_tests(few, subtree).push(test));
            } else {
                assert(cached_tests(prefix, parts) =~= cached_tests(prefix, others));
            }
        } else {
            assert(blobs_below(wholes, subtree) == blobs_below(rest, subtree));
            lemma_subtree_list(subtree, parts, rest);
            lemma_tests_elsewhere(whole, subtree);
            assert(subtree_tests(tests, subtree) =~= subtree_tests(few, subtree));
        }
    }
}

/// Reading a run restricted to a subtree gives what restricting the results of the whole run
/// gives: the same tests, in the same order where the blobs of the subtree are read in the order
/// in which the whole tree has them (`listed`), and the same but for their order otherwise. There
/// is no test to be read if and only if no result of the whole run is one of the subtree. (A name
/// that has a slash in it once decoded could make a test look like one of another directory.)
pub proof fn law_subtree_results(
    subtree: Seq<char>,
    listed: Seq<CachedBlob>,
    parts: Seq<CachedBlob>,
    wholes: Seq<CachedBlob>,
)
    requires
        trim_both(subtree, '/').len() > 0,
        are_parts_of(listed, wholes, subtree),
        parts.to_multiset() == listed.to_multiset(),
        forall|i: int| 0 <= i < wholes.len() ==> has_plain_name(#[trigger] wholes[i]),
    ensures
        cached_tests(subtree_prefix(subtree), listed) == subtree_tests(
            cached_tests(Seq::empty(), wholes),
            subtree,
        ),
        cached_tests(subtree_prefix(subtree), parts).to_multiset() == subtree_tests(
            cached_tests(Seq::empty(), wholes),
            subtree,
        ).to_multiset(),
        unskipped(parts).len() == 0 <==> forall|i: int|
            #![trigger cached_tests(Seq::empty(), wholes)[i]]
            0 <= i < cached_tests(Seq::empty(), wholes).len() ==> !begins_with(
                cached_tests(Seq::empty(), wholes)[i].path,
                subtree_prefix(subtree),
            ),
{
    let prefix = subtree_prefix(subtree);
    let tests = cached_tests(Seq::empty(), wholes);
    let kept = subtree_tests(tests, subtree);
    lemma_subtree_list(subtree, listed, wholes);
    lemma_filter_ignores_order(parts, listed, |b: CachedBlob| !b.skipped());
    lemma_map_ignores_order(
        unskipped(parts),
        unskipped(listed),
        |b: CachedBlob| b.test_view(prefix),
    );
    cached_tests(prefix, parts).to_multiset_ensures();
    kept.to_multiset_ensures();
    assert(unskipped(parts).len() == kept.len());
    broadcast use vstd::seq_lib::group_filter_ensures;

    let inside = |t: TestView| begins_with(t.path, subtree_prefix(subtree));
    assert(kept == tests.filter(inside));
    if kept.len() > 0 {
        assert(inside(tests.filter(inside)[0]));
        tests.lemma_filter_contains_rev(inside, kept[0]);
        let i = tests.index_of(kept[0]);
        assert(begins_with(tests[i].path, prefix));
    } else {
        assert forall|i: int| 0 <= i < tests.len() implies !begins_with(
            (#[trigger] tests[i]).path,
            prefix,
        ) by {
            if begins_with(tests[i].path, prefix) {
                assert(inside(tests[i]));
                assert(tests.filter(inside).contains(tests[i]));
            }
        }
    }
}

/// Whether an entry of a summary file says of a test what its blob says: its path, with a slash
/// before it, its status, abbreviated, and its numbers of subtests.
pub open spec fn same_test(
    entry: (String, SummaryV2Entry),
    blob: CachedBlob,
    prefix: Seq<char>,
) -> bool {
    &&& entry.0@ == "/"@ + blob_test_path(prefix, decode_utf8(blob.filepath@))
    &&& entry.1.s@ == "P"@ <==> blob.test.status@ == "PASS"@
    &&& entry.1.s@ == "S"@ <==> blob.test.status@ == "SKIP"@
    &&& entry.1.c@[0] == passing(blob.test.subtests@)
    &&& entry.1.c@[1] == blob.test.subtests@.len()
}

/// Both sources give the same results for a run: where a summary file lists the tests of the
/// cache's blobs, what is read out of either is the same.
pub proof fn law_sources_agree(
    entries: Seq<(String, SummaryV2Entry)>,
    blobs: Seq<CachedBlob>,
    prefix: Seq<char>,
)
    requires
        entries.len() == blobs.len(),
        forall|i: int|
            0 <= i < blobs.len() ==> same_test(#[trigger] entries[i], blobs[i], prefix),
    ensures
        v2_tests(entries) == cached_tests(prefix, blobs),
    decreases blobs.len(),
{
    reveal(Seq::filter);
    if blobs.len() == 0 {
        assert(v2_tests(entries) =~= cached_tests(prefix, blobs));
    } else {
        let (es, bs) = (entries.drop_last(), blobs.drop_last());
        let (e, b) = (entries.last(), blobs.last());
        assert forall|i: int| 0 <= i < bs.len() implies same_test(
            #[trigger] es[i],
            bs[i],
            prefix,
        ) by {
            assert(same_test(entries[i], blobs[i], prefix));
        }
        law_sources_agree(es, bs, prefix);
        assert(same_test(entries[entries.len() - 1], b, prefix));
        if !b.skipped() {
            reveal_strlit("/");
            assert(unslashed(e.0@) =~= blob_test_path(prefix, decode_utf8(b.filepath@)));
            let test = b.test_view(prefix);
            assert(v2_test(e.0@, e.1.s@, e.1.c@) == test);
            assert(v2_tests(entries) =~= v2_tests(es).push(test));
            assert(cached_tests(prefix, blobs) =~= cached_tests(prefix, bs).push(test));
        }
    }
}

/// Both sources score identically: where a summary file, in whichever order it lists its entries,
/// says of every test what the cache's blobs say, the tests read out of either are the same but for
/// their order, and every area has the same numbers of tests and of subtests.
pub proof fn law_sources_score_alike(
    entries: Seq<(String, SummaryV2Entry)>,
    listed: Seq<(String, SummaryV2Entry)>,
    blobs: Seq<CachedBlob>,
    prefix: Seq<char>,
    area: Seq<char>,
)
    requires
        v2_views(entries).to_multiset() == v2_views(listed).to_multiset(),
        listed.len() == blobs.len(),
        forall|i: int|
            0 <= i < blobs.len() ==> same_test(#[trigger] listed[i], blobs[i], prefix),
    ensures
        v2_tests(entries).to_multiset() == cached_tests(prefix, blobs).to_multiset(),
        ({
            let (x, y) = (
                area_tests(v2_tests(entries), area),
                area_tests(cached_tests(prefix, blobs), area),
            );
            &&& x.len() == y.len()
            &&& tests_passed(x) == tests_passed(y)
            &&& subtests_total(x) == subtests_total(y)
            &&& subtests_passed(x) == subtests_passed(y)
        }),
{
    law_v2_order(entries, listed);
    law_sources_agree(listed, blobs, prefix);
    law_counts_ignore_order(v2_tests(entries), cached_tests(prefix, blobs), area);
}

}
