//! What holds of the results that are read out of the cache.

use vstd::prelude::*;
use vstd::string::*;
use vstd::utf8::{decode_utf8, encode_utf8, valid_utf8};

use crate::cache::{all_readable, blob_test_path, cached_tests, law_test_path_found, passing};
use crate::cache::{percent_encoded, readable, run_prefix, subtree_prefix, tag_text};
use crate::cache::unskipped;
use crate::cache::{CachedBlob, CachedSubtest};
use crate::text::{begins_with, decimal_text, ends_with, number_value};
use crate::text::law_number_round_trip;
use crate::text_laws::{law_last_place, law_trim};

verus! {

proof fn lemma_passing_pushed(subtests: Seq<CachedSubtest>, s: CachedSubtest)
    ensures
        passing(subtests.push(s)) == passing(subtests) + (if s.status@ == "PASS"@ {
            1nat
        } else {
            0nat
        }),
{
    reveal(Seq::filter);
    assert(subtests.push(s).drop_last() =~= subtests);
}

/// A subtest more, wherever it stands, is one more that passed if and only if its status is
/// `PASS`; whatever other status it has, it changes nothing.
pub proof fn law_passing_subtests(subtests: Seq<CachedSubtest>, i: int, s: CachedSubtest)
    requires
        0 <= i <= subtests.len(),
    ensures
        s.status@ == "PASS"@ ==> passing(subtests.insert(i, s)) == passing(subtests) + 1,
        s.status@ != "PASS"@ ==> passing(subtests.insert(i, s)) == passing(subtests),
    decreases subtests.len(),
{
    if i == subtests.len() {
        assert(subtests.insert(i, s) =~= subtests.push(s));
        lemma_passing_pushed(subtests, s);
    } else {
        let rest = subtests.drop_last();
        let last = subtests.last();
        assert(subtests.insert(i, s) =~= rest.insert(i, s).push(last));
        assert(subtests =~= rest.push(last));
        law_passing_subtests(rest, i, s);
        lemma_passing_pushed(rest.insert(i, s), last);
        lemma_passing_pushed(rest, last);
    }
}

/// No subtest passed where none has the status `PASS`, all did where all have it, and never did
/// more pass than there are.
pub proof fn law_passing_bounds(subtests: Seq<CachedSubtest>)
    ensures
        passing(subtests) <= subtests.len(),
        (forall|i: int| 0 <= i < subtests.len() ==> (#[trigger] subtests[i]).status@ != "PASS"@)
            ==> passing(subtests) == 0,
        (forall|i: int| 0 <= i < subtests.len() ==> (#[trigger] subtests[i]).status@ == "PASS"@)
            ==> passing(subtests) == subtests.len(),
    decreases subtests.len(),
{
    if subtests.len() == 0 {
        reveal(Seq::filter);
        assert(passing(subtests) == 0);
    } else {
        let rest = subtests.drop_last();
        assert(subtests =~= rest.push(subtests.last()));
        assert(subtests[subtests.len() - 1] == subtests.last());
        assert forall|i: int| 0 <= i < rest.len() implies #[trigger] rest[i] == subtests[i] by {}
        law_passing_bounds(rest);
        lemma_passing_pushed(rest, subtests.last());
    }
}

/// What is read of a blob as a subtest is added to it, or taken off it: one subtest more in total,
/// and one more passed if and only if its status is `PASS`. Nothing else changes.
pub proof fn law_subtest_added(
    blob: CachedBlob,
    longer: CachedBlob,
    i: int,
    s: CachedSubtest,
    prefix: Seq<char>,
)
    requires
        0 <= i <= blob.test.subtests@.len() < u32::MAX,
        longer.test.subtests@ == blob.test.subtests@.insert(i, s),
        longer.test.status@ == blob.test.status@,
        longer.filepath@ == blob.filepath@,
    ensures
        longer.test_view(prefix).total == blob.test_view(prefix).total + 1,
        s.status@ == "PASS"@ ==> longer.test_view(prefix).pass == blob.test_view(prefix).pass + 1,
        s.status@ != "PASS"@ ==> longer.test_view(prefix).pass == blob.test_view(prefix).pass,
        longer.test_view(prefix).path == blob.test_view(prefix).path,
        longer.test_view(prefix).passes == blob.test_view(prefix).passes,
        longer.skipped() == blob.skipped(),
{
    law_passing_subtests(blob.test.subtests@, i, s);
    law_passing_bounds(blob.test.subtests@);
}

/// A blob without subtests has none that passed.
pub proof fn law_no_subtests(blob: CachedBlob, prefix: Seq<char>)
    requires
        blob.test.subtests@.len() == 0,
    ensures
        blob.test_view(prefix).total == 0,
        blob.test_view(prefix).pass == 0,
{
    law_passing_bounds(blob.test.subtests@);
}

/// A blob more is one test more, unless its test was skipped: with the path that the blob stands
/// for, and passed if and only if its status is `PASS`.
pub proof fn law_blob_added(prefix: Seq<char>, blobs: Seq<CachedBlob>, blob: CachedBlob)
    ensures
        blob.test.status@ == "SKIP"@ ==> cached_tests(prefix, blobs.push(blob)) == cached_tests(
            prefix,
            blobs,
        ) && unskipped(blobs.push(blob)) == unskipped(blobs),
        blob.test.status@ != "SKIP"@ ==> {
            let tests = cached_tests(prefix, blobs.push(blob));
            &&& tests.len() == cached_tests(prefix, blobs).len() + 1
            &&& tests.drop_last() == cached_tests(prefix, blobs)
            &&& tests.last().path == blob_test_path(prefix, decode_utf8(blob.filepath@))
            &&& tests.last().passes <==> blob.test.status@ == "PASS"@
            &&& blob.test.subtests@.len() <= u32::MAX ==> tests.last().total
                == blob.test.subtests@.len() && tests.last().pass == passing(blob.test.subtests@)
            &&& unskipped(blobs.push(blob)).len() == unskipped(blobs).len() + 1
        },
        cached_tests(prefix, Seq::empty()).len() == 0,
        unskipped(Seq::empty()).len() == 0,
{
    reveal(Seq::filter);
    assert(blobs.push(blob).drop_last() =~= blobs);
    law_passing_bounds(blob.test.subtests@);
    if blob.test.status@ != "SKIP"@ {
        assert(cached_tests(prefix, blobs.push(blob)) =~= cached_tests(prefix, blobs).push(
            blob.test_view(prefix),
        ));
        assert(cached_tests(prefix, blobs.push(blob)).drop_last() =~= cached_tests(prefix, blobs));
    }
}

/// Blobs can be read if and only if the path of each that was not skipped is UTF-8.
pub proof fn law_readable_blobs(blobs: Seq<CachedBlob>)
    ensures
        all_readable(blobs) <==> forall|i: int|
            0 <= i < blobs.len() && (#[trigger] blobs[i]).test.status@ != "SKIP"@ ==> valid_utf8(
                blobs[i].filepath@,
            ),
{
    if forall|i: int|
        0 <= i < blobs.len() && (#[trigger] blobs[i]).test.status@ != "SKIP"@ ==> valid_utf8(
            blobs[i].filepath@,
        ) {
        assert forall|i: int| 0 <= i < blobs.len() implies readable(#[trigger] blobs[i]) by {}
    }
    if all_readable(blobs) {
        assert forall|i: int|
            0 <= i < blobs.len() && (#[trigger] blobs[i]).test.status@ != "SKIP"@ implies valid_utf8(
            blobs[i].filepath@,
        ) by {
            assert(readable(blobs[i]));
        }
    }
}

/// The tag of a run names its ID, in decimal notation, between `refs/tags/run/` and `/results`.
pub proof fn law_tag(run_id: u64)
    ensures
        begins_with(tag_text(run_id), "refs/tags/run/"@),
        ends_with(tag_text(run_id), "/results"@),
        number_value(
            tag_text(run_id).subrange("refs/tags/run/"@.len() as int, tag_text(run_id).len()
                - "/results"@.len()),
        ) == Some(run_id as nat),
        tag_text(run_id) == "refs/tags/run/"@ + decimal_text(run_id as nat) + "/results"@,
{
    let (head, id, tail) = ("refs/tags/run/"@, decimal_text(run_id as nat), "/results"@);
    let tag = tag_text(run_id);
    assert(tag.subrange(0, head.len() as int) =~= head);
    assert(tag.subrange(tag.len() - tail.len(), tag.len() as int) =~= tail);
    assert(tag.subrange(head.len() as int, tag.len() - tail.len()) =~= id);
    law_number_round_trip(run_id as nat);
}

/// The path of a test is the directories of its blob as they are, below the prefix, and the
/// decoded name; a blob's path need not end with `.json`.
pub proof fn law_test_path(
    prefix: Seq<char>,
    dirs: Seq<char>,
    name: Seq<char>,
    encoded: Seq<char>,
    safe: spec_fn(u8) -> bool,
)
    requires
        !safe(0x25),
        encode_utf8(encoded) == percent_encoded(encode_utf8(name), safe),
        !encoded.contains('/'),
        dirs.len() > 0,
    ensures
        blob_test_path(prefix, dirs + "/"@ + encoded + ".json"@) == prefix + dirs + "/"@ + name,
        blob_test_path(prefix, encoded + ".json"@) == prefix + name,
        !ends_with(dirs + "/"@ + encoded, ".json"@) ==> blob_test_path(
            prefix,
            dirs + "/"@ + encoded,
        ) == prefix + dirs + "/"@ + name,
{
    law_test_path_found(prefix, dirs, name, encoded, safe);
    let bare = dirs + "/"@ + encoded;
    if !ends_with(bare, ".json"@) {
        reveal_strlit("/");
        assert(bare =~= dirs + seq!['/'] + encoded);
        law_last_place(dirs, '/', encoded);
        assert(bare.take(dirs.len() as int) =~= dirs);
        assert(bare.skip(dirs.len() as int + 1) =~= encoded);
        crate::cache::law_percent_round_trip(encode_utf8(name), safe);
        vstd::utf8::encode_utf8_valid_utf8(name);
        vstd::utf8::encode_utf8_decode_utf8(name);
    }
}

/// The prefix of a subtree is its name and a slash; slashes around the name make no difference.
pub proof fn law_subtree_prefix(name: Seq<char>, subtree: Option<&str>)
    ensures
        name.len() > 0 && name[0] != '/' && name.last() != '/' ==> subtree_prefix(name) == name.push(
            '/',
        ),
        subtree_prefix(seq!['/'] + name) == subtree_prefix(name),
        subtree_prefix(name.push('/')) == subtree_prefix(name),
        subtree is None ==> run_prefix(subtree).len() == 0,
        subtree matches Some(text) ==> run_prefix(subtree) == subtree_prefix(text@),
{
    reveal_strlit("/");
    law_trim(name, '/');
    assert(name + "/"@ =~= name.push('/'));
}

}
