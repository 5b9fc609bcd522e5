//! What holds of scores as tests are added to a run.

use vstd::prelude::*;
use vstd::utf8::{encode_utf8, encode_utf8_valid_utf8};
use wptreport::AreaScores;

use crate::score::{area_tests, are_scores_of, are_totals_of, areas_fit, counts_of, directory, fits};
use crate::score::{fraction_bits, fraction_sums, fraction_total, in_area, is_area_tuple};
use crate::score::{is_meta_of, is_total_tuple, is_tuple_of, scorable_tests, scores_fit};
use crate::score::{subtests_passed, subtests_total, tests_passed, weight, RunResults};
use crate::score::{TestCounts, TestView};
use crate::summary::{RunMeta, Score, ScoreTuple};
use crate::text::trim_end;
use crate::text_laws::law_last_place;
use crate::time::{rfc3339_instant, rfc3339_text};
use crate::wptfyi::Run;

verus! {

/// A test with subtests counts them as they are; one without counts as one subtest, which passes
/// iff the test does.
pub proof fn law_subtests_counted_as_they_are(test: TestCounts)
    ensures
        test@.path == test.path@,
        test.subtests.total > 0 ==> test@.counted() == (test.subtests.pass, test.subtests.total),
        test.subtests.total == 0 && test.passes ==> test@.counted() == (1u32, 1u32),
        test.subtests.total == 0 && !test.passes ==> test@.counted() == (0u32, 1u32),
{
}

/// The results of a run are its tests, each with its path, its status and its subtests.
pub proof fn law_results(results: RunResults, i: int)
    requires
        0 <= i < results.tests@.len(),
    ensures
        results@.len() == results.tests@.len(),
        results@[i].path == results.tests@[i].path@,
        results@[i].passes == results.tests@[i].passes,
        results@[i].pass == results.tests@[i].subtests.pass,
        results@[i].total == results.tests@[i].subtests.total,
{
}

/// What a test more makes of tests that it is put after: one test and its subtests more.
spec fn adds(before: Seq<TestView>, test: TestView, after: Seq<TestView>) -> bool {
    &&& after.len() == before.len() + 1
    &&& test.total > 0 ==> {
        &&& subtests_passed(after) == subtests_passed(before) + test.pass
        &&& subtests_total(after) == subtests_total(before) + test.total
        &&& tests_passed(after) == tests_passed(before) + (if test.pass == test.total {
            1nat
        } else {
            0nat
        })
        &&& counts_of(after) == counts_of(before).push((test.pass, test.total))
    }
    &&& test.total == 0 ==> {
        let passed: u32 = if test.passes {
            1
        } else {
            0
        };
        &&& subtests_passed(after) == subtests_passed(before) + passed
        &&& subtests_total(after) == subtests_total(before) + 1
        &&& tests_passed(after) == tests_passed(before) + passed
        &&& counts_of(after) == counts_of(before).push((passed, 1u32))
    }
}

proof fn lemma_adds(before: Seq<TestView>, test: TestView)
    ensures
        adds(before, test, before.push(test)),
{
    let after = before.push(test);
    assert(after.drop_last() =~= before);
    assert(counts_of(after) =~= counts_of(before).push(test.counted()));
}

/// A test more, with its own numbers of subtests, is what it adds to every area that it belongs
/// to: its passed subtests to those passed, and all of them to the total, or one subtest where it
/// has none. It adds nothing to other areas.
pub proof fn law_test_adds_its_subtests(tests: Seq<TestView>, test: TestView, area: Seq<char>)
    ensures
        !in_area(test.path, area) ==> area_tests(tests.push(test), area) == area_tests(tests, area),
        in_area(test.path, area) ==> area_tests(tests.push(test), area).len() == area_tests(
            tests,
            area,
        ).len() + 1,
        in_area(test.path, area) && test.total > 0 ==> {
            let (x, y) = (area_tests(tests, area), area_tests(tests.push(test), area));
            &&& subtests_passed(y) == subtests_passed(x) + test.pass
            &&& subtests_total(y) == subtests_total(x) + test.total
            &&& tests_passed(y) == tests_passed(x) + (if test.pass == test.total {
                1nat
            } else {
                0nat
            })
            &&& counts_of(y) == counts_of(x).push((test.pass, test.total))
        },
        in_area(test.path, area) && test.total == 0 ==> {
            let (x, y) = (area_tests(tests, area), area_tests(tests.push(test), area));
            let passed: u32 = if test.passes {
                1
            } else {
                0
            };
            &&& subtests_passed(y) == subtests_passed(x) + passed
            &&& subtests_total(y) == subtests_total(x) + 1
            &&& tests_passed(y) == tests_passed(x) + passed
            &&& counts_of(y) == counts_of(x).push((passed, 1u32))
        },
{
    reveal(Seq::filter);
    assert(tests.push(test).drop_last() =~= tests);
    lemma_adds(area_tests(tests, area), test);
}

/// A test more adds the same to the whole run, where it lives in a directory, and else nothing.
pub proof fn law_test_adds_to_the_run(tests: Seq<TestView>, test: TestView)
    ensures
        !test.path.contains('/') ==> scorable_tests(tests.push(test)) == scorable_tests(tests),
        test.path.contains('/') ==> scorable_tests(tests.push(test)).len() == scorable_tests(
            tests,
        ).len() + 1,
        test.path.contains('/') && test.total > 0 ==> {
            let (x, y) = (scorable_tests(tests), scorable_tests(tests.push(test)));
            &&& subtests_passed(y) == subtests_passed(x) + test.pass
            &&& subtests_total(y) == subtests_total(x) + test.total
        },
        test.path.contains('/') && test.total == 0 ==> {
            let (x, y) = (scorable_tests(tests), scorable_tests(tests.push(test)));
            &&& subtests_passed(y) == subtests_passed(x) + (if test.passes {
                1nat
            } else {
                0nat
            })
            &&& subtests_total(y) == subtests_total(x) + 1
        },
{
    reveal(Seq::filter);
    assert(tests.push(test).drop_last() =~= tests);
    lemma_adds(scorable_tests(tests), test);
}

/// Where there is no test, nothing is counted.
pub proof fn law_nothing_counted(area: Seq<char>)
    ensures
        area_tests(Seq::empty(), area).len() == 0,
        scorable_tests(Seq::empty()).len() == 0,
        subtests_passed(Seq::empty()) == 0,
        subtests_total(Seq::empty()) == 0,
        tests_passed(Seq::empty()) == 0,
        counts_of(Seq::empty()).len() == 0,
{
    reveal(Seq::filter);
}

/// The sum of one number of each test.
pub open spec fn sum_over(tests: Seq<TestView>, number: spec_fn(TestView) -> nat) -> nat
    decreases tests.len(),
{
    if tests.len() == 0 {
        0
    } else {
        number(tests[0]) + sum_over(tests.skip(1), number)
    }
}

proof fn lemma_sum_over(tests: Seq<TestView>, v: spec_fn(TestView) -> nat, w: spec_fn(TestView) -> nat)
    requires
        forall|i: int| 0 <= i < tests.len() ==> v(#[trigger] tests[i]) == w(tests[i]),
    ensures
        weight(tests, v) == sum_over(tests, w),
    decreases tests.len(),
{
    if tests.len() > 0 {
        let rest = tests.skip(1);
        assert forall|i: int| 0 <= i < rest.len() implies v(#[trigger] rest[i]) == w(rest[i]) by {
            assert(rest[i] == tests[i + 1]);
        }
        lemma_sum_over(rest, v, w);
        lemma_weight_from_front(tests, v);
        assert(v(tests[0]) == w(tests[0]));
    }
}

proof fn lemma_weight_from_front(tests: Seq<TestView>, v: spec_fn(TestView) -> nat)
    requires
        tests.len() > 0,
    ensures
        weight(tests, v) == v(tests[0]) + weight(tests.skip(1), v),
    decreases tests.len(),
{
    if tests.len() == 1 {
        assert(weight(tests.skip(1), v) == 0);
        assert(weight(tests.drop_last(), v) == 0);
    } else {
        let rest = tests.drop_last();
        lemma_weight_from_front(rest, v);
        assert(rest.skip(1) =~= tests.skip(1).drop_last());
        assert(tests.skip(1).last() == tests.last());
        assert(rest[0] == tests[0]);
    }
}

/// Where every test of an area has subtests, the area's number of subtests passed is the sum of
/// the tests' own, and so is its number of subtests.
pub proof fn law_area_sums_its_tests(tests: Seq<TestView>, area: Seq<char>)
    requires
        forall|i: int|
            0 <= i < area_tests(tests, area).len() ==> (#[trigger] area_tests(tests, area)[i]).total
                > 0,
    ensures
        subtests_passed(area_tests(tests, area)) == sum_over(
            area_tests(tests, area),
            |t: TestView| t.pass as nat,
        ),
        subtests_total(area_tests(tests, area)) == sum_over(
            area_tests(tests, area),
            |t: TestView| t.total as nat,
        ),
{
    lemma_sum_over(
        area_tests(tests, area),
        |t: TestView| t.counted().0 as nat,
        |t: TestView| t.pass as nat,
    );
    lemma_sum_over(
        area_tests(tests, area),
        |t: TestView| t.counted().1 as nat,
        |t: TestView| t.total as nat,
    );
}

/// The areas that a test belongs to: its directory, and every directory above it. One that lives
/// in no directory belongs to none.
pub proof fn law_areas_of_a_test(dir: Seq<char>, name: Seq<char>, area: Seq<char>)
    requires
        !name.contains('/'),
        dir.len() > 0 ==> dir.last() != '/',
    ensures
        in_area(dir + seq!['/'] + name, area) <==> area == dir || (exists|rest: Seq<char>|
            dir == #[trigger] (area + seq!['/'] + rest)),
        !in_area(name, area),
{
    let path = dir + seq!['/'] + name;
    law_last_place(dir, '/', name);
    assert(path.take(dir.len() as int) =~= dir);
    assert(trim_end(dir, '/') == dir);
    assert(directory(path) == dir);
    assert(path[dir.len() as int] == '/');
    let n = area.len() as int;
    if in_area(path, area) {
        assert(dir.subrange(0, n) == area);
        if n == dir.len() {
            assert(dir.subrange(0, n) =~= dir);
        } else {
            assert(dir =~= area + seq!['/'] + dir.skip(n + 1)) by {
                assert(dir =~= dir.subrange(0, n) + seq![dir[n]] + dir.skip(n + 1));
            }
        }
    }
    if area == dir {
        assert(dir.subrange(0, n) =~= area);
    }
    if exists|rest: Seq<char>| dir == #[trigger] (area + seq!['/'] + rest) {
        let rest = choose|rest: Seq<char>| dir == #[trigger] (area + seq!['/'] + rest);
        assert(dir.subrange(0, n) =~= area);
        assert(dir[n] == '/');
    }
}

/// The numbers in the scores of an area are those of its tests: how many there are, their
/// subtests, and their subtests passed; the score is what `rounded` gives for an area whose sum of
/// fractions is that of these tests.
pub proof fn law_area_numbers<F: Fn(&AreaScores) -> Score>(
    tuple: ScoreTuple,
    rounded: F,
    tests: Seq<TestView>,
    area: Seq<char>,
)
    requires
        is_area_tuple(tuple, rounded, tests, area),
    ensures
        tuple.0 == area_tests(tests, area).len(),
        tuple.2 == subtests_total(area_tests(tests, area)),
        tuple.3 == subtests_passed(area_tests(tests, area)),
        exists|scores: AreaScores| #[trigger]
            call_ensures(rounded, (&scores,), tuple.1) && fraction_bits(scores) == fraction_sums(
                counts_of(area_tests(tests, area)),
            ).0 && scores.tests.total == tuple.0,
{
    let scores = choose|scores: AreaScores| #[trigger]
        are_scores_of(scores, area_tests(tests, area)) && is_tuple_of(tuple, rounded, scores);
    assert(call_ensures(rounded, (&scores,), tuple.1));
}

/// The numbers in the total of a run are those of all its tests that live in a directory.
pub proof fn law_total_numbers<F: Fn(&AreaScores) -> Score>(
    tuple: ScoreTuple,
    rounded: F,
    tests: Seq<TestView>,
)
    requires
        is_total_tuple(tuple, rounded, tests),
    ensures
        tuple.0 == scorable_tests(tests).len(),
        tuple.2 == subtests_total(scorable_tests(tests)),
        tuple.3 == subtests_passed(scorable_tests(tests)),
        exists|scores: AreaScores, tops: Seq<Seq<char>>| #[trigger]
            are_totals_of(scores, tests, tops) && call_ensures(rounded, (&scores,), tuple.1)
                && fraction_bits(scores) == fraction_total(
                tops.map_values(|a: Seq<char>| fraction_sums(counts_of(area_tests(tests, a))).0),
            ),
{
    let (scores, tops) = choose|scores: AreaScores, tops: Seq<Seq<char>>| #[trigger]
        are_totals_of(scores, tests, tops) && is_tuple_of(tuple, rounded, scores);
    assert(are_totals_of(scores, tests, tops) && call_ensures(rounded, (&scores,), tuple.1));
}

/// A run can be scored wherever no area counts beyond the largest number of 32 bits, nor the whole
/// run where it is counted, and nowhere else.
pub proof fn law_counters(tests: Seq<TestView>, part: Seq<TestView>, whole_tree: bool)
    ensures
        fits(part) <==> part.len() <= 4294967295 && subtests_total(part) <= 4294967295
            && subtests_passed(part) <= 4294967295,
        scores_fit(tests, false) <==> forall|area: Seq<char>|
            fits(#[trigger] area_tests(tests, area)),
        scores_fit(tests, true) <==> fits(scorable_tests(tests)) && areas_fit(tests),
{
}

/// The metadata of a scored run: its start as the program writes dates, the first nine bytes of
/// the revision of the test suite, the version of the browser, and its wpt.fyi ID.
pub proof fn law_metadata(meta: RunMeta, run: Run)
    requires
        is_meta_of(meta, run),
    ensures
        rfc3339_instant(run.time_start@) is Ok,
        rfc3339_text(
            rfc3339_instant(run.time_start@)->Ok_0.0,
            rfc3339_instant(run.time_start@)->Ok_0.1,
        ) == Some(meta.date@),
        encode_utf8(meta.wpt_revision@).len() == 9,
        encode_utf8(run.full_revision_hash@) == encode_utf8(meta.wpt_revision@) + encode_utf8(
            run.full_revision_hash@,
        ).skip(9),
        meta.product_revision@ == run.browser_version@,
        meta.commit_message is None,
        meta.run_id == Some(run.id),
{
    let bytes = encode_utf8(run.full_revision_hash@);
    encode_utf8_valid_utf8(run.full_revision_hash@);
    assert(bytes =~= bytes.subrange(0, 9) + bytes.skip(9));
}

}
