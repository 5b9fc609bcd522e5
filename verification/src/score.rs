//! Scoring of browser runs.
//!
//! Both sources of results are reduced to a [`TestCounts`] per test, which is all that
//! `wptreport`'s scoring needs. A test with no subtests counts as a single subtest that
//! passes iff the test status is `PASS`.

use vstd::prelude::*;
use vstd::utf8::{encode_utf8, is_char_boundary};
use wptreport::{AreaScores, ScorableReport, SubtestCounts, SubtestNameAndResult, TestResultIter};

use crate::area_map::{ascending, lemma_ascending_unique, AreaMap};
use crate::summary::{score_tuple, RunMeta, Score, ScoreTuple, ScoredRun, TOTAL_AREA};
use crate::text::{begins_with, has_char, last_position, text_lt, trim_end};
use crate::text::{chars_of, find_last, lemma_encoding_injective, lemma_last_position, slice};
use crate::time::{instant, is_date_error, rfc3339_text, utc_date, DateError};
use crate::wptfyi::Run;

verus! {

/// `wptreport`'s pair of numbers of subtests, with its fields.
#[verifier::external_type_specification]
pub struct ExSubtestCounts(wptreport::SubtestCounts);

/// `wptreport`'s scores of one area, with its fields.
#[verifier::external_type_specification]
pub struct ExAreaScores(wptreport::AreaScores);

/// `wptreport`'s result of one subtest.
#[verifier::external_type_specification]
#[verifier::external_body]
pub struct ExSubtestNameAndResult<'a>(wptreport::SubtestNameAndResult<'a>);

/// What scoring needs to know of one test.
pub struct TestCounts {
    /// Test path without leading slash, e.g. `css/css-flexbox/foo.html?variant`.
    pub path: String,
    /// Whether the test-level status is `PASS`.
    pub passes: bool,
    /// Subtests passed and in total. Both zero for tests without subtests.
    pub subtests: SubtestCounts,
}

/// The tests of one run.
pub struct RunResults {
    pub tests: Vec<TestCounts>,
}

/// A test as a mathematical value.
pub struct TestView {
    pub path: Seq<char>,
    pub passes: bool,
    pub pass: u32,
    pub total: u32,
}

impl View for TestCounts {
    type V = TestView;

    open spec fn view(&self) -> TestView {
        TestView {
            path: self.path@,
            passes: self.passes,
            pass: self.subtests.pass,
            total: self.subtests.total,
        }
    }
}

/// The views of tests.
pub open spec fn test_views(tests: Seq<TestCounts>) -> Seq<TestView> {
    tests.map_values(|t: TestCounts| t@)
}

impl View for RunResults {
    type V = Seq<TestView>;

    open spec fn view(&self) -> Seq<TestView> {
        test_views(self.tests@)
    }
}

impl TestView {
    /// The subtests passed and in total, a test without subtests being one subtest.
    pub open spec fn counted(self) -> (u32, u32) {
        if self.total == 0 {
            (if self.passes { 1 } else { 0 }, 1)
        } else {
            (self.pass, self.total)
        }
    }

    /// Whether the test lives in a directory, so that it belongs to an area.
    pub open spec fn scorable(self) -> bool {
        self.path.contains('/')
    }
}

/// The tests that live in a directory.
pub open spec fn scorable_tests(tests: Seq<TestView>) -> Seq<TestView> {
    tests.filter(|t: TestView| t.scorable())
}

impl TestResultIter for &TestCounts {
    fn name(&self) -> (r: &str)
        ensures
            r@ == self.path@,
    {
        self.path.as_str()
    }

    fn subtest_counts(&self) -> (r: SubtestCounts)
        ensures
            (r.pass, r.total) == self@.counted(),
            self.subtests.total > 0 ==> r.pass == self.subtests.pass && r.total
                == self.subtests.total,
            self.subtests.total == 0 ==> r.total == 1 && r.pass == (if self.passes {
                1u32
            } else {
                0u32
            }),
    {
        if self.subtests.total == 0 {
            SubtestCounts { total: 1, pass: if self.passes { 1 } else { 0 } }
        } else {
            self.subtests
        }
    }

    fn subtest_exist_and_passes(&self, _name: &str) -> (r: bool)
        ensures
            !r,
    {
        false
    }

    #[allow(refining_impl_trait)]
    fn iter_subtests_results(&self) -> (r: std::vec::IntoIter<SubtestNameAndResult<'_>>)
        ensures
            vstd::std_specs::iter::IteratorSpec::remaining(&r).len() == 0,
    {
        let none: Vec<SubtestNameAndResult<'_>> = Vec::new();
        none.into_iter()
    }
}

impl ScorableReport for RunResults {
    type TestResultIter<'a> = &'a TestCounts;

    /// The tests that live in a directory: scoring requires that of every test.
    #[allow(refining_impl_trait)]
    fn results(&self) -> (r: std::vec::IntoIter<&TestCounts>)
        ensures
            vstd::std_specs::iter::IteratorSpec::remaining(&r).map_values(|t: &TestCounts| t@) == scorable_tests(self@),
    {
        let mut kept: Vec<&TestCounts> = Vec::new();
        let mut i: usize = 0;
        while i < self.tests.len()
            invariant
                i <= self.tests.len(),
                kept@.map_values(|t: &TestCounts| t@) == scorable_tests(self@.take(i as int)),
            decreases self.tests.len() - i,
        {
            let test = &self.tests[i];
            let ghost before = kept@.map_values(|t: &TestCounts| t@);
            proof {
                reveal(Seq::filter);
                assert(self@.take(i + 1).drop_last() =~= self@.take(i as int));
                assert(self@.take(i + 1).last() == test@);
            }
            if has_char(test.path.as_str(), '/') {
                kept.push(test);
                assert(kept@.map_values(|t: &TestCounts| t@) =~= before.push(test@));
            }
            i = i + 1;
        }
        assert(self@.take(self@.len() as int) =~= self@);
        kept.into_iter()
    }
}

/// The directory of a test, without slashes at its end.
pub open spec fn directory(path: Seq<char>) -> Seq<char> {
    trim_end(path.take(last_position(path, '/')), '/')
}

/// Whether a test belongs to an area: its directory, or one above it.
pub open spec fn in_area(path: Seq<char>, area: Seq<char>) -> bool {
    let dir = directory(path);
    &&& path.contains('/')
    &&& begins_with(dir, area)
    &&& area.len() == dir.len() || dir[area.len() as int] == '/'
}

/// The tests that belong to an area.
pub open spec fn area_tests(tests: Seq<TestView>, area: Seq<char>) -> Seq<TestView> {
    tests.filter(|t: TestView| in_area(t.path, area))
}

/// The sum of a weight over tests.
pub open spec fn weight(tests: Seq<TestView>, w: spec_fn(TestView) -> nat) -> nat
    decreases tests.len(),
{
    if tests.len() == 0 {
        0
    } else {
        weight(tests.drop_last(), w) + w(tests.last())
    }
}

/// The number of subtests of tests.
pub open spec fn subtests_total(tests: Seq<TestView>) -> nat {
    weight(tests, |t: TestView| t.counted().1 as nat)
}

/// The number of subtests passed of tests.
pub open spec fn subtests_passed(tests: Seq<TestView>) -> nat {
    weight(tests, |t: TestView| t.counted().0 as nat)
}

/// The number of tests that pass all their subtests.
pub open spec fn tests_passed(tests: Seq<TestView>) -> nat {
    weight(tests, |t: TestView| if t.counted().0 == t.counted().1 { 1 } else { 0 })
}

/// The subtests passed and in total of each test.
pub open spec fn counts_of(tests: Seq<TestView>) -> Seq<(u32, u32)> {
    tests.map_values(|t: TestView| t.counted())
}

/// The sums that `wptreport`'s scoring makes with floating point over the subtests passed and
/// in total of the tests of one area, in their order: the bits of the sum of the fractions
/// passed, and the sum of the interop scores.
pub uninterp spec fn fraction_sums(counts: Seq<(u32, u32)>) -> (u64, u64);

/// The bits of the sum of finite floating point numbers, given by their bits, that `wptreport`'s
/// `Sum` of area scores makes, in their order.
pub uninterp spec fn fraction_total(bits: Seq<u64>) -> u64;

/// The bits of the sum of the fractions passed.
pub open spec fn fraction_bits(scores: AreaScores) -> u64 {
    vstd::float::FloatBitsProperties::to_bits_spec(&scores.pass_fraction_sum)
}

/// Whether the sum of the fractions passed is a finite number.
pub open spec fn is_finite(scores: AreaScores) -> bool {
    vstd::float::FloatBitsProperties::is_finite_spec(&scores.pass_fraction_sum)
}

/// Whether `scores` hold the numbers of tests and subtests of an area with these tests.
pub open spec fn are_counts_of(scores: AreaScores, tests: Seq<TestView>) -> bool {
    &&& scores.tests.total == tests.len()
    &&& scores.tests.pass == tests_passed(tests)
    &&& scores.subtests.total == subtests_total(tests)
    &&& scores.subtests.pass == subtests_passed(tests)
}

/// Whether `scores` are the scores of an area with these tests.
pub open spec fn are_scores_of(scores: AreaScores, tests: Seq<TestView>) -> bool {
    &&& are_counts_of(scores, tests)
    &&& (fraction_bits(scores), scores.interop_score_sum) == fraction_sums(counts_of(tests))
}

/// Whether the numbers of tests and subtests of tests fit their counters.
pub open spec fn fits(tests: Seq<TestView>) -> bool {
    &&& tests.len() <= u32::MAX
    &&& subtests_total(tests) <= u32::MAX
    &&& subtests_passed(tests) <= u32::MAX
}

/// Whether the numbers of tests and subtests of every area fit their counters.
pub open spec fn areas_fit(tests: Seq<TestView>) -> bool {
    forall|area: Seq<char>| fits(#[trigger] area_tests(tests, area))
}

/// Whether the numbers of tests and subtests of a whole run fit their counters.
pub open spec fn counts_fit(tests: Seq<TestView>) -> bool {
    fits(scorable_tests(tests))
}

/// Whether everything that is counted for a run fits its counter: the numbers of every area, and
/// those of the whole run where they are asked for.
pub open spec fn scores_fit(tests: Seq<TestView>, whole_tree: bool) -> bool {
    &&& areas_fit(tests)
    &&& whole_tree ==> counts_fit(tests)
}

/// The names of areas with scores.
pub open spec fn area_names(areas: Seq<(String, AreaScores)>) -> Seq<Seq<char>> {
    areas.map_values(|a: (String, AreaScores)| a.0@)
}

/// Calls `wptreport::score_wpt_report`, which asks the report for its tests, and each test
/// for its name and counts, by the methods above. Believed: the areas that come out are, in
/// ascending order, those that a test belongs to, and the scores of each count the tests of
/// that area and add up their subtests; the sums that need floating point are a function of
/// the subtests passed and in total of those tests, in their order; the sum of the fractions
/// passed is finite, as every test has a subtest in total, and no test adds more than 65535 to
/// the interop score.
#[verifier::external_body]
fn score_report(results: &RunResults) -> (r: Vec<(String, AreaScores)>)
    requires
        areas_fit(results@),
    ensures
        ascending(area_names(r@)),
        forall|area: Seq<char>|
            area_names(r@).contains(area) <==> #[trigger] area_tests(results@, area).len() > 0,
        forall|i: int|
            0 <= i < r@.len() ==> are_counts_of(
                (#[trigger] r@[i]).1,
                area_tests(results@, r@[i].0@),
            ),
        forall|i: int|
            0 <= i < r@.len() ==> (
                fraction_bits((#[trigger] r@[i]).1),
                r@[i].1.interop_score_sum,
            ) == fraction_sums(counts_of(area_tests(results@, r@[i].0@))),
        forall|i: int|
            0 <= i < r@.len() ==> (#[trigger] r@[i]).1.interop_score_sum <= 65535
                * r@[i].1.tests.total,
        forall|i: int| 0 <= i < r@.len() ==> is_finite((#[trigger] r@[i]).1),
{
    wptreport::score_wpt_report(results).into_iter().collect()
}

/// The sum of one number of each area.
pub open spec fn sum_of(scores: Seq<AreaScores>, number: spec_fn(AreaScores) -> nat) -> nat
    decreases scores.len(),
{
    if scores.len() == 0 {
        0
    } else {
        sum_of(scores.drop_last(), number) + number(scores.last())
    }
}

/// Calls `wptreport`'s `Sum` of area scores. Believed: every number of the result is the sum
/// of that number over the areas; the floating point sum of finite numbers is a function of
/// the numbers added, in their order.
#[verifier::external_body]
fn sum_scores(scores: Vec<AreaScores>) -> (r: AreaScores)
    requires
        forall|i: int| 0 <= i < scores@.len() ==> is_finite(#[trigger] scores@[i]),
        sum_of(scores@, |s: AreaScores| s.tests.total as nat) <= u32::MAX,
        sum_of(scores@, |s: AreaScores| s.tests.pass as nat) <= u32::MAX,
        sum_of(scores@, |s: AreaScores| s.subtests.total as nat) <= u32::MAX,
        sum_of(scores@, |s: AreaScores| s.subtests.pass as nat) <= u32::MAX,
        sum_of(scores@, |s: AreaScores| s.interop_score_sum as nat) <= u64::MAX,
    ensures
        r.tests.total == sum_of(scores@, |s: AreaScores| s.tests.total as nat),
        r.tests.pass == sum_of(scores@, |s: AreaScores| s.tests.pass as nat),
        r.subtests.total == sum_of(scores@, |s: AreaScores| s.subtests.total as nat),
        r.subtests.pass == sum_of(scores@, |s: AreaScores| s.subtests.pass as nat),
        r.interop_score_sum == sum_of(scores@, |s: AreaScores| s.interop_score_sum as nat),
        fraction_bits(r) == fraction_total(scores@.map_values(|s: AreaScores| fraction_bits(s))),
{
    scores.into_iter().sum()
}

/// Whether names are the top-level areas, those without a slash, that a test belongs to, in
/// ascending order.
pub open spec fn are_top_areas(tops: Seq<Seq<char>>, tests: Seq<TestView>) -> bool {
    &&& ascending(tops)
    &&& forall|a: Seq<char>| #[trigger]
        tops.contains(a) <==> !a.contains('/') && area_tests(tests, a).len() > 0
}

/// The sum over areas of a weight of their tests.
pub open spec fn weight_of_areas(
    areas: Seq<Seq<char>>,
    tests: Seq<TestView>,
    w: spec_fn(TestView) -> nat,
) -> nat
    decreases areas.len(),
{
    if areas.len() == 0 {
        0
    } else {
        weight_of_areas(areas.drop_last(), tests, w) + weight(area_tests(tests, areas.last()), w)
    }
}

/// A test belongs to one top-level area at most.
proof fn lemma_top_area_unique(path: Seq<char>, a: Seq<char>, b: Seq<char>)
    requires
        in_area(path, a),
        in_area(path, b),
        !a.contains('/'),
        !b.contains('/'),
    ensures
        a == b,
{
    let dir = directory(path);
    assert(dir.subrange(0, a.len() as int) == a);
    assert(dir.subrange(0, b.len() as int) == b);
    if a.len() < b.len() {
        assert(b[a.len() as int] == dir[a.len() as int]);
        assert(b.contains('/'));
    } else if b.len() < a.len() {
        assert(a[b.len() as int] == dir[b.len() as int]);
        assert(a.contains('/'));
    }
    assert(a =~= b);
}

/// The top-level area of a test that lives in a directory.
proof fn lemma_top_area_exists(path: Seq<char>) -> (top: Seq<char>)
    requires
        path.contains('/'),
    ensures
        in_area(path, top),
        !top.contains('/'),
{
    let dir = directory(path);
    dir.index_of_first_ensures('/');
    match dir.index_of_first('/') {
        Some(i) => {
            let top = dir.take(i);
            assert(dir.subrange(0, i) =~= top);
            assert forall|j: int| 0 <= j < top.len() implies top[j] != '/' by {
                assert(dir[j] != '/');
            }
            top
        },
        None => {
            assert(dir.subrange(0, dir.len() as int) =~= dir);
            dir
        },
    }
}

proof fn lemma_area_weight_push(
    tests: Seq<TestView>,
    t: TestView,
    area: Seq<char>,
    w: spec_fn(TestView) -> nat,
)
    ensures
        weight(area_tests(tests.push(t), area), w) == weight(area_tests(tests, area), w) + (
        if in_area(t.path, area) {
            w(t)
        } else {
            0
        }),
{
    reveal(Seq::filter);
    assert(tests.push(t).drop_last() =~= tests);
    if in_area(t.path, area) {
        let more = area_tests(tests, area).push(t);
        assert(area_tests(tests.push(t), area) == more);
        assert(more.drop_last() =~= area_tests(tests, area));
    }
}

proof fn lemma_areas_weight_push(
    areas: Seq<Seq<char>>,
    tests: Seq<TestView>,
    t: TestView,
    w: spec_fn(TestView) -> nat,
)
    requires
        ascending(areas),
        forall|i: int| 0 <= i < areas.len() ==> !(#[trigger] areas[i]).contains('/'),
    ensures
        weight_of_areas(areas, tests.push(t), w) == weight_of_areas(areas, tests, w) + (
        if exists|i: int| 0 <= i < areas.len() && in_area(t.path, #[trigger] areas[i]) {
            w(t)
        } else {
            0
        }),
    decreases areas.len(),
{
    if areas.len() > 0 {
        let rest = areas.drop_last();
        assert(ascending(rest)) by {
            assert forall|i: int, j: int| 0 <= i < j < rest.len() implies text_lt(
                #[trigger] rest[i],
                #[trigger] rest[j],
            ) by {
                assert(text_lt(areas[i], areas[j]));
            }
        }
        assert forall|i: int| 0 <= i < rest.len() implies !(#[trigger] rest[i]).contains('/') by {
            assert(rest[i] == areas[i]);
        }
        lemma_areas_weight_push(rest, tests, t, w);
        lemma_area_weight_push(tests, t, areas.last(), w);
        let in_rest = exists|i: int| 0 <= i < rest.len() && in_area(t.path, #[trigger] rest[i]);
        if in_rest {
            let i = choose|i: int| 0 <= i < rest.len() && in_area(t.path, #[trigger] rest[i]);
            assert(rest[i] == areas[i]);
            assert(in_area(t.path, areas[i]));
            if in_area(t.path, areas.last()) {
                lemma_top_area_unique(t.path, areas[i], areas.last());
                assert(text_lt(areas[i], areas[areas.len() - 1]));
            }
        } else {
            if in_area(t.path, areas.last()) {
                assert(in_area(t.path, areas[areas.len() - 1]));
            }
            assert forall|i: int| 0 <= i < areas.len() - 1 implies !in_area(
                t.path,
                #[trigger] areas[i],
            ) by {
                assert(rest[i] == areas[i]);
            }
        }
    }
}

/// Whatever is added up over tests: the sum over the top-level areas is the sum over all the
/// tests that live in a directory, each counted once.
proof fn lemma_top_areas_weight(
    tops: Seq<Seq<char>>,
    tests: Seq<TestView>,
    w: spec_fn(TestView) -> nat,
)
    requires
        ascending(tops),
        forall|i: int| 0 <= i < tops.len() ==> !(#[trigger] tops[i]).contains('/'),
        forall|i: int, a: Seq<char>|
            0 <= i < tests.len() && #[trigger] in_area(tests[i].path, a) && !a.contains('/')
                ==> tops.contains(a),
    ensures
        weight_of_areas(tops, tests, w) == weight(scorable_tests(tests), w),
    decreases tests.len(),
{
    reveal(Seq::filter);
    if tests.len() == 0 {
        lemma_no_tests_no_weight(tops, w);
        assert(tests =~= Seq::<TestView>::empty());
    } else {
        let rest = tests.drop_last();
        let t = tests.last();
        assert(tests =~= rest.push(t));
        assert forall|i: int, a: Seq<char>|
            0 <= i < rest.len() && #[trigger] in_area(rest[i].path, a) && !a.contains(
                '/',
            ) implies tops.contains(a) by {
            assert(rest[i] == tests[i]);
        }
        lemma_top_areas_weight(tops, rest, w);
        lemma_areas_weight_push(tops, rest, t, w);
        if t.scorable() {
            let top = lemma_top_area_exists(t.path);
            assert(in_area(tests[tests.len() - 1].path, top));
            let i = choose|i: int| 0 <= i < tops.len() && tops[i] == top;
            assert(in_area(t.path, tops[i]));
            let more = scorable_tests(rest).push(t);
            assert(scorable_tests(tests) == more);
            assert(more.drop_last() =~= scorable_tests(rest));
        }
    }
}

proof fn lemma_no_tests_no_weight(areas: Seq<Seq<char>>, w: spec_fn(TestView) -> nat)
    ensures
        weight_of_areas(areas, Seq::empty(), w) == 0,
    decreases areas.len(),
{
    if areas.len() > 0 {
        lemma_no_tests_no_weight(areas.drop_last(), w);
        reveal(Seq::filter);
        assert(area_tests(Seq::empty(), areas.last()) =~= Seq::<TestView>::empty());
    }
}

proof fn lemma_top_areas_cover(tops: Seq<Seq<char>>, tests: Seq<TestView>)
    requires
        are_top_areas(tops, tests),
    ensures
        forall|i: int| 0 <= i < tops.len() ==> !(#[trigger] tops[i]).contains('/'),
        forall|i: int, a: Seq<char>|
            0 <= i < tests.len() && #[trigger] in_area(tests[i].path, a) && !a.contains('/')
                ==> tops.contains(a),
{
    assert forall|i: int| 0 <= i < tops.len() implies !(#[trigger] tops[i]).contains('/') by {
        assert(tops.contains(tops[i]));
    }
    assert forall|i: int, a: Seq<char>|
        0 <= i < tests.len() && #[trigger] in_area(tests[i].path, a) && !a.contains(
            '/',
        ) implies tops.contains(a) by {
        let pred = |t: TestView| in_area(t.path, a);
        broadcast use vstd::seq_lib::group_filter_ensures;
        assert(pred(tests[i]));
        assert(tests.contains(tests[i]));
        assert(area_tests(tests, a).contains(tests[i]));
    }
}

/// The top-level areas hold every test that lives in a directory, and none twice: the sums of
/// their numbers of tests and of subtests are those of the whole run.
pub proof fn law_top_areas_partition(tops: Seq<Seq<char>>, tests: Seq<TestView>)
    requires
        are_top_areas(tops, tests),
    ensures
        weight_of_areas(tops, tests, |t: TestView| 1) == scorable_tests(tests).len(),
        weight_of_areas(tops, tests, |t: TestView| t.counted().1 as nat) == subtests_total(
            scorable_tests(tests),
        ),
        weight_of_areas(tops, tests, |t: TestView| t.counted().0 as nat) == subtests_passed(
            scorable_tests(tests),
        ),
{
    lemma_top_areas_cover(tops, tests);
    lemma_top_areas_weight(tops, tests, |t: TestView| 1);
    lemma_top_areas_weight(tops, tests, |t: TestView| t.counted().1 as nat);
    lemma_top_areas_weight(tops, tests, |t: TestView| t.counted().0 as nat);
    lemma_weight_is_len(scorable_tests(tests));
}

proof fn lemma_weight_is_len(tests: Seq<TestView>)
    ensures
        weight(tests, |t: TestView| 1) == tests.len(),
    decreases tests.len(),
{
    if tests.len() > 0 {
        lemma_weight_is_len(tests.drop_last());
    }
}

proof fn lemma_weight_of_part(tests: Seq<TestView>, i: int, w: spec_fn(TestView) -> nat)
    requires
        0 <= i <= tests.len(),
    ensures
        weight(tests.take(i), w) <= weight(tests, w),
    decreases tests.len(),
{
    if i == tests.len() {
        assert(tests.take(i) =~= tests);
    } else {
        lemma_weight_of_part(tests.drop_last(), i, w);
        assert(tests.drop_last().take(i) =~= tests.take(i));
    }
}

proof fn lemma_scorable_of_part(tests: Seq<TestView>, i: int)
    requires
        0 <= i <= tests.len(),
    ensures
        scorable_tests(tests.take(i)).len() <= scorable_tests(tests).len(),
        scorable_tests(tests.take(i)) == scorable_tests(tests).take(
            scorable_tests(tests.take(i)).len() as int,
        ),
    decreases tests.len(),
{
    reveal(Seq::filter);
    if i == tests.len() {
        assert(tests.take(i) =~= tests);
        assert(scorable_tests(tests).take(scorable_tests(tests).len() as int) =~= scorable_tests(
            tests,
        ));
    } else {
        let rest = tests.drop_last();
        lemma_scorable_of_part(rest, i);
        assert(rest.take(i) =~= tests.take(i));
        let n = scorable_tests(tests.take(i)).len() as int;
        assert(scorable_tests(tests).take(n) =~= scorable_tests(rest).take(n));
    }
}

/// Whether the numbers of tests and subtests of a whole run fit their counters.
fn fits_whole(results: &RunResults) -> (r: bool)
    ensures
        r == counts_fit(results@),
{
    let max: u64 = u32::MAX as u64;
    let mut tests: u64 = 0;
    let mut passed: u64 = 0;
    let mut total: u64 = 0;
    let mut i: usize = 0;
    while i < results.tests.len()
        invariant
            i <= results.tests.len(),
            max == u32::MAX,
            tests <= max,
            passed <= max,
            total <= max,
            tests == scorable_tests(results@.take(i as int)).len(),
            passed == subtests_passed(scorable_tests(results@.take(i as int))),
            total == subtests_total(scorable_tests(results@.take(i as int))),
        decreases results.tests.len() - i,
    {
        let test = &results.tests[i];
        let ghost done = scorable_tests(results@.take(i as int));
        proof {
            reveal(Seq::filter);
            assert(results@.take(i + 1).drop_last() =~= results@.take(i as int));
            assert(results@.take(i + 1).last() == test@);
        }
        if has_char(test.path.as_str(), '/') {
            let counts = test.subtest_counts();
            tests = tests + 1;
            passed = passed + counts.pass as u64;
            total = total + counts.total as u64;
            proof {
                assert(done.push(test@).drop_last() =~= done);
            }
            if tests > max || passed > max || total > max {
                proof {
                    let part = scorable_tests(results@.take(i + 1));
                    let all = scorable_tests(results@);
                    lemma_scorable_of_part(results@, i + 1);
                    lemma_weight_of_part(
                        all,
                        part.len() as int,
                        |t: TestView| t.counted().0 as nat,
                    );
                    lemma_weight_of_part(
                        all,
                        part.len() as int,
                        |t: TestView| t.counted().1 as nat,
                    );
                }
                return false;
            }
        }
        i = i + 1;
    }
    assert(results@.take(results@.len() as int) =~= results@);
    true
}

/// The top-level area of a test; `None` where it does not live in a directory.
fn top_area(path: &str) -> (r: Option<String>)
    ensures
        r is Some <==> path@.contains('/'),
        r matches Some(top) ==> in_area(path@, top@) && !top@.contains('/'),
{
    proof {
        lemma_last_position(path@, '/');
    }
    let at = match find_last(path, '/') {
        Some(at) => at,
        None => {
            return None;
        },
    };
    let chars = chars_of(path);
    let mut end: usize = at;
    while end > 0 && chars[end - 1] == '/'
        invariant
            end <= at < chars@.len(),
            chars@ == path@,
            trim_end(path@.take(at as int), '/') == trim_end(path@.take(end as int), '/'),
        decreases end,
    {
        proof {
            assert(path@.take(end as int).drop_last() =~= path@.take(end - 1));
        }
        end = end - 1;
    }
    let ghost dir = path@.take(end as int);
    assert(directory(path@) == dir);
    let mut k: usize = 0;
    while k < end && chars[k] != '/'
        invariant
            k <= end <= at < chars@.len(),
            chars@ == path@,
            dir == path@.take(end as int),
            forall|j: int| 0 <= j < k ==> path@[j] != '/',
        decreases end - k,
    {
        k = k + 1;
    }
    let top = slice(path, 0, k);
    assert(dir.subrange(0, k as int) =~= top@);
    Some(top)
}

/// Numbers of tests, of subtests passed, and of subtests.
type Sums = (u64, u64, u64);

/// Whether numbers are those of tests, and fit their counters.
spec fn are_sums_of(sums: Sums, tests: Seq<TestView>) -> bool {
    &&& sums.0 == tests.len()
    &&& sums.1 == subtests_passed(tests)
    &&& sums.2 == subtests_total(tests)
    &&& fits(tests)
}

proof fn lemma_part_fits(tests: Seq<TestView>, i: int, area: Seq<char>)
    requires
        0 <= i <= tests.len(),
        fits(area_tests(tests, area)),
    ensures
        fits(area_tests(tests.take(i), area)),
{
    let one = |t: TestView| 1nat;
    let total = |t: TestView| t.counted().1 as nat;
    let passed = |t: TestView| t.counted().0 as nat;
    let part = tests.take(i);
    lemma_weight_is_len(area_tests(tests, area));
    lemma_weight_is_len(area_tests(part, area));
    lemma_area_weight(tests, area, one);
    lemma_area_weight(part, area, one);
    lemma_area_weight(tests, area, total);
    lemma_area_weight(part, area, total);
    lemma_area_weight(tests, area, passed);
    lemma_area_weight(part, area, passed);
    lemma_weight_of_part(tests, i, area_weight(area, one));
    lemma_weight_of_part(tests, i, area_weight(area, total));
    lemma_weight_of_part(tests, i, area_weight(area, passed));
}

/// Where the top-level areas fit, all areas do.
proof fn lemma_top_areas_fit(tests: Seq<TestView>)
    requires
        forall|area: Seq<char>| !area.contains('/') ==> fits(#[trigger] area_tests(tests, area)),
    ensures
        areas_fit(tests),
{
    assert forall|area: Seq<char>| fits(#[trigger] area_tests(tests, area)) by {
        area.index_of_first_ensures('/');
        match area.index_of_first('/') {
            Some(i) => {
                let top = area.take(i);
                assert forall|j: int| 0 <= j < top.len() implies top[j] != '/' by {
                    assert(area[j] != '/');
                }
                assert(area.subrange(0, i + 1) =~= top + seq!['/']);
                assert(fits(area_tests(tests, top)));
                law_outer_areas_count_more(tests, area, top);
            },
            None => {},
        }
    }
}

/// Whether the numbers of tests and subtests of every area fit their counters.
fn fits_areas(results: &RunResults) -> (r: bool)
    ensures
        r == areas_fit(results@),
{
    let max: u64 = u32::MAX as u64;
    let mut tops: AreaMap<Sums> = AreaMap::new();
    let mut i: usize = 0;
    proof {
        reveal(Seq::filter);
        assert(results@.take(0) =~= Seq::<TestView>::empty());
    }
    while i < results.tests.len()
        invariant
            i <= results.tests.len(),
            max == u32::MAX,
            tops.wf(),
            forall|a: Seq<char>| #[trigger]
                tops@.contains_key(a) ==> !a.contains('/') && are_sums_of(
                    tops@[a],
                    area_tests(results@.take(i as int), a),
                ),
            forall|a: Seq<char>|
                !a.contains('/') && !tops@.contains_key(a) ==> (#[trigger] area_tests(
                    results@.take(i as int),
                    a,
                )).len() == 0,
        decreases results.tests.len() - i,
    {
        let test = &results.tests[i];
        let ghost done = results@.take(i as int);
        let ghost before = tops@;
        proof {
            assert(results@.take(i + 1) =~= done.push(test@));
            assert forall|a: Seq<char>| !in_area(test.path@, a) implies #[trigger] area_tests(
                done.push(test@),
                a,
            ) == area_tests(done, a) by {
                reveal(Seq::filter);
                assert(done.push(test@).drop_last() =~= done);
            }
        }
        match top_area(test.path.as_str()) {
            Some(top) => {
                let old_sums: Sums = match tops.get(top.as_str()) {
                    Some(sums) => *sums,
                    None => (0, 0, 0),
                };
                let counts = test.subtest_counts();
                let sums: Sums = (
                    old_sums.0 + 1,
                    old_sums.1 + counts.pass as u64,
                    old_sums.2 + counts.total as u64,
                );
                proof {
                    let had = area_tests(done, top@);
                    if !before.contains_key(top@) {
                        assert(had.len() == 0);
                    }
                    reveal(Seq::filter);
                    assert(done.push(test@).drop_last() =~= done);
                    assert(area_tests(done.push(test@), top@) == had.push(test@));
                    assert(had.push(test@).drop_last() =~= had);
                }
                if sums.0 > max || sums.1 > max || sums.2 > max {
                    proof {
                        if areas_fit(results@) {
                            assert(fits(area_tests(results@, top@)));
                            lemma_part_fits(results@, i + 1, top@);
                        }
                    }
                    return false;
                }
                let ghost name = top@;
                tops.insert(top, sums);
                proof {
                    assert forall|a: Seq<char>| !a.contains('/') && a != name implies !in_area(
                        test.path@,
                        a,
                    ) by {
                        if in_area(test.path@, a) {
                            lemma_top_area_unique(test.path@, a, name);
                        }
                    }
                }
            },
            None => {},
        }
        i = i + 1;
    }
    proof {
        assert(results@.take(results@.len() as int) =~= results@);
        assert forall|area: Seq<char>| !area.contains('/') implies fits(
            #[trigger] area_tests(results@, area),
        ) by {
            if tops@.contains_key(area) {
                assert(are_sums_of(tops@[area], area_tests(results@, area)));
            }
        }
        lemma_top_areas_fit(results@);
    }
    true
}

proof fn lemma_scorable_weight(tests: Seq<TestView>, area: Seq<char>, w: spec_fn(TestView) -> nat)
    ensures
        weight(area_tests(tests, area), w) <= weight(scorable_tests(tests), w),
    decreases tests.len(),
{
    reveal(Seq::filter);
    if tests.len() == 0 {
        assert(area_tests(tests, area) =~= scorable_tests(tests));
    } else {
        let rest = tests.drop_last();
        let t = tests.last();
        lemma_scorable_weight(rest, area, w);
        if t.scorable() {
            let more = scorable_tests(rest).push(t);
            assert(scorable_tests(tests) == more);
            assert(more.drop_last() =~= scorable_tests(rest));
        }
        if in_area(t.path, area) {
            let more = area_tests(rest, area).push(t);
            assert(area_tests(tests, area) == more);
            assert(more.drop_last() =~= area_tests(rest, area));
        }
    }
}

/// Where the numbers of a whole run fit their counters, those of its areas do.
proof fn lemma_whole_fits(tests: Seq<TestView>)
    requires
        counts_fit(tests),
    ensures
        areas_fit(tests),
{
    assert forall|area: Seq<char>| fits(#[trigger] area_tests(tests, area)) by {
        lemma_weight_is_len(area_tests(tests, area));
        lemma_weight_is_len(scorable_tests(tests));
        lemma_scorable_weight(tests, area, |t: TestView| 1nat);
        lemma_scorable_weight(tests, area, |t: TestView| t.counted().1 as nat);
        lemma_scorable_weight(tests, area, |t: TestView| t.counted().0 as nat);
    }
}

/// Whether everything that is counted for a run fits its counter.
fn fits_counters(results: &RunResults, whole_tree: bool) -> (r: bool)
    ensures
        r == scores_fit(results@, whole_tree),
{
    if whole_tree {
        let fit = fits_whole(results);
        proof {
            if fit {
                lemma_whole_fits(results@);
            }
        }
        fit
    } else {
        fits_areas(results)
    }
}

/// Why a run cannot be scored.
#[derive(Debug)]
pub enum ScoreError {
    /// A number of tests or of subtests, of an area or of the total, does not fit its counter.
    Overflow,
    /// The start of the run is no RFC 3339 date.
    Date(DateError),
    /// The revision of the test suite has no first nine bytes that are whole characters.
    Revision,
}

/// The first nine bytes of a revision.
pub fn short_revision(hash: &str) -> (r: Option<String>)
    ensures
        r is Some <==> is_char_boundary(encode_utf8(hash@), 9),
        r matches Some(short) ==> encode_utf8(short@) == encode_utf8(hash@).subrange(0, 9),
{
    if hash.is_char_boundary(9) {
        let (short, _) = hash.split_at(9);
        Some(short.to_owned())
    } else {
        None
    }
}

/// Whether a score tuple is made of area scores and the score that `rounded` gives for them.
pub open spec fn is_tuple_of<F: Fn(&AreaScores) -> Score>(
    tuple: ScoreTuple,
    rounded: F,
    scores: AreaScores,
) -> bool {
    &&& tuple.0 == scores.tests.total
    &&& call_ensures(rounded, (&scores,), tuple.1)
    &&& tuple.2 == scores.subtests.total
    &&& tuple.3 == scores.subtests.pass
}

/// Whether a score tuple is that of an area.
pub open spec fn is_area_tuple<F: Fn(&AreaScores) -> Score>(
    tuple: ScoreTuple,
    rounded: F,
    tests: Seq<TestView>,
    area: Seq<char>,
) -> bool {
    exists|scores: AreaScores| #[trigger]
        are_scores_of(scores, area_tests(tests, area)) && is_tuple_of(tuple, rounded, scores)
}

/// The sum of the interop scores of areas.
pub open spec fn interop_total(areas: Seq<Seq<char>>, tests: Seq<TestView>) -> nat
    decreases areas.len(),
{
    if areas.len() == 0 {
        0
    } else {
        interop_total(areas.drop_last(), tests) + fraction_sums(
            counts_of(area_tests(tests, areas.last())),
        ).1 as nat
    }
}

/// Whether `scores` are the scores of a whole run, the sum of its top-level areas.
pub open spec fn are_totals_of(
    scores: AreaScores,
    tests: Seq<TestView>,
    tops: Seq<Seq<char>>,
) -> bool {
    &&& are_counts_of(scores, scorable_tests(tests))
    &&& are_top_areas(tops, tests)
    &&& fraction_bits(scores) == fraction_total(
        tops.map_values(|a: Seq<char>| fraction_sums(counts_of(area_tests(tests, a))).0),
    )
    &&& scores.interop_score_sum == interop_total(tops, tests)
}

/// Whether a score tuple is that of a whole run.
pub open spec fn is_total_tuple<F: Fn(&AreaScores) -> Score>(
    tuple: ScoreTuple,
    rounded: F,
    tests: Seq<TestView>,
) -> bool {
    exists|scores: AreaScores, tops: Seq<Seq<char>>| #[trigger]
        are_totals_of(scores, tests, tops) && is_tuple_of(tuple, rounded, scores)
}

/// Whether metadata is that of a run that was scored.
pub open spec fn is_meta_of(meta: RunMeta, run: Run) -> bool {
    &&& instant(run.time_start@) matches Some(t) && rfc3339_text(t.seconds, t.nanos) == Some(
        meta.date@,
    )
    &&& is_char_boundary(encode_utf8(run.full_revision_hash@), 9)
    &&& encode_utf8(meta.wpt_revision@) == encode_utf8(run.full_revision_hash@).subrange(0, 9)
    &&& meta.product_revision == run.browser_version
    &&& meta.commit_message is None
    &&& meta.run_id == Some(run.id)
}

/// Score a run across every directory of the WPT tree, and over the whole tree where the
/// results cover it. `rounded` gives the score of an area, rounded to one decimal place.
/// Skipped tests must already have been left out of the results.
pub fn score_run<F: Fn(&AreaScores) -> Score>(
    run: &Run,
    results: &RunResults,
    whole_tree: bool,
    rounded: F,
) -> (r: Result<ScoredRun, ScoreError>)
    requires
        forall|scores: &AreaScores| call_requires(rounded, (scores,)),
    ensures
        r matches Ok(scored) ==> {
            &&& scores_fit(results@, whole_tree)
            &&& is_meta_of(scored.meta, *run)
            &&& scored.scores.wf()
            &&& forall|area: Seq<char>| #[trigger]
                scored.scores@.contains_key(area) <==> area_tests(results@, area).len() > 0 || (
                whole_tree && area == TOTAL_AREA@)
            &&& forall|area: Seq<char>| #[trigger]
                scored.scores@.contains_key(area) && !(whole_tree && area == TOTAL_AREA@)
                    ==> is_area_tuple(scored.scores@[area], rounded, results@, area)
            &&& whole_tree ==> is_total_tuple(scored.scores@[TOTAL_AREA@], rounded, results@)
        },
        r matches Err(e) ==> match e {
            ScoreError::Overflow => !scores_fit(results@, whole_tree),
            ScoreError::Date(error) => scores_fit(results@, whole_tree) && is_date_error(
                run.time_start@,
                error,
            ),
            ScoreError::Revision => scores_fit(results@, whole_tree) && instant(
                run.time_start@,
            ) is Some && !is_char_boundary(encode_utf8(run.full_revision_hash@), 9),
        },
{
    if !fits_counters(results, whole_tree) {
        return Err(ScoreError::Overflow);
    }
    let scores = score_areas(results, whole_tree, rounded);
    let date = match utc_date(run.time_start.as_str()) {
        Ok(date) => date,
        Err(error) => {
            return Err(ScoreError::Date(error));
        },
    };
    let wpt_revision = match short_revision(run.full_revision_hash.as_str()) {
        Some(short) => short,
        None => {
            return Err(ScoreError::Revision);
        },
    };
    Ok(
        ScoredRun {
            meta: RunMeta {
                date,
                wpt_revision,
                product_revision: run.browser_version.clone(),
                commit_message: None,
                run_id: Some(run.id),
            },
            scores,
        },
    )
}

/// The scores of every area of a run, and of the whole run where that is asked for.
fn score_areas<F: Fn(&AreaScores) -> Score>(
    results: &RunResults,
    whole_tree: bool,
    rounded: F,
) -> (r: AreaMap<ScoreTuple>)
    requires
        scores_fit(results@, whole_tree),
        forall|scores: &AreaScores| call_requires(rounded, (scores,)),
    ensures
        r.wf(),
        forall|area: Seq<char>| #[trigger]
            r@.contains_key(area) <==> area_tests(results@, area).len() > 0 || (whole_tree && area
                == TOTAL_AREA@),
        forall|area: Seq<char>| #[trigger]
            r@.contains_key(area) && !(whole_tree && area == TOTAL_AREA@) ==> is_area_tuple(
                r@[area],
                rounded,
                results@,
                area,
            ),
        whole_tree ==> is_total_tuple(r@[TOTAL_AREA@], rounded, results@),
{
    let areas = score_report(results);
    let mut r: AreaMap<ScoreTuple> = AreaMap::new();
    let mut tops: Vec<AreaScores> = Vec::new();
    let ghost mut top_names: Seq<Seq<char>> = Seq::empty();
    let ghost names = area_names(areas@);
    let mut i: usize = 0;
    while i < areas.len()
        invariant
            i <= areas.len(),
            names == area_names(areas@),
            r.wf(),
            forall|scores: &AreaScores| call_requires(rounded, (scores,)),
            ascending(names),
            forall|k: int|
                0 <= k < areas@.len() ==> are_scores_of(
                    (#[trigger] areas@[k]).1,
                    area_tests(results@, areas@[k].0@),
                ),
            forall|k: int|
                0 <= k < areas@.len() ==> (#[trigger] areas@[k]).1.interop_score_sum <= 65535
                    * areas@[k].1.tests.total,
            forall|k: int| 0 <= k < areas@.len() ==> is_finite((#[trigger] areas@[k]).1),
            forall|k: int| 0 <= k < tops@.len() ==> is_finite(#[trigger] tops@[k]),
            forall|area: Seq<char>| #[trigger]
                r@.contains_key(area) <==> names.take(i as int).contains(area),
            forall|area: Seq<char>| #[trigger]
                r@.contains_key(area) ==> is_area_tuple(r@[area], rounded, results@, area),
            top_names.len() == tops@.len(),
            forall|k: int| 0 <= k < tops@.len() ==> top_score_of(
                tops@[k],
                results@,
                #[trigger] top_names[k],
            ),
            forall|k: int| 0 <= k < top_names.len() ==> names.take(i as int).contains(#[trigger] top_names[k]),
            forall|k: int| 0 <= k < top_names.len() ==> !(#[trigger] top_names[k]).contains('/'),
            forall|k: int|
                0 <= k < i && !(#[trigger] names[k]).contains('/') ==> top_names.contains(names[k]),
            ascending(top_names),
        decreases areas.len() - i,
    {
        let name = &areas[i].0;
        let scores = areas[i].1;
        let ghost old_tops = top_names;
        assert(names[i as int] == name@);
        proof {
            assert(names.take(i + 1) =~= names.take(i as int).push(name@));
        }
        let tuple = score_tuple(&scores, rounded(&scores));
        assert(are_scores_of(scores, area_tests(results@, name@)));
        assert(is_tuple_of(tuple, rounded, scores));
        assert(is_area_tuple(tuple, rounded, results@, name@));
        r.insert(name.clone(), tuple);
        proof {
            assert forall|a: Seq<char>| #[trigger]
                r@.contains_key(a) <==> names.take(i + 1).contains(a) by {
                lemma_push_contains(names.take(i as int), name@, a);
            }
            assert forall|k: int| 0 <= k < top_names.len() implies names.take(i + 1).contains(
                #[trigger] top_names[k],
            ) by {
                lemma_push_contains(names.take(i as int), name@, top_names[k]);
            }
            lemma_push_contains(names.take(i as int), name@, name@);
        }
        if !has_char(name.as_str(), '/') {
            tops.push(scores);
            proof {
                top_names = top_names.push(name@);
                assert(ascending(top_names)) by {
                    assert forall|x: int, y: int| 0 <= x < y < top_names.len() implies text_lt(
                        #[trigger] top_names[x],
                        #[trigger] top_names[y],
                    ) by {
                        if y == old_tops.len() {
                            assert(names.take(i as int).contains(old_tops[x]));
                            let k = choose|k: int|
                                0 <= k < i && names.take(i as int)[k] == old_tops[x];
                            assert(names[k] == old_tops[x]);
                            assert(text_lt(names[k], names[i as int]));
                        }
                    }
                }
                assert(top_names[old_tops.len() as int] == name@);
                assert forall|k: int|
                    0 <= k < i + 1 && !(#[trigger] names[k]).contains(
                        '/',
                    ) implies top_names.contains(names[k]) by {
                    lemma_push_contains(old_tops, name@, names[k]);
                }
            }
        }
        i = i + 1;
    }
    proof {
        assert(names.take(names.len() as int) =~= names);
        assert forall|a: Seq<char>| #[trigger]
            top_names.contains(a) <==> !a.contains('/') && area_tests(results@, a).len() > 0 by {
            if top_names.contains(a) {
                let k = choose|k: int| 0 <= k < top_names.len() && top_names[k] == a;
                assert(names.contains(a));
            }
            if !a.contains('/') && area_tests(results@, a).len() > 0 {
                assert(names.contains(a));
                let k = choose|k: int| 0 <= k < names.len() && names[k] == a;
                assert(names[k] == a);
            }
        }
    }
    if whole_tree {
        let ghost top_scores = tops@;
        proof {
            lemma_top_sums(top_scores, top_names, results@);
        }
        let total = sum_scores(tops);
        proof {
            assert(top_scores.map_values(|s: AreaScores| fraction_bits(s))
                =~= top_names.map_values(
                |a: Seq<char>| fraction_sums(counts_of(area_tests(results@, a))).0,
            )) by {
                assert forall|k: int| 0 <= k < top_scores.len() implies fraction_bits(
                    #[trigger] top_scores[k],
                ) == fraction_sums(counts_of(area_tests(results@, top_names[k]))).0 by {
                    assert(top_score_of(top_scores[k], results@, top_names[k]));
                }
            }
            assert(are_totals_of(total, results@, top_names));
        }
        let tuple = score_tuple(&total, rounded(&total));
        assert(is_tuple_of(tuple, rounded, total));
        assert(is_total_tuple(tuple, rounded, results@));
        r.insert(TOTAL_AREA.to_owned(), tuple);
    }
    r
}

/// What is known of the scores of a top-level area.
spec fn top_score_of(scores: AreaScores, tests: Seq<TestView>, area: Seq<char>) -> bool {
    &&& are_scores_of(scores, area_tests(tests, area))
    &&& scores.interop_score_sum <= 65535 * scores.tests.total
}

proof fn lemma_push_contains(s: Seq<Seq<char>>, x: Seq<char>, a: Seq<char>)
    ensures
        s.push(x).contains(a) <==> s.contains(a) || a == x,
{
    if s.contains(a) {
        let k = choose|k: int| 0 <= k < s.len() && s[k] == a;
        assert(s.push(x)[k] == a);
    }
    assert(s.push(x)[s.len() as int] == x);
    if s.push(x).contains(a) {
        let k = choose|k: int| 0 <= k < s.push(x).len() && s.push(x)[k] == a;
        if k < s.len() {
            assert(s[k] == a);
        }
    }
}

proof fn lemma_sums_are_weights(scores: Seq<AreaScores>, areas: Seq<Seq<char>>, tests: Seq<TestView>)
    requires
        scores.len() == areas.len(),
        forall|k: int| 0 <= k < areas.len() ==> top_score_of(scores[k], tests, #[trigger] areas[k]),
    ensures
        sum_of(scores, |s: AreaScores| s.tests.total as nat) == weight_of_areas(
            areas,
            tests,
            |t: TestView| 1,
        ),
        sum_of(scores, |s: AreaScores| s.tests.pass as nat) == weight_of_areas(
            areas,
            tests,
            |t: TestView| if t.counted().0 == t.counted().1 { 1 } else { 0 },
        ),
        sum_of(scores, |s: AreaScores| s.subtests.total as nat) == weight_of_areas(
            areas,
            tests,
            |t: TestView| t.counted().1 as nat,
        ),
        sum_of(scores, |s: AreaScores| s.subtests.pass as nat) == weight_of_areas(
            areas,
            tests,
            |t: TestView| t.counted().0 as nat,
        ),
        sum_of(scores, |s: AreaScores| s.interop_score_sum as nat) <= 65535 * sum_of(
            scores,
            |s: AreaScores| s.tests.total as nat,
        ),
        sum_of(scores, |s: AreaScores| s.interop_score_sum as nat) == interop_total(areas, tests),
    decreases scores.len(),
{
    if scores.len() > 0 {
        let fewer = areas.drop_last();
        assert forall|k: int| 0 <= k < fewer.len() implies top_score_of(
            scores.drop_last()[k],
            tests,
            #[trigger] fewer[k],
        ) by {
            assert(top_score_of(scores[k], tests, areas[k]));
        }
        lemma_sums_are_weights(scores.drop_last(), fewer, tests);
        assert(top_score_of(scores[scores.len() - 1], tests, areas[areas.len() - 1]));
        lemma_weight_is_len(area_tests(tests, areas.last()));
    }
}

proof fn lemma_passing_at_most(tests: Seq<TestView>)
    ensures
        tests_passed(tests) <= tests.len(),
    decreases tests.len(),
{
    if tests.len() > 0 {
        lemma_passing_at_most(tests.drop_last());
    }
}

proof fn lemma_top_sums(scores: Seq<AreaScores>, tops: Seq<Seq<char>>, tests: Seq<TestView>)
    requires
        counts_fit(tests),
        are_top_areas(tops, tests),
        scores.len() == tops.len(),
        forall|k: int| 0 <= k < tops.len() ==> top_score_of(scores[k], tests, #[trigger] tops[k]),
    ensures
        sum_of(scores, |s: AreaScores| s.tests.total as nat) == scorable_tests(tests).len(),
        sum_of(scores, |s: AreaScores| s.tests.pass as nat) == tests_passed(scorable_tests(tests)),
        sum_of(scores, |s: AreaScores| s.subtests.total as nat) == subtests_total(
            scorable_tests(tests),
        ),
        sum_of(scores, |s: AreaScores| s.subtests.pass as nat) == subtests_passed(
            scorable_tests(tests),
        ),
        sum_of(scores, |s: AreaScores| s.tests.pass as nat) <= u32::MAX,
        sum_of(scores, |s: AreaScores| s.interop_score_sum as nat) <= u64::MAX,
        sum_of(scores, |s: AreaScores| s.interop_score_sum as nat) == interop_total(tops, tests),
{
    lemma_sums_are_weights(scores, tops, tests);
    law_top_areas_partition(tops, tests);
    lemma_top_areas_cover(tops, tests);
    lemma_top_areas_weight(
        tops,
        tests,
        |t: TestView| if t.counted().0 == t.counted().1 { 1 } else { 0 },
    );
    lemma_passing_at_most(scorable_tests(tests));
}

/// What a test adds to the weight of an area.
spec fn area_weight(area: Seq<char>, w: spec_fn(TestView) -> nat) -> spec_fn(TestView) -> nat {
    |t: TestView|
        if in_area(t.path, area) {
            w(t)
        } else {
            0
        }
}

proof fn lemma_area_weight(tests: Seq<TestView>, area: Seq<char>, w: spec_fn(TestView) -> nat)
    ensures
        weight(area_tests(tests, area), w) == weight(tests, area_weight(area, w)),
    decreases tests.len(),
{
    if tests.len() == 0 {
        reveal(Seq::filter);
        assert(area_tests(tests, area) =~= Seq::<TestView>::empty());
    } else {
        lemma_area_weight(tests.drop_last(), area, w);
        lemma_area_weight_push(tests.drop_last(), tests.last(), area, w);
        assert(tests =~= tests.drop_last().push(tests.last()));
    }
}

proof fn lemma_weight_of_removed(tests: Seq<TestView>, k: int, w: spec_fn(TestView) -> nat)
    requires
        0 <= k < tests.len(),
    ensures
        weight(tests, w) == weight(tests.remove(k), w) + w(tests[k]),
    decreases tests.len(),
{
    if k == tests.len() - 1 {
        assert(tests.remove(k) =~= tests.drop_last());
    } else {
        lemma_weight_of_removed(tests.drop_last(), k, w);
        assert(tests.remove(k).drop_last() =~= tests.drop_last().remove(k));
        assert(tests.remove(k).last() == tests.last());
    }
}

proof fn lemma_weight_ignores_order(
    a: Seq<TestView>,
    b: Seq<TestView>,
    w: spec_fn(TestView) -> nat,
)
    requires
        a.to_multiset() == b.to_multiset(),
    ensures
        weight(a, w) == weight(b, w),
    decreases a.len(),
{
    a.to_multiset_ensures();
    b.to_multiset_ensures();
    if a.len() > 0 {
        let t = a.last();
        assert(a.contains(t));
        assert(b.to_multiset().count(t) > 0);
        let k = b.index_of(t);
        assert(a.drop_last() =~= a.remove(a.len() - 1));
        lemma_weight_ignores_order(a.drop_last(), b.remove(k), w);
        lemma_weight_of_removed(b, k, w);
    }
}

/// The numbers of tests and of subtests of an area do not depend on the order of the tests.
pub proof fn law_counts_ignore_order(a: Seq<TestView>, b: Seq<TestView>, area: Seq<char>)
    requires
        a.to_multiset() == b.to_multiset(),
    ensures
        area_tests(a, area).len() == area_tests(b, area).len(),
        tests_passed(area_tests(a, area)) == tests_passed(area_tests(b, area)),
        subtests_total(area_tests(a, area)) == subtests_total(area_tests(b, area)),
        subtests_passed(area_tests(a, area)) == subtests_passed(area_tests(b, area)),
{
    let one = |t: TestView| 1nat;
    let all = |t: TestView| if t.counted().0 == t.counted().1 { 1nat } else { 0nat };
    let total = |t: TestView| t.counted().1 as nat;
    let passed = |t: TestView| t.counted().0 as nat;
    lemma_weight_is_len(area_tests(a, area));
    lemma_weight_is_len(area_tests(b, area));
    lemma_area_weight(a, area, one);
    lemma_area_weight(b, area, one);
    lemma_area_weight(a, area, all);
    lemma_area_weight(b, area, all);
    lemma_area_weight(a, area, total);
    lemma_area_weight(b, area, total);
    lemma_area_weight(a, area, passed);
    lemma_area_weight(b, area, passed);
    lemma_weight_ignores_order(a, b, area_weight(area, one));
    lemma_weight_ignores_order(a, b, area_weight(area, all));
    lemma_weight_ignores_order(a, b, area_weight(area, total));
    lemma_weight_ignores_order(a, b, area_weight(area, passed));
}

proof fn lemma_more_weight(
    tests: Seq<TestView>,
    v: spec_fn(TestView) -> nat,
    w: spec_fn(TestView) -> nat,
)
    requires
        forall|i: int| 0 <= i < tests.len() ==> v(#[trigger] tests[i]) <= w(tests[i]),
    ensures
        weight(tests, v) <= weight(tests, w),
    decreases tests.len(),
{
    if tests.len() > 0 {
        let rest = tests.drop_last();
        assert forall|i: int| 0 <= i < rest.len() implies v(#[trigger] rest[i]) <= w(rest[i]) by {
            assert(rest[i] == tests[i]);
        }
        lemma_more_weight(rest, v, w);
        assert(v(tests[tests.len() - 1]) <= w(tests[tests.len() - 1]));
    }
}

/// Whether an area lies within another.
pub open spec fn lies_within(inner: Seq<char>, outer: Seq<char>) -> bool {
    begins_with(inner, outer + seq!['/'])
}

/// A test of an area belongs to every area around it.
pub proof fn law_areas_nest(path: Seq<char>, inner: Seq<char>, outer: Seq<char>)
    requires
        in_area(path, inner),
        lies_within(inner, outer),
    ensures
        in_area(path, outer),
{
    let dir = directory(path);
    let open = outer + seq!['/'];
    assert(dir.subrange(0, inner.len() as int) == inner);
    assert(inner.subrange(0, open.len() as int) == open);
    assert(dir.subrange(0, outer.len() as int) =~= outer) by {
        assert forall|i: int| 0 <= i < outer.len() implies dir[i] == outer[i] by {
            assert(dir[i] == inner[i]);
            assert(inner[i] == open[i]);
        }
    }
    let n = outer.len() as int;
    assert(dir[n] == inner[n]);
    assert(inner[n] == open[n]);
}

/// An area counts no more than the areas around it, and a run that has an area has those too.
pub proof fn law_outer_areas_count_more(
    tests: Seq<TestView>,
    inner: Seq<char>,
    outer: Seq<char>,
)
    requires
        lies_within(inner, outer),
    ensures
        area_tests(tests, inner).len() <= area_tests(tests, outer).len(),
        subtests_total(area_tests(tests, inner)) <= subtests_total(area_tests(tests, outer)),
        subtests_passed(area_tests(tests, inner)) <= subtests_passed(area_tests(tests, outer)),
{
    let one = |t: TestView| 1nat;
    let total = |t: TestView| t.counted().1 as nat;
    let passed = |t: TestView| t.counted().0 as nat;
    assert forall|i: int| 0 <= i < tests.len() && in_area(
        (#[trigger] tests[i]).path,
        inner,
    ) implies in_area(tests[i].path, outer) by {
        law_areas_nest(tests[i].path, inner, outer);
    }
    lemma_weight_is_len(area_tests(tests, inner));
    lemma_weight_is_len(area_tests(tests, outer));
    lemma_area_weight(tests, inner, one);
    lemma_area_weight(tests, outer, one);
    lemma_area_weight(tests, inner, total);
    lemma_area_weight(tests, outer, total);
    lemma_area_weight(tests, inner, passed);
    lemma_area_weight(tests, outer, passed);
    lemma_more_weight(tests, area_weight(inner, one), area_weight(outer, one));
    lemma_more_weight(tests, area_weight(inner, total), area_weight(outer, total));
    lemma_more_weight(tests, area_weight(inner, passed), area_weight(outer, passed));
}

/// Where no test passes more subtests than it has, no area does.
pub proof fn law_passed_at_most_total(tests: Seq<TestView>, area: Seq<char>)
    requires
        forall|i: int| 0 <= i < tests.len() ==> (#[trigger] tests[i]).pass <= tests[i].total,
    ensures
        subtests_passed(area_tests(tests, area)) <= subtests_total(area_tests(tests, area)),
        tests_passed(area_tests(tests, area)) <= area_tests(tests, area).len(),
{
    let total = |t: TestView| t.counted().1 as nat;
    let passed = |t: TestView| t.counted().0 as nat;
    lemma_area_weight(tests, area, total);
    lemma_area_weight(tests, area, passed);
    lemma_more_weight(tests, area_weight(area, passed), area_weight(area, total));
    lemma_passing_at_most(area_tests(tests, area));
}

/// Every test of an area adds at least one subtest to it.
pub proof fn law_tests_have_subtests(tests: Seq<TestView>, area: Seq<char>)
    ensures
        area_tests(tests, area).len() <= subtests_total(area_tests(tests, area)),
{
    let one = |t: TestView| 1nat;
    let total = |t: TestView| t.counted().1 as nat;
    lemma_weight_is_len(area_tests(tests, area));
    lemma_more_weight(area_tests(tests, area), one, total);
}

/// What scoring reads of tests: the path of each that lives in a directory, with its subtests
/// passed and in total.
pub open spec fn scored_parts(tests: Seq<TestView>) -> Seq<(Seq<char>, (u32, u32))> {
    scorable_tests(tests).map_values(|t: TestView| (t.path, t.counted()))
}

/// The subtests passed and in total of each of the parts that belong to an area.
spec fn area_parts(parts: Seq<(Seq<char>, (u32, u32))>, area: Seq<char>) -> Seq<(u32, u32)>
    decreases parts.len(),
{
    if parts.len() == 0 {
        Seq::empty()
    } else {
        let before = area_parts(parts.drop_last(), area);
        if in_area(parts.last().0, area) {
            before.push(parts.last().1)
        } else {
            before
        }
    }
}

proof fn lemma_area_parts(tests: Seq<TestView>, area: Seq<char>)
    ensures
        counts_of(area_tests(tests, area)) == area_parts(scored_parts(tests), area),
    decreases tests.len(),
{
    reveal(Seq::filter);
    if tests.len() == 0 {
        assert(counts_of(area_tests(tests, area)) =~= area_parts(scored_parts(tests), area));
    } else {
        let rest = tests.drop_last();
        let t = tests.last();
        lemma_area_parts(rest, area);
        if t.scorable() {
            let parts = scored_parts(rest).push((t.path, t.counted()));
            assert(scored_parts(tests) =~= parts);
            assert(parts.drop_last() =~= scored_parts(rest));
        }
        if in_area(t.path, area) {
            assert(counts_of(area_tests(tests, area)) =~= counts_of(area_tests(rest, area)).push(
                t.counted(),
            ));
        }
    }
}

proof fn lemma_weight_by_counts(
    a: Seq<TestView>,
    b: Seq<TestView>,
    w: spec_fn(TestView) -> nat,
)
    requires
        counts_of(a) == counts_of(b),
        forall|x: TestView, y: TestView| x.counted() == y.counted() ==> #[trigger] w(x)
            == #[trigger] w(y),
    ensures
        weight(a, w) == weight(b, w),
    decreases a.len(),
{
    assert(counts_of(a).len() == a.len());
    assert(counts_of(b).len() == b.len());
    if a.len() > 0 {
        assert(counts_of(a.drop_last()) =~= counts_of(a).drop_last());
        assert(counts_of(b.drop_last()) =~= counts_of(b).drop_last());
        lemma_weight_by_counts(a.drop_last(), b.drop_last(), w);
        assert(counts_of(a)[a.len() - 1] == a.last().counted());
        assert(counts_of(b)[b.len() - 1] == b.last().counted());
        assert(w(a.last()) == w(b.last()));
    }
}

proof fn lemma_same_counts(a: Seq<TestView>, b: Seq<TestView>)
    requires
        counts_of(a) == counts_of(b),
    ensures
        a.len() == b.len(),
        tests_passed(a) == tests_passed(b),
        subtests_total(a) == subtests_total(b),
        subtests_passed(a) == subtests_passed(b),
{
    assert(counts_of(a).len() == a.len());
    assert(counts_of(b).len() == b.len());
    lemma_weight_by_counts(
        a,
        b,
        |t: TestView| if t.counted().0 == t.counted().1 { 1 } else { 0 },
    );
    lemma_weight_by_counts(a, b, |t: TestView| t.counted().1 as nat);
    lemma_weight_by_counts(a, b, |t: TestView| t.counted().0 as nat);
}

proof fn lemma_same_parts(a: Seq<TestView>, b: Seq<TestView>)
    requires
        scored_parts(a) == scored_parts(b),
    ensures
        counts_of(scorable_tests(a)) == counts_of(scorable_tests(b)),
        forall|area: Seq<char>| #[trigger]
            counts_of(area_tests(a, area)) == counts_of(area_tests(b, area)),
        forall|area: Seq<char>| #[trigger]
            area_tests(a, area).len() == area_tests(b, area).len(),
{
    let (x, y) = (scored_parts(a), scored_parts(b));
    assert(counts_of(scorable_tests(a)) =~= x.map_values(|p: (Seq<char>, (u32, u32))| p.1));
    assert(counts_of(scorable_tests(b)) =~= y.map_values(|p: (Seq<char>, (u32, u32))| p.1));
    assert forall|area: Seq<char>| #[trigger] counts_of(area_tests(a, area)) == counts_of(
        area_tests(b, area),
    ) by {
        lemma_area_parts(a, area);
        lemma_area_parts(b, area);
    }
    assert forall|area: Seq<char>| #[trigger] area_tests(a, area).len() == area_tests(
        b,
        area,
    ).len() by {
        assert(counts_of(area_tests(a, area)) == counts_of(area_tests(b, area)));
        lemma_same_counts(area_tests(a, area), area_tests(b, area));
    }
}

proof fn lemma_same_interop(areas: Seq<Seq<char>>, a: Seq<TestView>, b: Seq<TestView>)
    requires
        scored_parts(a) == scored_parts(b),
    ensures
        interop_total(areas, a) == interop_total(areas, b),
    decreases areas.len(),
{
    if areas.len() > 0 {
        lemma_same_interop(areas.drop_last(), a, b);
        lemma_same_parts(a, b);
        assert(counts_of(area_tests(a, areas.last())) == counts_of(area_tests(b, areas.last())));
    }
}

proof fn lemma_same_totals(
    scores: AreaScores,
    a: Seq<TestView>,
    b: Seq<TestView>,
    tops: Seq<Seq<char>>,
)
    requires
        scored_parts(a) == scored_parts(b),
        are_totals_of(scores, a, tops),
    ensures
        are_totals_of(scores, b, tops),
{
    lemma_same_parts(a, b);
    lemma_same_counts(scorable_tests(a), scorable_tests(b));
    lemma_same_interop(tops, a, b);
    assert(are_top_areas(tops, b)) by {
        assert forall|t: Seq<char>| #[trigger] tops.contains(t) <==> !t.contains('/')
            && area_tests(b, t).len() > 0 by {
            assert(area_tests(a, t).len() == area_tests(b, t).len());
        }
    }
    assert(tops.map_values(|t: Seq<char>| fraction_sums(counts_of(area_tests(a, t))).0)
        =~= tops.map_values(|t: Seq<char>| fraction_sums(counts_of(area_tests(b, t))).0)) by {
        assert forall|k: int| 0 <= k < tops.len() implies #[trigger] counts_of(
            area_tests(a, tops[k]),
        ) == counts_of(area_tests(b, tops[k])) by {}
    }
}

/// Scores depend on nothing but the paths and the numbers of subtests of the tests that live in
/// directories: results that agree on these have the same areas, and what is the score of an
/// area, or of the whole run, by the one is so by the other.
pub proof fn law_scores_read_paths_and_counts<F: Fn(&AreaScores) -> Score>(
    a: Seq<TestView>,
    b: Seq<TestView>,
    rounded: F,
    area: Seq<char>,
    tuple: ScoreTuple,
)
    requires
        scored_parts(a) == scored_parts(b),
    ensures
        areas_fit(a) == areas_fit(b),
        counts_fit(a) == counts_fit(b),
        area_tests(a, area).len() == area_tests(b, area).len(),
        is_area_tuple(tuple, rounded, a, area) == is_area_tuple(tuple, rounded, b, area),
        is_total_tuple(tuple, rounded, a) == is_total_tuple(tuple, rounded, b),
{
    lemma_same_parts(a, b);
    lemma_same_counts(scorable_tests(a), scorable_tests(b));
    let (x, y) = (area_tests(a, area), area_tests(b, area));
    assert(counts_of(x) == counts_of(y));
    lemma_same_counts(x, y);
    assert forall|other: Seq<char>| fits(#[trigger] area_tests(a, other)) == fits(
        area_tests(b, other),
    ) by {
        assert(counts_of(area_tests(a, other)) == counts_of(area_tests(b, other)));
        lemma_same_counts(area_tests(a, other), area_tests(b, other));
    }
    assert(areas_fit(a) == areas_fit(b)) by {
        if areas_fit(a) {
            assert forall|other: Seq<char>| fits(#[trigger] area_tests(b, other)) by {
                assert(fits(area_tests(a, other)));
            }
        }
        if areas_fit(b) {
            assert forall|other: Seq<char>| fits(#[trigger] area_tests(a, other)) by {
                assert(fits(area_tests(b, other)));
            }
        }
    }
    if is_area_tuple(tuple, rounded, a, area) {
        let scores = choose|scores: AreaScores| #[trigger]
            are_scores_of(scores, x) && is_tuple_of(tuple, rounded, scores);
        assert(are_scores_of(scores, y));
    }
    if is_area_tuple(tuple, rounded, b, area) {
        let scores = choose|scores: AreaScores| #[trigger]
            are_scores_of(scores, y) && is_tuple_of(tuple, rounded, scores);
        assert(are_scores_of(scores, x));
    }
    if is_total_tuple(tuple, rounded, a) {
        let (scores, tops) = choose|scores: AreaScores, tops: Seq<Seq<char>>| #[trigger]
            are_totals_of(scores, a, tops) && is_tuple_of(tuple, rounded, scores);
        lemma_same_totals(scores, a, b, tops);
    }
    if is_total_tuple(tuple, rounded, b) {
        let (scores, tops) = choose|scores: AreaScores, tops: Seq<Seq<char>>| #[trigger]
            are_totals_of(scores, b, tops) && is_tuple_of(tuple, rounded, scores);
        lemma_same_totals(scores, b, a, tops);
    }
}

/// Whether two scores hold the same numbers, floating point numbers being the same where their
/// bits are.
pub open spec fn same_numbers(x: AreaScores, y: AreaScores) -> bool {
    &&& x.tests.total == y.tests.total
    &&& x.tests.pass == y.tests.pass
    &&& x.subtests.total == y.subtests.total
    &&& x.subtests.pass == y.subtests.pass
    &&& x.interop_score_sum == y.interop_score_sum
    &&& fraction_bits(x) == fraction_bits(y)
}

/// Whether `rounded` gives one score for scores with the same numbers.
pub open spec fn rounds_by_numbers<F: Fn(&AreaScores) -> Score>(rounded: F) -> bool {
    forall|x: AreaScores, y: AreaScores, p: Score, q: Score|
        same_numbers(x, y) && #[trigger] call_ensures(rounded, (&x,), p)
            && #[trigger] call_ensures(rounded, (&y,), q) ==> p == q
}

proof fn lemma_top_areas_unique(p: Seq<Seq<char>>, q: Seq<Seq<char>>, tests: Seq<TestView>)
    requires
        are_top_areas(p, tests),
        are_top_areas(q, tests),
    ensures
        p == q,
{
    assert forall|a: Seq<char>| #[trigger] p.contains(a) == q.contains(a) by {}
    lemma_ascending_unique(p, q);
}

/// A run has one score for every area, and one total: scoring the same results, or results that
/// agree on the paths and numbers of subtests of the tests in directories, gives the same.
pub proof fn law_scores_determined<F: Fn(&AreaScores) -> Score>(
    a: Seq<TestView>,
    b: Seq<TestView>,
    rounded: F,
    area: Seq<char>,
    p: ScoreTuple,
    q: ScoreTuple,
)
    requires
        scored_parts(a) == scored_parts(b),
        rounds_by_numbers(rounded),
    ensures
        is_area_tuple(p, rounded, a, area) && is_area_tuple(q, rounded, b, area) ==> p == q,
        is_total_tuple(p, rounded, a) && is_total_tuple(q, rounded, b) ==> p == q,
{
    law_scores_read_paths_and_counts(a, b, rounded, area, q);
    if is_area_tuple(p, rounded, a, area) && is_area_tuple(q, rounded, a, area) {
        let tests = area_tests(a, area);
        let x = choose|x: AreaScores| #[trigger]
            are_scores_of(x, tests) && is_tuple_of(p, rounded, x);
        let y = choose|y: AreaScores| #[trigger]
            are_scores_of(y, tests) && is_tuple_of(q, rounded, y);
        assert(same_numbers(x, y));
    }
    if is_total_tuple(p, rounded, a) && is_total_tuple(q, rounded, a) {
        let (x, t) = choose|x: AreaScores, t: Seq<Seq<char>>| #[trigger]
            are_totals_of(x, a, t) && is_tuple_of(p, rounded, x);
        let (y, u) = choose|y: AreaScores, u: Seq<Seq<char>>| #[trigger]
            are_totals_of(y, a, u) && is_tuple_of(q, rounded, y);
        lemma_top_areas_unique(t, u, a);
        assert(same_numbers(x, y));
    }
}

/// The metadata of a scored run depends on the run alone.
pub proof fn law_meta_determined(a: RunMeta, b: RunMeta, run: Run)
    requires
        is_meta_of(a, run),
        is_meta_of(b, run),
    ensures
        a.date@ == b.date@,
        a.wpt_revision@ == b.wpt_revision@,
        a.product_revision == b.product_revision,
        a.commit_message == b.commit_message,
        a.run_id == b.run_id,
{
    lemma_encoding_injective(a.wpt_revision@, b.wpt_revision@);
}

}
