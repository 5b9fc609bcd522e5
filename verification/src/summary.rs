//! The summary dataset: metadata of runs, plus one index-aligned score file per WPT directory.

use vstd::prelude::*;
use vstd::string::*;
use wptreport::AreaScores;

use crate::area_map::{ascending, lemma_paired, paired, AreaMap};
use crate::sort::{permuted, sort_order, sorting, SortKey};
use crate::store_laws::law_append_order;
use crate::text::{compare, concat, decimal, decimal_text, same_text, text_le, text_lt, texts};
use crate::text::{lemma_text_le_antisymmetric, lemma_text_le_total, lemma_text_le_transitive};
use crate::text::{lemma_decimal_injective, Comparison};

verus! {

/// A floating point score, carried by the bits of its IEEE 754 double precision number.
#[derive(Debug, Clone, Copy, PartialEq, Eq, Structural)]
pub struct Score {
    pub bits: u64,
}

/// Scores of an area for a single run: total tests, total score (rounded to one decimal
/// place), total subtests, total subtests passed.
pub type ScoreTuple = (u32, Score, u32, u32);

/// The score tuple of an area, given its rounded score.
pub fn score_tuple(scores: &AreaScores, score: Score) -> (r: ScoreTuple)
    ensures
        r == (scores.tests.total, score, scores.subtests.total, scores.subtests.pass),
{
    (scores.tests.total, score, scores.subtests.total, scores.subtests.pass)
}

/// Metadata about a single WPT run, shared by all score files.
#[derive(Debug)]
pub struct RunMeta {
    /// When the run started, RFC 3339 format.
    pub date: String,
    /// The revision of the WPT test suite that was run (9-char sha).
    pub wpt_revision: String,
    /// The browser version that was tested.
    pub product_revision: String,
    /// First line of the tested commit's message (unused for browsers).
    pub commit_message: Option<String>,
    /// The wpt.fyi run ID. Used to de-duplicate runs, since `product_revision` (a browser
    /// version) is not unique.
    pub run_id: Option<u64>,
}

impl Clone for RunMeta {
    fn clone(&self) -> (r: Self)
        ensures
            r == *self,
    {
        RunMeta {
            date: self.date.clone(),
            wpt_revision: self.wpt_revision.clone(),
            product_revision: self.product_revision.clone(),
            commit_message: match &self.commit_message {
                Some(message) => Some(message.clone()),
                None => None,
            },
            run_id: self.run_id,
        }
    }
}

/// The pseudo-area that holds the whole-run total (the sum of every top-level area).
pub const TOTAL_AREA: &'static str = "";

/// A run scored across the directories of the WPT tree.
pub struct ScoredRun {
    pub meta: RunMeta,
    pub scores: AreaMap<ScoreTuple>,
}

/// A scored run as a mathematical value.
pub struct ScoredRunView {
    pub meta: RunMeta,
    pub scores: Map<Seq<char>, ScoreTuple>,
}

impl View for ScoredRun {
    type V = ScoredRunView;

    open spec fn view(&self) -> ScoredRunView {
        ScoredRunView { meta: self.meta, scores: self.scores@ }
    }
}

impl RunMeta {
    /// What tells runs apart: the wpt.fyi run ID if set, otherwise the product revision.
    pub open spec fn key(self) -> Seq<char> {
        match self.run_id {
            Some(id) => "run:"@ + decimal_text(id as nat),
            None => self.product_revision@,
        }
    }

    /// What tells runs apart: the wpt.fyi run ID if set, otherwise the product revision.
    pub fn dedup_key(&self) -> (r: String)
        ensures
            r@ == self.key(),
    {
        match self.run_id {
            Some(id) => {
                let id = decimal(id);
                concat("run:", id.as_str())
            },
            None => self.product_revision.clone(),
        }
    }
}

/// Runs with different wpt.fyi run IDs are told apart, whatever else they have in common.
pub proof fn law_run_ids_tell_apart(a: RunMeta, b: RunMeta)
    requires
        a.run_id is Some,
        b.run_id is Some,
    ensures
        a.key() == b.key() <==> a.run_id == b.run_id,
{
    if a.key() == b.key() {
        let (x, y) = (decimal_text(a.run_id->0 as nat), decimal_text(b.run_id->0 as nat));
        let head = "run:"@;
        assert(a.key().skip(head.len() as int) =~= x);
        assert(b.key().skip(head.len() as int) =~= y);
        lemma_decimal_injective(a.run_id->0 as nat, b.run_id->0 as nat);
    }
}

impl SortKey for RunMeta {
    /// By date, then by product revision.
    open spec fn key_le(self, other: Self) -> bool {
        text_lt(self.date@, other.date@) || (self.date@ == other.date@ && text_le(
            self.product_revision@,
            other.product_revision@,
        ))
    }

    proof fn key_le_total(a: Self, b: Self) {
        lemma_text_le_total(a.date@, b.date@);
        lemma_text_le_total(a.product_revision@, b.product_revision@);
    }

    proof fn key_le_transitive(a: Self, b: Self, c: Self) {
        if text_le(a.date@, b.date@) && text_le(b.date@, c.date@) {
            lemma_text_le_transitive(a.date@, b.date@, c.date@);
            if a.date@ == c.date@ {
                lemma_text_le_antisymmetric(a.date@, b.date@);
            }
        }
        if a.date@ == b.date@ && b.date@ == c.date@ {
            lemma_text_le_transitive(
                a.product_revision@,
                b.product_revision@,
                c.product_revision@,
            );
        }
    }

    fn comes_first(&self, other: &Self) -> (r: bool) {
        match compare(self.date.as_str(), other.date.as_str()) {
            Comparison::Less => true,
            Comparison::Greater => false,
            Comparison::Equal => match compare(
                self.product_revision.as_str(),
                other.product_revision.as_str(),
            ) {
                Comparison::Greater => {
                    proof {
                        lemma_text_le_antisymmetric_contra(
                            self.product_revision@,
                            other.product_revision@,
                        );
                    }
                    false
                },
                _ => {
                    proof {
                        lemma_text_le_total(self.product_revision@, other.product_revision@);
                    }
                    true
                },
            },
        }
    }
}

proof fn lemma_text_le_antisymmetric_contra(a: Seq<char>, b: Seq<char>)
    requires
        text_lt(b, a),
    ensures
        !text_le(a, b),
{
    if text_le(a, b) {
        lemma_text_le_antisymmetric(a, b);
    }
}

/// The scores of an area, one entry per run. `None` marks a run without data for the area.
pub type Row = Vec<Option<ScoreTuple>>;

/// The whole summary dataset: shared run metadata plus one row of scores per area (with
/// [`TOTAL_AREA`] as the whole-run total).
pub struct SummaryStore {
    pub runs: Vec<RunMeta>,
    pub areas: AreaMap<Row>,
}

/// A summary dataset as a mathematical value.
#[verifier::ext_equal]
pub struct StoreView {
    pub runs: Seq<RunMeta>,
    pub areas: Map<Seq<char>, Seq<Option<ScoreTuple>>>,
}

/// The contents of rows.
pub open spec fn row_views(rows: Seq<Row>) -> Seq<Seq<Option<ScoreTuple>>> {
    rows.map_values(|row: Row| row@)
}

/// The contents of rows, by area.
pub open spec fn area_rows(areas: AreaMap<Row>) -> Map<Seq<char>, Seq<Option<ScoreTuple>>> {
    paired(texts(areas.names@), row_views(areas.values@))
}

impl View for SummaryStore {
    type V = StoreView;

    open spec fn view(&self) -> StoreView {
        StoreView { runs: self.runs@, areas: area_rows(self.areas) }
    }
}

/// Whether every row has one entry per run.
pub open spec fn aligned(rows: Seq<Row>, run_count: nat) -> bool {
    forall|i: int| 0 <= i < rows.len() ==> (#[trigger] rows[i])@.len() == run_count
}

impl StoreView {
    /// Whether every row has one entry per run.
    pub open spec fn is_aligned(self) -> bool {
        forall|a: Seq<char>| #[trigger]
            self.areas.contains_key(a) ==> self.areas[a].len() == self.runs.len()
    }
}

/// A row without data.
pub open spec fn blank(run_count: nat) -> Seq<Option<ScoreTuple>> {
    Seq::new(run_count, |i: int| None)
}

/// Rows of the areas that are there, and blank rows of others.
pub open spec fn with_areas(
    areas: Map<Seq<char>, Seq<Option<ScoreTuple>>>,
    others: Set<Seq<char>>,
    run_count: nat,
) -> Map<Seq<char>, Seq<Option<ScoreTuple>>> {
    Map::new(
        |a: Seq<char>| areas.contains_key(a) || others.contains(a),
        |a: Seq<char>|
            if areas.contains_key(a) {
                areas[a]
            } else {
                blank(run_count)
            },
    )
}

/// The place of the last run with a key, or -1.
pub open spec fn last_with_key(runs: Seq<RunMeta>, key: Seq<char>) -> int
    decreases runs.len(),
{
    if runs.len() == 0 {
        -1
    } else if runs.last().key() == key {
        runs.len() - 1
    } else {
        last_with_key(runs.drop_last(), key)
    }
}

impl StoreView {
    /// The dataset with one more run, without data for any area.
    pub open spec fn with_run(self, meta: RunMeta) -> StoreView {
        StoreView {
            runs: self.runs.push(meta),
            areas: self.areas.map_values(|row: Seq<Option<ScoreTuple>>| row.push(None)),
        }
    }

    /// The dataset with the metadata and the scores of the run at `at` set: every area of the
    /// run has a row, and each row holds the run's score for its area, if there is one.
    pub open spec fn with_scores(self, at: int, run: ScoredRunView) -> StoreView {
        StoreView {
            runs: self.runs.update(at, run.meta),
            areas: with_areas(self.areas, run.scores.dom(), self.runs.len()).map_entries(
                |a: Seq<char>, row: Seq<Option<ScoreTuple>>| row.update(at, run.scores.get(a)),
            ),
        }
    }

    /// The dataset with a run: added where no run has its key; else left as it is, or with the
    /// scores of the last run of that key replaced.
    pub open spec fn with_scored(self, run: ScoredRunView, replace: bool) -> StoreView {
        let at = last_with_key(self.runs, run.meta.key());
        if at < 0 {
            self.with_run(run.meta).with_scores(self.runs.len() as int, run)
        } else if replace {
            self.with_scores(at, run)
        } else {
            self
        }
    }

    /// The dataset with runs, one after the other.
    pub open spec fn with_all(self, runs: Seq<ScoredRunView>, replace: bool) -> StoreView
        decreases runs.len(),
    {
        if runs.len() == 0 {
            self
        } else {
            self.with_all(runs.drop_last(), replace).with_scored(runs.last(), replace)
        }
    }

    /// The dataset with its runs in the places that `order` gives them.
    pub open spec fn in_places(self, order: Seq<usize>) -> StoreView {
        StoreView {
            runs: permuted(self.runs, order),
            areas: self.areas.map_values(|row: Seq<Option<ScoreTuple>>| permuted(row, order)),
        }
    }

    /// The dataset with its runs sorted by date and product revision.
    pub open spec fn sorted(self) -> StoreView {
        self.in_places(sorting(self.runs))
    }
}

/// The views of scored runs.
pub open spec fn scored_views(runs: Seq<ScoredRun>) -> Seq<ScoredRunView> {
    runs.map_values(|run: ScoredRun| run@)
}

/// The keys of runs.
pub open spec fn keys_of(runs: Seq<RunMeta>) -> Seq<Seq<char>> {
    runs.map_values(|run: RunMeta| run.key())
}

/// What [`last_with_key`] is: the place of a run with the key that no other such run follows.
pub proof fn lemma_last_with_key(runs: Seq<RunMeta>, key: Seq<char>)
    ensures
        -1 <= last_with_key(runs, key) < runs.len(),
        last_with_key(runs, key) >= 0 ==> runs[last_with_key(runs, key)].key() == key,
        forall|i: int| last_with_key(runs, key) < i < runs.len() ==> runs[i].key() != key,
    decreases runs.len(),
{
    if runs.len() > 0 && runs.last().key() != key {
        lemma_last_with_key(runs.drop_last(), key);
        assert forall|i: int| last_with_key(runs, key) < i < runs.len() implies runs[i].key()
            != key by {
            if i < runs.len() - 1 {
                assert(runs.drop_last()[i] == runs[i]);
            }
        }
    }
}

/// Finds the last of the keys that is `key`.
fn find_key(keys: &Vec<String>, key: &str, Ghost(runs): Ghost<Seq<RunMeta>>) -> (r: Option<usize>)
    requires
        texts(keys@) == keys_of(runs),
    ensures
        r matches Some(i) ==> i == last_with_key(runs, key@),
        r is None <==> last_with_key(runs, key@) < 0,
        r is Some ==> r->0 < runs.len(),
{
    assert(texts(keys@).len() == keys@.len());
    assert(keys_of(runs).len() == runs.len());
    let mut i: usize = keys.len();
    assert(runs.take(runs.len() as int) =~= runs);
    while i > 0
        invariant
            i <= keys@.len(),
            keys@.len() == runs.len(),
            texts(keys@) == keys_of(runs),
            last_with_key(runs, key@) == last_with_key(runs.take(i as int), key@),
        decreases i,
    {
        proof {
            assert(runs.take(i as int).drop_last() =~= runs.take(i - 1));
            assert(texts(keys@)[i - 1] == keys_of(runs)[i - 1]);
        }
        i = i - 1;
        if same_text(keys[i].as_str(), key) {
            return Some(i);
        }
    }
    None
}

impl SummaryStore {
    /// The rows are in the order of their areas, and each has one entry per run.
    pub open spec fn wf(&self) -> bool {
        &&& self.areas.wf()
        &&& aligned(self.areas.values@, self.runs@.len())
    }

    /// A dataset without runs.
    pub fn new() -> (r: Self)
        ensures
            r.wf(),
            r@ == (StoreView { runs: Seq::empty(), areas: Map::empty() }),
    {
        let r = SummaryStore { runs: Vec::new(), areas: AreaMap::new() };
        assert(r@.areas =~= Map::<Seq<char>, Seq<Option<ScoreTuple>>>::empty());
        r
    }

    /// Adds a run without data.
    fn push_run(&mut self, meta: RunMeta)
        requires
            old(self).wf(),
        ensures
            final(self).wf(),
            final(self)@ == old(self)@.with_run(meta),
    {
        let ghost old_view = self@;
        let ghost old_rows = self.areas.values@;
        let ghost names = texts(self.areas.names@);
        let mut i: usize = 0;
        while i < self.areas.values.len()
            invariant
                i <= self.areas.values@.len(),
                texts(self.areas.names@) == names,
                self.areas.values@.len() == old_rows.len(),
                forall|k: int| 0 <= k < i ==> (#[trigger] self.areas.values@[k])@ == old_rows[k]@.push(None),
                forall|k: int|
                    i <= k < old_rows.len() ==> (#[trigger] self.areas.values@[k])@ == old_rows[k]@,
                self.runs@ == old_view.runs,
            decreases self.areas.values.len() - i,
        {
            self.areas.values[i].push(None);
            i = i + 1;
        }
        self.runs.push(meta);
        proof {
            assert(names.len() == self.areas.names@.len());
            lemma_rows_mapped(
                names,
                row_views(old_rows),
                row_views(self.areas.values@),
                |a: Seq<char>, row: Seq<Option<ScoreTuple>>| row.push(None),
            );
            assert(self@.areas =~= old_view.with_run(meta).areas);
        }
    }
}

/// Where every row was changed by `f`, so was the map of the rows.
proof fn lemma_rows_mapped(
    names: Seq<Seq<char>>,
    before: Seq<Seq<Option<ScoreTuple>>>,
    after: Seq<Seq<Option<ScoreTuple>>>,
    f: spec_fn(Seq<char>, Seq<Option<ScoreTuple>>) -> Seq<Option<ScoreTuple>>,
)
    requires
        ascending(names),
        names.len() == before.len(),
        names.len() == after.len(),
        forall|i: int| 0 <= i < names.len() ==> #[trigger] after[i] == f(names[i], before[i]),
    ensures
        paired(names, after) == paired(names, before).map_entries(f),
{
    assert forall|a: Seq<char>| paired(names, after).contains_key(a) implies paired(
        names,
        after,
    )[a] == f(a, paired(names, before)[a]) by {
        let i = names.index_of(a);
        lemma_paired(names, before, i);
        lemma_paired(names, after, i);
        assert(after[i] == f(names[i], before[i]));
    }
    assert(paired(names, after) =~= paired(names, before).map_entries(f));
}

/// A row without data.
fn blank_row(run_count: usize) -> (r: Row)
    ensures
        r@ == blank(run_count as nat),
{
    let mut r: Row = Vec::new();
    while r.len() < run_count
        invariant
            r.len() <= run_count,
            forall|k: int| 0 <= k < r@.len() ==> r@[k] is None,
        decreases run_count - r.len(),
    {
        r.push(None);
    }
    assert(r@ =~= blank(run_count as nat));
    r
}

impl SummaryStore {
    /// Gives every area of `names` a row, blank where it has none.
    fn ensure_areas(&mut self, names: &Vec<String>)
        requires
            old(self).wf(),
        ensures
            final(self).wf(),
            final(self).runs == old(self).runs,
            final(self)@.areas == with_areas(
                old(self)@.areas,
                texts(names@).to_set(),
                old(self).runs@.len(),
            ),
    {
        let ghost base = self@.areas;
        let ghost n = self.runs@.len();
        let run_count = self.runs.len();
        let mut i: usize = 0;
        proof {
            assert(with_areas(base, texts(names@.take(0)).to_set(), n) =~= base);
        }
        while i < names.len()
            invariant
                i <= names.len(),
                self.wf(),
                self.runs == old(self).runs,
                n == self.runs@.len(),
                run_count == n,
                self@.areas == with_areas(base, texts(names@.take(i as int)).to_set(), n),
            decreases names.len() - i,
        {
            let name = &names[i];
            let ghost some = texts(names@.take(i as int));
            let ghost more = texts(names@.take(i + 1));
            proof {
                assert(more =~= some.push(name@));
                assert(more.to_set() =~= some.to_set().insert(name@)) by {
                    assert forall|a: Seq<char>| more.to_set().contains(a)
                        == some.to_set().insert(name@).contains(a) by {
                        if some.contains(a) {
                            let k = choose|k: int| 0 <= k < some.len() && some[k] == a;
                            assert(more[k] == a);
                        }
                        assert(more[some.len() as int] == name@);
                        if more.contains(a) && a != name@ {
                            let k = choose|k: int| 0 <= k < more.len() && more[k] == a;
                            assert(some[k] == a);
                        }
                    }
                }
                lemma_same_areas(self.areas);
            }
            if !self.areas.contains(name.as_str()) {
                let ghost before = self.areas;
                let row = blank_row(run_count);
                self.areas.insert(name.clone(), row);
                proof {
                    lemma_same_areas(self.areas);
                    assert(aligned(self.areas.values@, n)) by {
                        assert forall|k: int| 0 <= k < self.areas.values@.len() implies (
                        #[trigger] self.areas.values@[k])@.len() == n by {
                            let a = texts(self.areas.names@)[k];
                            lemma_paired(texts(self.areas.names@), self.areas.values@, k);
                            assert(self.areas@[a] == self.areas.values@[k]);
                            if a != name@ {
                                let j = texts(before.names@).index_of(a);
                                lemma_paired(texts(before.names@), before.values@, j);
                            }
                        }
                    }
                    assert(self.areas@[name@]@ == blank(n));
                    assert(self@.areas =~= area_rows(before).insert(name@, blank(n)));
                    assert(!with_areas(base, some.to_set(), n).contains_key(name@));
                    assert(area_rows(before).insert(name@, blank(n)) =~= with_areas(
                        base,
                        more.to_set(),
                        n,
                    ));
                }
            } else {
                assert(with_areas(base, more.to_set(), n) =~= self@.areas);
            }
            i = i + 1;
        }
        assert(names@.take(names@.len() as int) =~= names@);
    }

    /// Sets the score of the run at `at` in every row.
    fn set_scores(&mut self, at: usize, scores: &AreaMap<ScoreTuple>)
        requires
            old(self).wf(),
            scores.wf(),
            at < old(self).runs@.len(),
        ensures
            final(self).wf(),
            final(self).runs == old(self).runs,
            final(self)@.areas == old(self)@.areas.map_entries(
                |a: Seq<char>, row: Seq<Option<ScoreTuple>>| row.update(at as int, scores@.get(a)),
            ),
    {
        let ghost rows = self.areas.values@;
        let ghost names = texts(self.areas.names@);
        let ghost n = self.runs@.len();
        let mut i: usize = 0;
        while i < self.areas.values.len()
            invariant
                i <= self.areas.values@.len(),
                at < n,
                scores.wf(),
                aligned(rows, n),
                names == texts(self.areas.names@),
                self.areas.names@.len() == rows.len(),
                self.areas.values@.len() == rows.len(),
                self.runs == old(self).runs,
                forall|k: int| 0 <= k < i ==> (#[trigger] self.areas.values@[k])@ == rows[k]@.update(at as int, scores@.get(names[k])),
                forall|k: int|
                    i <= k < rows.len() ==> (#[trigger] self.areas.values@[k])@ == rows[k]@,
            decreases self.areas.values.len() - i,
        {
            let score = match scores.get(self.areas.names[i].as_str()) {
                Some(tuple) => Some(*tuple),
                None => None,
            };
            proof {
                assert(rows[i as int]@.len() == n);
                assert(names[i as int] == self.areas.names@[i as int]@);
                assert(score == scores@.get(names[i as int]));
            }
            self.areas.values[i].set(at, score);
            i = i + 1;
        }
        proof {
            let f = |a: Seq<char>, row: Seq<Option<ScoreTuple>>|
                row.update(at as int, scores@.get(a));
            lemma_rows_mapped(names, row_views(rows), row_views(self.areas.values@), f);
            assert(aligned(self.areas.values@, n)) by {
                assert forall|k: int| 0 <= k < self.areas.values@.len() implies (
                #[trigger] self.areas.values@[k])@.len() == n by {
                    assert(rows[k]@.len() == n);
                }
            }
        }
    }

    /// Adds a run, or replaces or keeps the one that has its key. `keys` are the keys of the
    /// runs.
    fn add_run(&mut self, keys: &mut Vec<String>, run: ScoredRun, replace: bool)
        requires
            old(self).wf(),
            run.scores.wf(),
            texts(old(keys)@) == keys_of(old(self).runs@),
        ensures
            final(self).wf(),
            texts(final(keys)@) == keys_of(final(self).runs@),
            final(self)@ == old(self)@.with_scored(run@, replace),
    {
        let ghost base = self@;
        let ghost base_keys = keys@;
        let key = run.meta.dedup_key();
        proof {
            lemma_last_with_key(base.runs, run.meta.key());
        }
        let at = match find_key(keys, key.as_str(), Ghost(self.runs@)) {
            Some(at) => {
                if !replace {
                    return;
                }
                at
            },
            None => {
                let at = self.runs.len();
                self.push_run(run.meta.clone());
                keys.push(key);
                proof {
                    assert(texts(keys@) =~= texts(base_keys).push(run.meta.key()));
                    assert(keys_of(self.runs@) =~= keys_of(base.runs).push(run.meta.key()));
                }
                at
            },
        };
        let ghost wide = self@;
        self.ensure_areas(&run.scores.names);
        proof {
            lemma_scores_dom(run.scores);
        }
        self.set_scores(at, &run.scores);
        self.runs.set(at, run.meta);
        proof {
            assert(wide.runs[at as int].key() == run.meta.key());
            assert(keys_of(self.runs@) =~= keys_of(wide.runs));
            assert(self@.areas =~= wide.with_scores(at as int, run@).areas);
        }
    }

    /// Sort runs by (date, product_revision), applying the same permutation to every row so
    /// that they stay index-aligned.
    fn sort(&mut self)
        requires
            old(self).wf(),
        ensures
            final(self).wf(),
            final(self)@ == old(self)@.sorted(),
    {
        let order = sort_order(&self.runs);
        let ghost rows = self.areas.values@;
        let ghost names = texts(self.areas.names@);
        let ghost n = self.runs@.len();
        let mut runs: Vec<RunMeta> = Vec::new();
        let mut i: usize = 0;
        while i < order.len()
            invariant
                i <= order.len(),
                forall|p: int| 0 <= p < order@.len() ==> 0 <= #[trigger] order@[p] < self.runs@.len(),
                runs@ == permuted(self.runs@, order@.take(i as int)),
            decreases order.len() - i,
        {
            runs.push(self.runs[order[i]].clone());
            proof {
                assert(order@.take(i + 1) =~= order@.take(i as int).push(order@[i as int]));
                assert(runs@ =~= permuted(self.runs@, order@.take(i + 1)));
            }
            i = i + 1;
        }
        assert(order@.take(order@.len() as int) =~= order@);
        self.runs = runs;
        let mut j: usize = 0;
        while j < self.areas.values.len()
            invariant
                j <= self.areas.values@.len(),
                aligned(rows, n),
                order@.len() == n,
                forall|p: int| 0 <= p < order@.len() ==> 0 <= #[trigger] order@[p] < n,
                names == texts(self.areas.names@),
                self.areas.values@.len() == rows.len(),
                self.runs@ == runs@,
                forall|k: int| 0 <= k < j ==> (#[trigger] self.areas.values@[k])@ == permuted(rows[k]@, order@),
                forall|k: int|
                    j <= k < rows.len() ==> (#[trigger] self.areas.values@[k])@ == rows[k]@,
            decreases self.areas.values.len() - j,
        {
            assert(rows[j as int]@.len() == n);
            let row = permute_row(&self.areas.values[j], &order);
            self.areas.values.set(j, row);
            j = j + 1;
        }
        proof {
            lemma_rows_mapped(
                names,
                row_views(rows),
                row_views(self.areas.values@),
                |a: Seq<char>, row: Seq<Option<ScoreTuple>>| permuted(row, order@),
            );
            assert(self@.areas =~= old(self)@.sorted().areas);
        }
    }

    /// Append runs (de-duplicated by wpt.fyi run ID if set, otherwise by product revision),
    /// then re-sort all rows consistently by (date, product_revision). A run that is already
    /// present is skipped, or has its scores replaced when `replace` is set.
    pub fn append(&mut self, new_runs: Vec<ScoredRun>, replace: bool)
        requires
            old(self).wf(),
            forall|i: int| 0 <= i < new_runs@.len() ==> (#[trigger] new_runs@[i]).scores.wf(),
        ensures
            final(self).wf(),
            final(self)@ == old(self)@.with_all(scored_views(new_runs@), replace).sorted(),
            forall|i: int, j: int|
                0 <= i < j < final(self).runs@.len() ==> text_le(
                    (#[trigger] final(self).runs@[i]).date@,
                    (#[trigger] final(self).runs@[j]).date@,
                ),
            forall|i: int, j: int|
                0 <= i < j < final(self).runs@.len() && (#[trigger] final(self).runs@[i]).date@ == (
                #[trigger] final(self).runs@[j]).date@ ==> text_le(
                    final(self).runs@[i].product_revision@,
                    final(self).runs@[j].product_revision@,
                ),
    {
        let mut keys: Vec<String> = Vec::new();
        let mut i: usize = 0;
        while i < self.runs.len()
            invariant
                i <= self.runs.len(),
                texts(keys@) == keys_of(self.runs@.take(i as int)),
            decreases self.runs.len() - i,
        {
            let ghost before = keys@;
            keys.push(self.runs[i].dedup_key());
            proof {
                assert(texts(keys@) =~= texts(before).push(self.runs@[i as int].key()));
                assert(self.runs@.take(i + 1) =~= self.runs@.take(i as int).push(
                    self.runs@[i as int],
                ));
                assert(keys_of(self.runs@.take(i + 1)) =~= keys_of(self.runs@.take(i as int)).push(
                    self.runs@[i as int].key(),
                ));
            }
            i = i + 1;
        }
        assert(self.runs@.take(self.runs@.len() as int) =~= self.runs@);
        let ghost all = new_runs@;
        let ghost base = self@;
        for run in it: new_runs
            invariant
                it.seq() == all,
                forall|i: int| 0 <= i < all.len() ==> (#[trigger] all[i]).scores.wf(),
                self.wf(),
                texts(keys@) == keys_of(self.runs@),
                self@ == base.with_all(scored_views(all.take(it.index() as int)), replace),
        {
            let ghost k = it.index() as int;
            proof {
                assert(run == all[k]);
                assert(scored_views(all.take(k + 1)).drop_last() =~= scored_views(all.take(k)));
                assert(scored_views(all.take(k + 1)).last() == run@);
            }
            self.add_run(&mut keys, run, replace);
        }
        assert(all.take(all.len() as int) =~= all);
        let ghost runs = scored_views(all);
        assert(self.runs@.len() == self.runs.len());
        self.sort();
        proof {
            assert forall|i: int, j: int| 0 <= i < j < self.runs@.len() implies text_le(
                (#[trigger] self.runs@[i]).date@,
                (#[trigger] self.runs@[j]).date@,
            ) && (self.runs@[i].date@ == self.runs@[j].date@ ==> text_le(
                self.runs@[i].product_revision@,
                self.runs@[j].product_revision@,
            )) by {
                law_append_order(base, runs, replace, i, j);
            }
        }
    }
}

/// The entries of a row in the places that `order` gives them.
fn permute_row(row: &Row, order: &Vec<usize>) -> (r: Row)
    requires
        forall|p: int| 0 <= p < order@.len() ==> 0 <= #[trigger] order@[p] < row@.len(),
    ensures
        r@ == permuted(row@, order@),
{
    let mut r: Row = Vec::new();
    let mut i: usize = 0;
    while i < order.len()
        invariant
            i <= order.len(),
            forall|p: int| 0 <= p < order@.len() ==> 0 <= #[trigger] order@[p] < row@.len(),
            r@ == permuted(row@, order@.take(i as int)),
        decreases order.len() - i,
    {
        r.push(row[order[i]]);
        proof {
            assert(order@.take(i + 1) =~= order@.take(i as int).push(order@[i as int]));
            assert(r@ =~= permuted(row@, order@.take(i + 1)));
        }
        i = i + 1;
    }
    assert(order@.take(order@.len() as int) =~= order@);
    r
}

/// The rows of areas as their contents.
pub proof fn lemma_same_areas(areas: AreaMap<Row>)
    requires
        areas.wf(),
    ensures
        area_rows(areas) == areas@.map_values(|row: Row| row@),
{
    let names = texts(areas.names@);
    assert forall|a: Seq<char>| area_rows(areas).contains_key(a) implies area_rows(areas)[a]
        == areas@[a]@ by {
        let i = names.index_of(a);
        lemma_paired(names, areas.values@, i);
        lemma_paired(names, row_views(areas.values@), i);
    }
    assert(area_rows(areas) =~= areas@.map_values(|row: Row| row@));
}

proof fn lemma_scores_dom(scores: AreaMap<ScoreTuple>)
    ensures
        texts(scores.names@).to_set() == scores@.dom(),
{
    assert(texts(scores.names@).to_set() =~= scores@.dom());
}

}
