//! A map from area names to values, kept in the order of the names.

use vstd::prelude::*;

use crate::text::{compare, text_lt, texts, Comparison};
use crate::text::{lemma_text_le_antisymmetric, lemma_text_le_transitive};

verus! {

/// Values by area name: the value at a place belongs to the name at that place, and the
/// names ascend.
pub struct AreaMap<V> {
    pub names: Vec<String>,
    pub values: Vec<V>,
}

/// Whether names stand in strictly ascending order.
pub open spec fn ascending(names: Seq<Seq<char>>) -> bool {
    forall|i: int, j: int| 0 <= i < j < names.len() ==> text_lt(#[trigger] names[i], #[trigger] names[j])
}

/// The map that pairs each name with the value at its place.
pub open spec fn paired<V>(names: Seq<Seq<char>>, values: Seq<V>) -> Map<Seq<char>, V> {
    Map::new(|name: Seq<char>| names.contains(name), |name: Seq<char>| values[names.index_of(name)])
}

impl<V> View for AreaMap<V> {
    type V = Map<Seq<char>, V>;

    open spec fn view(&self) -> Map<Seq<char>, V> {
        paired(texts(self.names@), self.values@)
    }
}

/// Names in ascending order differ.
pub proof fn lemma_ascending_distinct(names: Seq<Seq<char>>, i: int, j: int)
    requires
        ascending(names),
        0 <= i < names.len(),
        0 <= j < names.len(),
        names[i] == names[j],
    ensures
        i == j,
{
    if i < j {
        assert(text_lt(names[i], names[j]));
    } else if j < i {
        assert(text_lt(names[j], names[i]));
    }
}

/// Two rows of ascending names with the same names in them are one.
pub proof fn lemma_ascending_unique(p: Seq<Seq<char>>, q: Seq<Seq<char>>)
    requires
        ascending(p),
        ascending(q),
        forall|a: Seq<char>| #[trigger] p.contains(a) == q.contains(a),
    ensures
        p == q,
    decreases p.len(),
{
    if p.len() == 0 {
        if q.len() > 0 {
            assert(q.contains(q[0]));
            assert(p.contains(q[0]));
        }
        assert(p =~= q);
    } else {
        assert(p.contains(p[0]));
        let i = q.index_of(p[0]);
        assert(q[i] == p[0]);
        assert(q.contains(q[0]));
        assert(p.contains(q[0]));
        let j = p.index_of(q[0]);
        if i > 0 {
            assert(text_lt(q[0], q[i]));
            assert(text_lt(p[0], p[j]));
            lemma_text_lt_transitive(q[0], p[0], q[0]);
        }
        let (x, y) = (p.drop_first(), q.drop_first());
        assert(ascending(x)) by {
            assert forall|i: int, j: int| 0 <= i < j < x.len() implies text_lt(
                #[trigger] x[i],
                #[trigger] x[j],
            ) by {
                assert(text_lt(p[i + 1], p[j + 1]));
            }
        }
        assert(ascending(y)) by {
            assert forall|i: int, j: int| 0 <= i < j < y.len() implies text_lt(
                #[trigger] y[i],
                #[trigger] y[j],
            ) by {
                assert(text_lt(q[i + 1], q[j + 1]));
            }
        }
        assert forall|a: Seq<char>| #[trigger] x.contains(a) == y.contains(a) by {
            if x.contains(a) {
                let k = x.index_of(a);
                assert(p[k + 1] == a);
                assert(text_lt(p[0], p[k + 1]));
                assert(p.contains(a));
                let m = q.index_of(a);
                assert(y[m - 1] == a);
            }
            if y.contains(a) {
                let k = y.index_of(a);
                assert(q[k + 1] == a);
                assert(text_lt(q[0], q[k + 1]));
                assert(q.contains(a));
                assert(p.contains(a));
                let m = p.index_of(a);
                assert(x[m - 1] == a);
            }
        }
        lemma_ascending_unique(x, y);
        assert(p =~= seq![p[0]] + x);
        assert(q =~= seq![q[0]] + y);
    }
}

/// The value that belongs to a name is the one at its place.
pub proof fn lemma_paired<V>(names: Seq<Seq<char>>, values: Seq<V>, i: int)
    requires
        ascending(names),
        names.len() == values.len(),
        0 <= i < names.len(),
    ensures
        paired(names, values).contains_key(names[i]),
        paired(names, values)[names[i]] == values[i],
{
    assert(names.contains(names[i]));
    lemma_ascending_distinct(names, i, names.index_of(names[i]));
}

impl<V> AreaMap<V> {
    /// The names ascend, and there is one value for each.
    pub open spec fn wf(&self) -> bool {
        &&& self.names@.len() == self.values@.len()
        &&& ascending(texts(self.names@))
    }

    /// A map without areas.
    pub fn new() -> (r: Self)
        ensures
            r.wf(),
            r@ == Map::<Seq<char>, V>::empty(),
            r.names@.len() == 0,
    {
        let r = AreaMap { names: Vec::new(), values: Vec::new() };
        assert(r@ =~= Map::<Seq<char>, V>::empty());
        r
    }

    /// The number of areas.
    pub fn len(&self) -> (r: usize)
        ensures
            r == self.names@.len(),
    {
        self.names.len()
    }

    /// The place of the first name that does not come before `name`, and whether it is `name`.
    fn search(&self, name: &str) -> (r: (usize, bool))
        requires
            self.wf(),
        ensures
            r.0 <= self.names@.len(),
            forall|i: int| 0 <= i < r.0 ==> text_lt(#[trigger] self.names@[i]@, name@),
            r.1 ==> r.0 < self.names@.len() && self.names@[r.0 as int]@ == name@,
            !r.1 ==> forall|i: int|
                r.0 <= i < self.names@.len() ==> text_lt(name@, #[trigger] self.names@[i]@),
            r.1 == texts(self.names@).contains(name@),
    {
        let ghost all = texts(self.names@);
        let mut lo: usize = 0;
        let mut hi: usize = self.names.len();
        while lo < hi
            invariant
                self.wf(),
                all == texts(self.names@),
                lo <= hi <= self.names@.len(),
                forall|i: int| 0 <= i < lo ==> text_lt(#[trigger] self.names@[i]@, name@),
                forall|i: int|
                    hi <= i < self.names@.len() ==> text_lt(name@, #[trigger] self.names@[i]@),
            decreases hi - lo,
        {
            let mid: usize = lo + (hi - lo) / 2;
            match compare(self.names[mid].as_str(), name) {
                Comparison::Equal => {
                    proof {
                        assert forall|i: int| 0 <= i < mid implies text_lt(
                            #[trigger] self.names@[i]@,
                            name@,
                        ) by {
                            assert(text_lt(all[i], all[mid as int]));
                        }
                        assert(all[mid as int] == name@);
                    }
                    return (mid, true);
                },
                Comparison::Less => {
                    proof {
                        assert forall|i: int| 0 <= i < mid + 1 implies text_lt(
                            #[trigger] self.names@[i]@,
                            name@,
                        ) by {
                            if i < mid {
                                assert(text_lt(all[i], all[mid as int]));
                                lemma_text_lt_transitive(all[i], all[mid as int], name@);
                            }
                        }
                    }
                    lo = mid + 1;
                },
                Comparison::Greater => {
                    proof {
                        assert forall|i: int| mid <= i < self.names@.len() implies text_lt(
                            name@,
                            #[trigger] self.names@[i]@,
                        ) by {
                            if mid < i {
                                assert(text_lt(all[mid as int], all[i]));
                                lemma_text_lt_transitive(name@, all[mid as int], all[i]);
                            }
                        }
                    }
                    hi = mid;
                },
            }
        }
        proof {
            if all.contains(name@) {
                let i = all.index_of(name@);
                assert(all[i] == self.names@[i]@);
            }
        }
        (lo, false)
    }

    /// The value of an area.
    pub fn get(&self, name: &str) -> (r: Option<&V>)
        requires
            self.wf(),
        ensures
            r is Some <==> self@.contains_key(name@),
            r matches Some(v) ==> *v == self@[name@],
    {
        let (at, found) = self.search(name);
        if found {
            proof {
                lemma_paired(texts(self.names@), self.values@, at as int);
            }
            Some(&self.values[at])
        } else {
            None
        }
    }

    /// Whether the map has an area.
    pub fn contains(&self, name: &str) -> (r: bool)
        requires
            self.wf(),
        ensures
            r == self@.contains_key(name@),
    {
        let (_, found) = self.search(name);
        found
    }

    /// Gives an area a value, in place of the one that it has.
    pub fn insert(&mut self, name: String, value: V)
        requires
            old(self).wf(),
        ensures
            final(self).wf(),
            final(self)@ == old(self)@.insert(name@, value),
    {
        let (at, found) = self.search(name.as_str());
        let ghost old_names = texts(self.names@);
        let ghost old_values = self.values@;
        if found {
            self.values.set(at, value);
            proof {
                let names = texts(self.names@);
                assert forall|n: Seq<char>| #[trigger] names.contains(n) implies paired(
                    names,
                    self.values@,
                )[n] == paired(names, old_values).insert(name@, value)[n] by {
                    let k = names.index_of(n);
                    lemma_paired(names, self.values@, k);
                    lemma_paired(names, old_values, k);
                    if k != at {
                        if n == name@ {
                            lemma_ascending_distinct(names, k, at as int);
                        }
                    }
                }
                assert(self@ =~= paired(names, old_values).insert(name@, value));
            }
        } else {
            let ghost new_name = name@;
            self.names.insert(at, name);
            self.values.insert(at, value);
            proof {
                let names = texts(self.names@);
                assert(names =~= old_names.insert(at as int, new_name));
                assert(ascending(names)) by {
                    assert forall|i: int, j: int| 0 <= i < j < names.len() implies text_lt(
                        #[trigger] names[i],
                        #[trigger] names[j],
                    ) by {
                        let pi = if i < at { i } else { i - 1 };
                        let pj = if j < at { j } else { j - 1 };
                        if i == at {
                            assert(names[j] == old_names[pj]);
                        } else if j == at {
                            assert(names[i] == old_names[pi]);
                        } else {
                            assert(names[i] == old_names[pi]);
                            assert(names[j] == old_names[pj]);
                        }
                    }
                }
                lemma_insert_paired(old_names, old_values, at as int, new_name, value);
                assert(self.values@ =~= old_values.insert(at as int, value));
            }
        }
    }
}

/// Strict order is transitive.
pub proof fn lemma_text_lt_transitive(a: Seq<char>, b: Seq<char>, c: Seq<char>)
    requires
        text_lt(a, b),
        text_lt(b, c),
    ensures
        text_lt(a, c),
{
    lemma_text_le_transitive(a, b, c);
    if a == c {
        lemma_text_le_antisymmetric(a, b);
    }
}

proof fn lemma_insert_paired<V>(
    names: Seq<Seq<char>>,
    values: Seq<V>,
    at: int,
    name: Seq<char>,
    value: V,
)
    requires
        names.len() == values.len(),
        0 <= at <= names.len(),
        ascending(names),
        ascending(names.insert(at, name)),
    ensures
        paired(names.insert(at, name), values.insert(at, value)) == paired(names, values).insert(
            name,
            value,
        ),
{
    let more = names.insert(at, name);
    let m = paired(more, values.insert(at, value));
    let o = paired(names, values).insert(name, value);
    assert forall|n: Seq<char>| m.contains_key(n) == o.contains_key(n) by {
        if names.contains(n) {
            let k = names.index_of(n);
            assert(more[if k < at { k } else { k + 1 }] == n);
        }
        assert(more[at] == name);
        if more.contains(n) {
            let k = more.index_of(n);
            if k < at {
                assert(names[k] == n);
            } else if k > at {
                assert(names[k - 1] == n);
            }
        }
    }
    assert forall|n: Seq<char>| m.contains_key(n) implies m[n] == o[n] by {
        let k = more.index_of(n);
        lemma_paired(more, values.insert(at, value), k);
        if k == at {
        } else {
            let p = if k < at { k } else { k - 1 };
            assert(names[p] == n);
            lemma_paired(names, values, p);
            if n == name {
                lemma_ascending_distinct(more, k, at);
            }
        }
    }
    assert(m =~= o);
}

}
