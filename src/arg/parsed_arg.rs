use vstd::prelude::*;
use crate::parser::strings_view;
use crate::text::str_eq;

verus! {

/// Position of the first entry keyed by `k`, or -1 when there is none.
pub open spec fn key_index<V>(l: Seq<(Seq<char>, V)>, k: Seq<char>) -> int
    decreases l.len(),
{
    if l.len() == 0 {
        -1
    } else {
        let p = key_index(l.drop_last(), k);
        if p >= 0 {
            p
        } else if l.last().0 == k {
            l.len() - 1
        } else {
            -1
        }
    }
}

/// Appends `v` to the list keyed by `k`, creating the entry at the end when absent.
pub open spec fn append_value(
    l: Seq<(Seq<char>, Seq<Seq<char>>)>,
    k: Seq<char>,
    v: Seq<char>,
) -> Seq<(Seq<char>, Seq<Seq<char>>)> {
    let i = key_index(l, k);
    if i >= 0 {
        l.update(i, (k, l[i].1.push(v)))
    } else {
        l.push((k, seq![v]))
    }
}

/// Adds `n` to the counter keyed by `k`, creating the entry at the end when absent.
pub open spec fn add_count(l: Seq<(Seq<char>, nat)>, k: Seq<char>, n: nat) -> Seq<(Seq<char>, nat)> {
    let i = key_index(l, k);
    if i >= 0 {
        l.update(i, (k, l[i].1 + n))
    } else {
        l.push((k, n))
    }
}

/// Adds every counter of `s`, in order, into `acc`.
pub open spec fn fold_counts(acc: Seq<(Seq<char>, nat)>, s: Seq<(Seq<char>, nat)>) -> Seq<
    (Seq<char>, nat),
>
    decreases s.len(),
{
    if s.len() == 0 {
        acc
    } else {
        add_count(fold_counts(acc, s.drop_last()), s.last().0, s.last().1)
    }
}

/// Sum of all counters.
pub open spec fn total_of(l: Seq<(Seq<char>, nat)>) -> nat
    decreases l.len(),
{
    if l.len() == 0 {
        0
    } else {
        total_of(l.drop_last()) + l.last().1
    }
}

/// The mathematical value of a `ParsedArgs`: value lists and counters keyed
/// by argument name, in order of first insertion, and the selected subcommand.
pub struct ParsedView {
    pub values: Seq<(Seq<char>, Seq<Seq<char>>)>,
    pub counts: Seq<(Seq<char>, nat)>,
    pub subcommand: Option<(Seq<char>, Box<ParsedView>)>,
}

impl ParsedView {
    pub open spec fn empty() -> ParsedView {
        ParsedView { values: seq![], counts: seq![], subcommand: None }
    }

    /// Whether a value or a bare presence was recorded under `k`.
    pub open spec fn has(self, k: Seq<char>) -> bool {
        key_index(self.values, k) >= 0
    }

    /// The values recorded under `k`, in order; empty when none.
    pub open spec fn values_of(self, k: Seq<char>) -> Seq<Seq<char>> {
        let i = key_index(self.values, k);
        if i >= 0 {
            self.values[i].1
        } else {
            seq![]
        }
    }

    /// The counter of `k`; zero when it was never raised.
    pub open spec fn count_of(self, k: Seq<char>) -> nat {
        let i = key_index(self.counts, k);
        if i >= 0 {
            self.counts[i].1
        } else {
            0
        }
    }

    /// Each name has at most one value list and one counter, and every value
    /// list holds at least one value.
    pub open spec fn wf(self) -> bool {
        &&& keys_unique(self.values)
        &&& keys_unique(self.counts)
        &&& forall|i: int| 0 <= i < self.values.len() ==> #[trigger] self.values[i].1.len() > 0
    }

    pub open spec fn total_count(self) -> nat {
        total_of(self.counts)
    }

    pub open spec fn with_value(self, k: Seq<char>, v: Seq<char>) -> ParsedView {
        ParsedView { values: append_value(self.values, k, v), ..self }
    }

    pub open spec fn with_count(self, k: Seq<char>, n: nat) -> ParsedView {
        ParsedView { counts: add_count(self.counts, k, n), ..self }
    }

    /// Attaches `nested` under `name` and folds its counters into this level.
    pub open spec fn with_subcommand(self, name: Seq<char>, nested: ParsedView) -> ParsedView {
        ParsedView {
            counts: fold_counts(self.counts, nested.counts),
            subcommand: Some((name, Box::new(nested))),
            ..self
        }
    }
}

pub proof fn lemma_key_index<V>(l: Seq<(Seq<char>, V)>, k: Seq<char>, i: int)
    requires
        0 <= i <= l.len(),
        forall|j: int| 0 <= j < i ==> l[j].0 != k,
        i < l.len() ==> l[i].0 == k,
    ensures
        key_index(l, k) == if i < l.len() {
            i
        } else {
            -1
        },
    decreases l.len(),
{
    if l.len() > 0 {
        let d = l.drop_last();
        if i < l.len() - 1 {
            lemma_key_index(d, k, i);
        } else {
            lemma_key_index(d, k, l.len() - 1);
        }
    }
}

pub proof fn lemma_key_index_bounds<V>(l: Seq<(Seq<char>, V)>, k: Seq<char>)
    ensures
        -1 <= key_index(l, k) < l.len(),
        key_index(l, k) >= 0 ==> l[key_index(l, k)].0 == k,
    decreases l.len(),
{
    if l.len() > 0 {
        lemma_key_index_bounds(l.drop_last(), k);
    }
}

proof fn lemma_total_update(l: Seq<(Seq<char>, nat)>, i: int, k: Seq<char>, n: nat)
    requires
        0 <= i < l.len(),
    ensures
        total_of(l.update(i, (k, l[i].1 + n))) == total_of(l) + n,
    decreases l.len(),
{
    let u = l.update(i, (k, l[i].1 + n));
    if i < l.len() - 1 {
        lemma_total_update(l.drop_last(), i, k, n);
        assert(u.drop_last() == l.drop_last().update(i, (k, l[i].1 + n)));
    } else {
        assert(u.drop_last() == l.drop_last());
    }
}

/// Raising one counter by `n` raises the sum by `n`.
pub proof fn lemma_total_add(l: Seq<(Seq<char>, nat)>, k: Seq<char>, n: nat)
    ensures
        total_of(add_count(l, k, n)) == total_of(l) + n,
{
    lemma_key_index_bounds(l, k);
    let i = key_index(l, k);
    if i >= 0 {
        lemma_total_update(l, i, k, n);
    } else {
        assert(l.push((k, n)).drop_last() == l);
    }
}

/// Each counter is bounded by the sum.
pub proof fn lemma_count_le_total(l: Seq<(Seq<char>, nat)>, k: Seq<char>)
    ensures
        key_index(l, k) >= 0 ==> l[key_index(l, k)].1 <= total_of(l),
    decreases l.len(),
{
    if l.len() > 0 {
        lemma_count_le_total(l.drop_last(), k);
        lemma_key_index_bounds(l.drop_last(), k);
    }
}

proof fn lemma_total_prefix(l: Seq<(Seq<char>, nat)>, i: int)
    requires
        0 <= i < l.len(),
    ensures
        total_of(l.take(i)) + l[i].1 <= total_of(l),
    decreases l.len(),
{
    if i < l.len() - 1 {
        lemma_total_prefix(l.drop_last(), i);
        assert(l.drop_last().take(i) == l.take(i));
    } else {
        assert(l.drop_last() == l.take(i));
    }
}

/// Folding adds the sums.
pub proof fn lemma_total_fold(acc: Seq<(Seq<char>, nat)>, s: Seq<(Seq<char>, nat)>)
    ensures
        total_of(fold_counts(acc, s)) == total_of(acc) + total_of(s),
    decreases s.len(),
{
    if s.len() > 0 {
        lemma_total_fold(acc, s.drop_last());
        lemma_total_add(fold_counts(acc, s.drop_last()), s.last().0, s.last().1);
    }
}

/// No two entries share a key.
pub open spec fn keys_unique<V>(l: Seq<(Seq<char>, V)>) -> bool {
    forall|i: int, j: int| 0 <= i < j < l.len() ==> #[trigger] l[i].0 != #[trigger] l[j].0
}

/// Sum of the counters keyed by `k`, over every entry.
pub open spec fn key_total(l: Seq<(Seq<char>, nat)>, k: Seq<char>) -> nat
    decreases l.len(),
{
    if l.len() == 0 {
        0
    } else {
        key_total(l.drop_last(), k) + if l.last().0 == k {
            l.last().1
        } else {
            0
        }
    }
}

pub proof fn lemma_key_index_absent<V>(l: Seq<(Seq<char>, V)>, k: Seq<char>)
    requires
        key_index(l, k) < 0,
    ensures
        forall|j: int| 0 <= j < l.len() ==> #[trigger] l[j].0 != k,
    decreases l.len(),
{
    if l.len() > 0 {
        lemma_key_index_absent(l.drop_last(), k);
        assert forall|j: int| 0 <= j < l.len() implies #[trigger] l[j].0 != k by {
            if j < l.len() - 1 {
                assert(l[j] == l.drop_last()[j]);
            }
        }
    }
}

/// Adding to one counter keeps keys unique.
pub proof fn lemma_add_count_unique(l: Seq<(Seq<char>, nat)>, k: Seq<char>, n: nat)
    requires
        keys_unique(l),
    ensures
        keys_unique(add_count(l, k, n)),
{
    lemma_key_index_bounds(l, k);
    let i = key_index(l, k);
    let r = add_count(l, k, n);
    if i < 0 {
        lemma_key_index_absent(l, k);
        assert forall|a: int, b: int| 0 <= a < b < r.len() implies #[trigger] r[a].0
            != #[trigger] r[b].0 by {
            if b == l.len() {
                assert(r[a] == l[a]);
            } else {
                assert(r[a] == l[a] && r[b] == l[b]);
            }
        }
    } else {
        assert forall|a: int, b: int| 0 <= a < b < r.len() implies #[trigger] r[a].0
            != #[trigger] r[b].0 by {
            assert(r[a].0 == l[a].0 && r[b].0 == l[b].0);
        }
    }
}

/// Folding counters keeps keys unique.
pub proof fn lemma_fold_unique(acc: Seq<(Seq<char>, nat)>, s: Seq<(Seq<char>, nat)>)
    requires
        keys_unique(acc),
    ensures
        keys_unique(fold_counts(acc, s)),
    decreases s.len(),
{
    if s.len() > 0 {
        lemma_fold_unique(acc, s.drop_last());
        lemma_add_count_unique(fold_counts(acc, s.drop_last()), s.last().0, s.last().1);
    }
}

/// How adding to one counter changes every counter.
pub proof fn lemma_count_after_add(l: Seq<(Seq<char>, nat)>, k: Seq<char>, n: nat, q: Seq<char>)
    ensures
        (ParsedView { values: seq![], counts: add_count(l, k, n), subcommand: None }).count_of(q)
            == (ParsedView { values: seq![], counts: l, subcommand: None }).count_of(q) + if q
            == k {
            n
        } else {
            0
        },
{
    lemma_key_index_bounds(l, k);
    lemma_key_index_bounds(l, q);
    let i = key_index(l, k);
    let r = add_count(l, k, n);
    if i >= 0 {
        assert forall|j: int| 0 <= j < r.len() implies #[trigger] r[j].0 == l[j].0 by {}
        lemma_key_index_same_keys(l, r, q);
    } else {
        assert(r.drop_last() == l);
    }
}

pub proof fn lemma_key_index_same_keys<V>(
    l: Seq<(Seq<char>, V)>,
    r: Seq<(Seq<char>, V)>,
    q: Seq<char>,
)
    requires
        l.len() == r.len(),
        forall|j: int| 0 <= j < r.len() ==> #[trigger] r[j].0 == l[j].0,
    ensures
        key_index(r, q) == key_index(l, q),
    decreases l.len(),
{
    if l.len() > 0 {
        assert forall|j: int| 0 <= j < r.drop_last().len() implies #[trigger] r.drop_last()[j].0
            == l.drop_last()[j].0 by {
            assert(r.drop_last()[j] == r[j] && l.drop_last()[j] == l[j]);
        }
        lemma_key_index_same_keys(l.drop_last(), r.drop_last(), q);
    }
}

/// A folded counter is the old one plus every matching counter of `s`.
pub proof fn lemma_count_after_fold(
    acc: Seq<(Seq<char>, nat)>,
    s: Seq<(Seq<char>, nat)>,
    q: Seq<char>,
)
    ensures
        (ParsedView { values: seq![], counts: fold_counts(acc, s), subcommand: None }).count_of(q)
            == (ParsedView { values: seq![], counts: acc, subcommand: None }).count_of(q)
            + key_total(s, q),
    decreases s.len(),
{
    if s.len() > 0 {
        lemma_count_after_fold(acc, s.drop_last(), q);
        lemma_count_after_add(fold_counts(acc, s.drop_last()), s.last().0, s.last().1, q);
    }
}

/// With unique keys, the sum over a key is its one counter.
pub proof fn lemma_key_total_unique(s: Seq<(Seq<char>, nat)>, q: Seq<char>)
    requires
        keys_unique(s),
    ensures
        key_total(s, q) == (ParsedView { values: seq![], counts: s, subcommand: None }).count_of(q),
    decreases s.len(),
{
    if s.len() > 0 {
        let d = s.drop_last();
        assert(keys_unique(d)) by {
            assert forall|a: int, b: int| 0 <= a < b < d.len() implies #[trigger] d[a].0
                != #[trigger] d[b].0 by {
                assert(d[a] == s[a] && d[b] == s[b]);
            }
        }
        lemma_key_total_unique(d, q);
        lemma_key_index_bounds(d, q);
        if s.last().0 == q {
            if key_index(d, q) >= 0 {
                let a = key_index(d, q);
                assert(s[a].0 == s[s.len() - 1].0);
            }
        }
    }
}

/// Recording a value keeps a store well formed.
pub proof fn lemma_with_value_wf(v: ParsedView, k: Seq<char>, x: Seq<char>)
    requires
        v.wf(),
    ensures
        v.with_value(k, x).wf(),
{
    let l = v.values;
    lemma_key_index_bounds(l, k);
    let i = key_index(l, k);
    let r = append_value(l, k, x);
    if i < 0 {
        lemma_key_index_absent(l, k);
        assert forall|a: int, b: int| 0 <= a < b < r.len() implies #[trigger] r[a].0
            != #[trigger] r[b].0 by {
            if b == l.len() {
                assert(r[a] == l[a]);
            } else {
                assert(r[a] == l[a] && r[b] == l[b]);
            }
        }
        assert forall|a: int| 0 <= a < r.len() implies #[trigger] r[a].1.len() > 0 by {
            if a < l.len() {
                assert(r[a] == l[a]);
            }
        }
    } else {
        assert forall|a: int, b: int| 0 <= a < b < r.len() implies #[trigger] r[a].0
            != #[trigger] r[b].0 by {
            assert(r[a].0 == l[a].0 && r[b].0 == l[b].0);
        }
        assert forall|a: int| 0 <= a < r.len() implies #[trigger] r[a].1.len() > 0 by {
            if a != i {
                assert(r[a] == l[a]);
            }
        }
    }
}

/// Raising a counter keeps a store well formed.
pub proof fn lemma_with_count_wf(v: ParsedView, k: Seq<char>, n: nat)
    requires
        v.wf(),
    ensures
        v.with_count(k, n).wf(),
{
    lemma_add_count_unique(v.counts, k, n);
}

/// Attaching a well-formed result keeps a store well formed, and each
/// counter becomes the sum of the two.
pub proof fn lemma_with_subcommand(v: ParsedView, name: Seq<char>, nested: ParsedView)
    requires
        v.wf(),
        nested.wf(),
    ensures
        v.with_subcommand(name, nested).wf(),
        forall|k: Seq<char>| #[trigger] v.with_subcommand(name, nested).count_of(k) == v.count_of(k)
            + nested.count_of(k),
{
    lemma_fold_unique(v.counts, nested.counts);
    assert forall|k: Seq<char>| #[trigger] v.with_subcommand(name, nested).count_of(k)
        == v.count_of(k) + nested.count_of(k) by {
        lemma_count_after_fold(v.counts, nested.counts, k);
        lemma_key_total_unique(nested.counts, k);
    }
}

/// Recording a value under one name leaves the presence of every other.
pub proof fn lemma_has_other(v: ParsedView, k: Seq<char>, x: Seq<char>, q: Seq<char>)
    requires
        k != q,
    ensures
        v.with_value(k, x).has(q) == v.has(q),
{
    let l = v.values;
    lemma_key_index_bounds(l, k);
    let i = key_index(l, k);
    let r = append_value(l, k, x);
    if i >= 0 {
        assert forall|j: int| 0 <= j < r.len() implies #[trigger] r[j].0 == l[j].0 by {}
        lemma_key_index_same_keys(l, r, q);
    } else {
        assert(r.drop_last() == l);
    }
}

/// In a well-formed store, a name is present exactly when it has values.
pub proof fn lemma_has_values(v: ParsedView, k: Seq<char>)
    requires
        v.wf(),
    ensures
        v.has(k) == (v.values_of(k).len() > 0),
{
    lemma_key_index_bounds(v.values, k);
}

/// The result store of one parse level.
#[derive(Debug)]
pub struct ParsedArgs {
    args: Vec<(String, Vec<String>)>,
    counts: Vec<(String, usize)>,
    subcommand: Option<(String, Box<ParsedArgs>)>,
}

pub open spec fn values_view(l: Seq<(String, Vec<String>)>) -> Seq<(Seq<char>, Seq<Seq<char>>)> {
    l.map_values(|e: (String, Vec<String>)| (e.0@, strings_view(e.1@)))
}

pub open spec fn counts_view(l: Seq<(String, usize)>) -> Seq<(Seq<char>, nat)> {
    l.map_values(|e: (String, usize)| (e.0@, e.1 as nat))
}

pub open spec fn slices_view(v: Seq<&str>) -> Seq<Seq<char>> {
    v.map_values(|s: &str| s@)
}

/// Index of the first entry keyed by `k`.
fn find_key<V>(l: &Vec<(String, V)>, k: &str) -> (r: Option<usize>)
    ensures
        match r {
            Some(i) => i < l@.len() && l@[i as int].0@ == k@ && forall|j: int|
                0 <= j < i ==> l@[j].0@ != k@,
            None => forall|j: int| 0 <= j < l@.len() ==> l@[j].0@ != k@,
        },
{
    let mut i: usize = 0;
    while i < l.len()
        invariant
            i <= l@.len(),
            forall|j: int| 0 <= j < i ==> l@[j].0@ != k@,
        decreases l.len() - i,
    {
        if str_eq(l[i].0.as_str(), k) {
            return Some(i);
        }
        i = i + 1;
    }
    None
}

impl View for ParsedArgs {
    type V = ParsedView;

    closed spec fn view(&self) -> ParsedView
        decreases self,
    {
        ParsedView {
            values: values_view(self.args@),
            counts: counts_view(self.counts@),
            subcommand: match &self.subcommand {
                Some(p) => Some((p.0@, Box::new((*p.1).view()))),
                None => None,
            },
        }
    }
}

impl ParsedArgs {
    /// An empty store.
    pub fn new() -> (r: Self)
        ensures
            r@ == ParsedView::empty(),
            r@.wf(),
    {
        let r = ParsedArgs { args: Vec::new(), counts: Vec::new(), subcommand: None };
        proof {
            assert(values_view(r.args@) == Seq::<(Seq<char>, Seq<Seq<char>>)>::empty());
            assert(counts_view(r.counts@) == Seq::<(Seq<char>, nat)>::empty());
        }
        r
    }

    /// Appends `value` to the list of `key`.
    pub fn insert(&mut self, key: String, value: String)
        ensures
            final(self)@ == old(self)@.with_value(key@, value@),
            old(self)@.wf() ==> final(self)@.wf(),
    {
        proof {
            if self@.wf() {
                lemma_with_value_wf(self@, key@, value@);
            }
        }
        let ghost old_values = values_view(self.args@);
        match find_key(&self.args, key.as_str()) {
            Some(i) => {
                proof {
                    lemma_key_index(old_values, key@, i as int);
                }
                let ghost old_args = self.args@;
                self.args[i].1.push(value);
                proof {
                    assert(strings_view(self.args@[i as int].1@) =~= strings_view(
                        old_args[i as int].1@,
                    ).push(value@));
                    assert(values_view(self.args@) =~= old_values.update(
                        i as int,
                        (key@, old_values[i as int].1.push(value@)),
                    ));
                }
            },
            None => {
                proof {
                    lemma_key_index(old_values, key@, old_values.len() as int);
                }
                let mut values: Vec<String> = Vec::new();
                values.push(value);
                self.args.push((key, values));
                proof {
                    assert(strings_view(values@) == seq![value@]);
                    assert(values_view(self.args@) == old_values.push((key@, seq![value@])));
                }
            },
        }
    }

    /// Records a bare presence of `key` (an empty value).
    pub fn insert_flag(&mut self, key: String)
        ensures
            final(self)@ == old(self)@.with_value(key@, seq![]),
            old(self)@.wf() ==> final(self)@.wf(),
    {
        self.insert(key, String::new());
    }

    /// Adds `n` to the counter of `key`.
    fn add_to_count(&mut self, key: &String, n: usize)
        requires
            old(self)@.count_of(key@) + n <= usize::MAX,
        ensures
            final(self)@ == old(self)@.with_count(key@, n as nat),
    {
        let ghost old_counts = counts_view(self.counts@);
        match find_key(&self.counts, key.as_str()) {
            Some(i) => {
                proof {
                    lemma_key_index(old_counts, key@, i as int);
                }
                let c = self.counts[i].1;
                self.counts[i].1 = c + n;
                proof {
                    assert(counts_view(self.counts@) == old_counts.update(
                        i as int,
                        (key@, old_counts[i as int].1 + n as nat),
                    ));
                }
            },
            None => {
                proof {
                    lemma_key_index(old_counts, key@, old_counts.len() as int);
                }
                self.counts.push((key.clone(), n));
                proof {
                    assert(counts_view(self.counts@) == old_counts.push((key@, n as nat)));
                }
            },
        }
    }

    /// Raises the counter of `name` by one.
    pub fn increment(&mut self, name: String)
        requires
            old(self)@.count_of(name@) < usize::MAX,
        ensures
            final(self)@ == old(self)@.with_count(name@, 1),
            old(self)@.wf() ==> final(self)@.wf(),
    {
        proof {
            if self@.wf() {
                lemma_with_count_wf(self@, name@, 1);
            }
        }
        self.add_to_count(&name, 1);
    }

    /// The counter of `key`, zero when it was never raised.
    pub fn count(&self, key: &str) -> (r: usize)
        ensures
            r == self@.count_of(key@),
    {
        match find_key(&self.counts, key) {
            Some(i) => {
                proof {
                    lemma_key_index(counts_view(self.counts@), key@, i as int);
                }
                self.counts[i].1
            },
            None => {
                proof {
                    lemma_key_index(
                        counts_view(self.counts@),
                        key@,
                        self.counts@.len() as int,
                    );
                }
                0
            },
        }
    }

    /// Attaches the result of a subcommand and folds its counters into this level.
    pub fn set_subcommand(&mut self, name: String, args: ParsedArgs)
        requires
            old(self)@.subcommand is None,
            old(self)@.total_count() + args@.total_count() <= usize::MAX,
            args@.wf(),
        ensures
            final(self)@ == old(self)@.with_subcommand(name@, args@),
            old(self)@.wf() ==> final(self)@.wf(),
            old(self)@.wf() ==> forall|k: Seq<char>| #[trigger] final(self)@.count_of(k) == old(
                self,
            )@.count_of(k) + args@.count_of(k),
    {
        proof {
            if self@.wf() {
                lemma_with_subcommand(self@, name@, args@);
            }
        }
        let ghost start = self@;
        let ghost nested = counts_view(args.counts@);
        let mut i: usize = 0;
        while i < args.counts.len()
            invariant
                i <= args.counts@.len(),
                nested == counts_view(args.counts@),
                self@ == (ParsedView {
                    counts: fold_counts(start.counts, nested.take(i as int)),
                    ..start
                }),
                total_of(start.counts) + total_of(nested) <= usize::MAX,
            decreases args.counts.len() - i,
        {
            let ghost acc = self@.counts;
            proof {
                assert(nested.take(i + 1).drop_last() == nested.take(i as int));
                lemma_total_fold(start.counts, nested.take(i as int));
                lemma_total_prefix(nested, i as int);
                lemma_count_le_total(acc, nested[i as int].0);
                lemma_key_index_bounds(acc, nested[i as int].0);
            }
            self.add_to_count(&args.counts[i].0, args.counts[i].1);
            i = i + 1;
        }
        proof {
            assert(nested.take(nested.len() as int) == nested);
        }
        self.subcommand = Some((name, Box::new(args)));
    }

    /// The first value recorded for `key`.
    pub fn get(&self, key: &str) -> (r: Option<&String>)
        ensures
            match r {
                Some(s) => self@.values_of(key@).len() > 0 && s@ == self@.values_of(key@)[0],
                None => self@.values_of(key@).len() == 0,
            },
    {
        match find_key(&self.args, key) {
            Some(i) => {
                proof {
                    lemma_key_index(values_view(self.args@), key@, i as int);
                }
                if self.args[i].1.len() > 0 {
                    Some(&self.args[i].1[0])
                } else {
                    None
                }
            },
            None => {
                proof {
                    lemma_key_index(values_view(self.args@), key@, self.args@.len() as int);
                }
                None
            },
        }
    }

    /// All values recorded for `key`, in order; empty when none.
    pub fn get_all(&self, key: &str) -> (r: Vec<&str>)
        ensures
            slices_view(r@) == self@.values_of(key@),
    {
        let mut r: Vec<&str> = Vec::new();
        match find_key(&self.args, key) {
            Some(i) => {
                proof {
                    lemma_key_index(values_view(self.args@), key@, i as int);
                }
                let values = &self.args[i].1;
                let mut j: usize = 0;
                while j < values.len()
                    invariant
                        j <= values@.len(),
                        slices_view(r@) == strings_view(values@).take(j as int),
                    decreases values.len() - j,
                {
                    let v = values[j].as_str();
                    let ghost prev = r@;
                    r.push(v);
                    proof {
                        assert(v@ == strings_view(values@)[j as int]);
                        assert(slices_view(prev) == strings_view(values@).take(
                            j as int,
                        ));
                        assert(r@ == prev.push(v));
                        assert(slices_view(prev).len() == prev.len());
                        assert(strings_view(values@).take(j as int).len() == j);
                        assert(prev.len() == j);
                        assert(slices_view(r@).len() == j + 1);
                        assert forall|k: int| 0 <= k < j + 1 implies slices_view(r@)[k]
                            == strings_view(values@).take(j + 1)[k] by {
                            if k < j {
                                assert(slices_view(prev)[k] == strings_view(values@).take(
                                    j as int,
                                )[k]);
                            }
                        }
                        assert(slices_view(r@) =~= strings_view(values@).take(j + 1));
                    }
                    j = j + 1;
                }
                proof {
                    assert(strings_view(values@).take(values@.len() as int) == strings_view(
                        values@,
                    ));
                }
            },
            None => {
                proof {
                    lemma_key_index(values_view(self.args@), key@, self.args@.len() as int);
                    assert(slices_view(r@) == Seq::<Seq<char>>::empty());
                }
            },
        }
        r
    }

    /// Whether `key` was given, with or without a value.
    pub fn contains_key(&self, key: &str) -> (r: bool)
        ensures
            r == self@.has(key@),
            self@.wf() ==> (r <==> self@.values_of(key@).len() > 0),
    {
        proof {
            if self@.wf() {
                lemma_has_values(self@, key@);
            }
        }
        match find_key(&self.args, key) {
            Some(i) => {
                proof {
                    lemma_key_index(values_view(self.args@), key@, i as int);
                }
                true
            },
            None => {
                proof {
                    lemma_key_index(values_view(self.args@), key@, self.args@.len() as int);
                }
                false
            },
        }
    }

    /// The selected subcommand's name and result, if one was selected.
    pub fn get_subcommand(&self) -> (r: Option<(&str, &ParsedArgs)>)
        ensures
            match r {
                Some(p) => self@.subcommand == Some((p.0@, Box::new(p.1@))),
                None => self@.subcommand is None,
            },
    {
        match &self.subcommand {
            Some(p) => Some((p.0.as_str(), &*p.1)),
            None => None,
        }
    }
}

} // verus!
