//! Merging a state scrape with the next one: counters add up, gauges take the
//! next reading, everything else is replaced by the next sample.
use vstd::prelude::*;

use crate::scrape::{Labels, Sample, Scrape, Value};
use crate::text::{lemma_text_lt_order, str_lt, text_lt};
use crate::strmap::{keys_unique, lemma_key_index, lookup, pairs_view, Entries, StrMap};

verus! {

/// What `plus` may give for two counter readings: the sum that the caller
/// computes on the `f64` values behind the two bit patterns.
pub open spec fn sums_to<F: Fn(u64, u64) -> u64>(plus: &F, state: u64, next: u64, r: u64) -> bool {
    call_ensures(*plus, (state, next), r)
}

/// `plus` can be called on any two counter readings.
pub open spec fn total<F: Fn(u64, u64) -> u64>(plus: &F) -> bool {
    forall|a: u64, b: u64| call_requires(*plus, (a, b))
}

/// The merge of a value of the state with one of the next scrape: two counters
/// add up, two gauges give the next reading, any other pair gives the next
/// value.
pub open spec fn value_merged<F: Fn(u64, u64) -> u64>(
    plus: &F,
    state: Value,
    next: Value,
    r: Value,
) -> bool {
    match (state, next) {
        (Value::Counter(s), Value::Counter(n)) => r matches Value::Counter(x) && sums_to(plus, s, n, x),
        (Value::Gauge(_), Value::Gauge(n)) => r == Value::Gauge(n),
        (_, other) => r == other,
    }
}

/// The merge of a sample of the state with the sample of the next scrape that
/// has its key: the next sample, with the merged value.
pub open spec fn sample_merged<F: Fn(u64, u64) -> u64>(
    plus: &F,
    state: Sample,
    next: Sample,
    r: Sample,
) -> bool {
    &&& r.metric == next.metric
    &&& r.labels == next.labels
    &&& r.timestamp == next.timestamp
    &&& value_merged(plus, state.value, next.value, r.value)
}

/// A gauge takes the next reading.
pub fn gauge_merge(_state: u64, next: u64) -> (r: Value)
    ensures
        r == Value::Gauge(next),
{
    Value::Gauge(next)
}

/// A counter adds the next reading to the state's.
pub fn counter_merge<F: Fn(u64, u64) -> u64>(state: u64, next: u64, plus: &F) -> (r: Value)
    requires
        call_requires(*plus, (state, next)),
    ensures
        r matches Value::Counter(x) && sums_to(plus, state, next, x),
{
    Value::Counter(plus(state, next))
}

/// Merges two values: see [`value_merged`].
pub fn value_merge<F: Fn(u64, u64) -> u64>(state: Value, next: Value, plus: &F) -> (r: Value)
    requires
        total(plus),
    ensures
        value_merged(plus, state, next, r),
        !(state is Counter && next is Counter) ==> r == next,
        state is Counter && next is Counter ==> r is Counter,
{
    match (state, next) {
        (Value::Counter(s), Value::Counter(n)) => counter_merge(s, n, plus),
        (Value::Gauge(s), Value::Gauge(n)) => gauge_merge(s, n),
        (_, others) => others,
    }
}

/// Merges two samples of one key: see [`sample_merged`].
pub fn sample_merge<F: Fn(u64, u64) -> u64>(state: Sample, next: Sample, plus: &F) -> (r: Sample)
    requires
        total(plus),
    ensures
        sample_merged(plus, state, next, r),
        !(state.value is Counter && next.value is Counter) ==> r == next,
        state.value is Counter && next.value is Counter ==> r.value is Counter,
{
    let sval: Value = state.value;
    let nval: Value = next.value;
    let merged: Value = value_merge(sval, nval, plus);
    Sample { metric: next.metric, value: merged, labels: next.labels, timestamp: next.timestamp }
}

/// A label set taken as a map from label names to values.
pub open spec fn label_map(e: Entries) -> Map<Seq<char>, Seq<char>> {
    Map::new(|k: Seq<char>| lookup(e, k) is Some, |k: Seq<char>| lookup(e, k).unwrap())
}

/// What identifies a sample across scrapes: its metric name and its labels.
pub type KeyView = (Seq<char>, Map<Seq<char>, Seq<char>>);

/// The key of a sample.
pub open spec fn sample_key(s: Sample) -> KeyView {
    (s.metric@, label_map(s.labels@))
}

/// The position of the last sample with key `k`, or -1 where there is none.
pub open spec fn key_pos(t: Seq<Sample>, k: KeyView) -> int
    decreases t.len(),
{
    if t.len() == 0 {
        -1
    } else if sample_key(t.last()) == k {
        t.len() - 1
    } else {
        key_pos(t.drop_last(), k)
    }
}

/// No two samples share a key.
pub open spec fn keys_distinct(t: Seq<Sample>) -> bool {
    forall|i: int, j: int|
        0 <= i < t.len() && 0 <= j < t.len() && i != j ==> sample_key(t[i]) != sample_key(t[j])
}

/// Inserting a sample into a table keyed by sample keys: it takes the place of
/// the sample with its key, else it is appended.
pub open spec fn table_insert(t: Seq<Sample>, s: Sample) -> Seq<Sample> {
    let i = key_pos(t, sample_key(s));
    if i < 0 {
        t.push(s)
    } else {
        t.update(i, s)
    }
}

/// The table of a list of samples: each key once, with the last sample of the
/// list that has it, in the order in which the keys first occur.
pub open spec fn table_of(s: Seq<Sample>) -> Seq<Sample>
    decreases s.len(),
{
    if s.len() == 0 {
        Seq::empty()
    } else {
        table_insert(table_of(s.drop_last()), s.last())
    }
}

pub proof fn lemma_key_pos(t: Seq<Sample>, k: KeyView)
    ensures
        -1 <= key_pos(t, k) < t.len(),
        key_pos(t, k) >= 0 ==> sample_key(t[key_pos(t, k)]) == k,
        key_pos(t, k) < 0 ==> forall|j: int| 0 <= j < t.len() ==> sample_key(#[trigger] t[j]) != k,
    decreases t.len(),
{
    if t.len() > 0 {
        let d = t.drop_last();
        lemma_key_pos(d, k);
        assert forall|j: int| 0 <= j < d.len() implies d[j] == t[j] by {}
    }
}

pub proof fn lemma_key_pos_unique(t: Seq<Sample>, i: int)
    requires
        keys_distinct(t),
        0 <= i < t.len(),
    ensures
        key_pos(t, sample_key(t[i])) == i,
{
    lemma_key_pos(t, sample_key(t[i]));
}

pub proof fn lemma_table_of(s: Seq<Sample>)
    ensures
        keys_distinct(table_of(s)),
        table_of(s).len() <= s.len(),
    decreases s.len(),
{
    if s.len() > 0 {
        lemma_table_of(s.drop_last());
        lemma_key_pos(table_of(s.drop_last()), sample_key(s.last()));
    }
}

/// A label set in the order of its label names: what the key of a sample
/// compares.
pub struct LabelTree(Vec<(String, String)>);

impl View for LabelTree {
    type V = Entries;

    closed spec fn view(&self) -> Entries {
        pairs_view(self.0@)
    }
}

impl LabelTree {
    #[verifier::type_invariant]
    spec fn inv(&self) -> bool {
        sorted_by_name(self@) && keys_unique(self@)
    }

    /// The labels, in order.
    pub fn entries(&self) -> (r: &[(String, String)])
        ensures
            pairs_view(r@) == self@,
            keys_unique(self@),
            sorted_by_name(self@),
    {
        proof {
            use_type_invariant(self);
        }
        self.0.as_slice()
    }

    /// Whether `self` holds the label `(name, value)`.
    fn holds(&self, name: &String, value: &String) -> (r: bool)
        ensures
            r == (lookup(self@, name@) == Some(value@)),
    {
        proof {
            use_type_invariant(self);
            lemma_key_index(self@, name@);
        }
        let n = self.0.len();
        let mut i: usize = 0;
        while i < n
            invariant
                n == self@.len(),
                n == self.0@.len(),
                i <= n,
                keys_unique(self@),
                forall|j: int| 0 <= j < i ==> self@[j].0 != name@,
            decreases n - i,
        {
            if self.0[i].0 == *name {
                proof {
                    crate::strmap::lemma_key_index_unique(self@, name@, i as int);
                }
                return self.0[i].1 == *value;
            }
            i = i + 1;
        }
        proof {
            lemma_key_index(self@, name@);
        }
        false
    }

    /// Whether every label of `self` is one of `other`.
    fn within(&self, other: &LabelTree) -> (r: bool)
        ensures
            r == (forall|k: Seq<char>| #[trigger]
                lookup(self@, k) is Some ==> lookup(other@, k) == lookup(self@, k)),
    {
        proof {
            use_type_invariant(self);
        }
        let n = self.0.len();
        let mut i: usize = 0;
        while i < n
            invariant
                n == self@.len(),
                n == self.0@.len(),
                i <= n,
                keys_unique(self@),
                forall|j: int| 0 <= j < i ==> lookup(other@, #[trigger] self@[j].0) == Some(self@[j].1),
            decreases n - i,
        {
            if !other.holds(&self.0[i].0, &self.0[i].1) {
                proof {
                    crate::strmap::lemma_key_index_unique(self@, self@[i as int].0, i as int);
                    assert(lookup(self@, self@[i as int].0) is Some);
                }
                return false;
            }
            i = i + 1;
        }
        assert forall|k: Seq<char>| #[trigger]
            lookup(self@, k) is Some implies lookup(other@, k) == lookup(self@, k) by {
            lemma_key_index(self@, k);
            let j = crate::strmap::key_index(self@, k);
            assert(lookup(other@, self@[j].0) == Some(self@[j].1));
        }
        true
    }

    /// Whether two label sets hold the same labels.
    pub fn same_labels(&self, other: &LabelTree) -> (r: bool)
        ensures
            r == (label_map(self@) == label_map(other@)),
    {
        let a = self.within(other);
        let b = other.within(self);
        proof {
            if a && b {
                assert(label_map(self@) =~= label_map(other@));
            }
            if label_map(self@) == label_map(other@) {
                assert forall|k: Seq<char>| #[trigger]
                    lookup(self@, k) is Some implies lookup(other@, k) == lookup(self@, k) by {
                    assert(label_map(self@).dom().contains(k));
                    assert(label_map(other@).dom().contains(k));
                    assert(label_map(self@)[k] == label_map(other@)[k]);
                }
                assert forall|k: Seq<char>| #[trigger]
                    lookup(other@, k) is Some implies lookup(self@, k) == lookup(other@, k) by {
                    assert(label_map(other@).dom().contains(k));
                    assert(label_map(self@).dom().contains(k));
                    assert(label_map(self@)[k] == label_map(other@)[k]);
                }
            }
        }
        a && b
    }
}

/// The entries are in strictly increasing order of their names' bytes.
pub open spec fn sorted_by_name(s: Entries) -> bool {
    forall|i: int, j: int| 0 <= i < j < s.len() ==> text_lt(s[i].0, s[j].0)
}

pub proof fn lemma_sorted_unique(s: Entries)
    requires
        sorted_by_name(s),
    ensures
        keys_unique(s),
{
    assert forall|i: int, j: int| 0 <= i < s.len() && 0 <= j < s.len() && i != j implies s[i].0
        != s[j].0 by {
        lemma_text_lt_order(s[i].0, s[j].0, s[j].0);
    }
}

/// In a label set with each name once, a name has a value exactly where the
/// set holds that label.
pub proof fn lemma_lookup_contains(s: Entries, k: Seq<char>, v: Seq<char>)
    requires
        keys_unique(s),
    ensures
        (lookup(s, k) == Some(v)) == s.contains((k, v)),
{
    lemma_key_index(s, k);
    if s.contains((k, v)) {
        let i = choose|i: int| 0 <= i < s.len() && s[i] == (k, v);
        crate::strmap::lemma_key_index_unique(s, k, i);
    }
    if lookup(s, k) == Some(v) {
        assert(s[crate::strmap::key_index(s, k)] == (k, v));
    }
}

/// Two label sets, each with each name once, that hold the same labels are
/// the same map.
pub proof fn lemma_same_labels_same_map(a: Entries, b: Entries)
    requires
        keys_unique(a),
        keys_unique(b),
        forall|e: (Seq<char>, Seq<char>)| a.contains(e) <==> b.contains(e),
    ensures
        label_map(a) == label_map(b),
{
    assert forall|k: Seq<char>| lookup(a, k) == lookup(b, k) by {
        match lookup(a, k) {
            Some(v) => {
                lemma_lookup_contains(a, k, v);
                lemma_lookup_contains(b, k, v);
            },
            None => {
                match lookup(b, k) {
                    Some(v) => {
                        lemma_lookup_contains(a, k, v);
                        lemma_lookup_contains(b, k, v);
                    },
                    None => {},
                }
            },
        }
    }
    assert(label_map(a) =~= label_map(b));
}

/// Takes the labels of a sample as a [`LabelTree`]: the same labels, in the
/// order of their names.
pub fn labels2tree(l: Labels) -> (r: LabelTree)
    ensures
        sorted_by_name(r@),
        r@.len() == l@.len(),
        forall|e: (Seq<char>, Seq<char>)| r@.contains(e) <==> l@.contains(e),
        label_map(r@) == label_map(l@),
{
    let e = l.entries();
    let mut out: Vec<(String, String)> = Vec::new();
    let n = e.len();
    let mut i: usize = 0;
    assert(pairs_view(out@) =~= Seq::<(Seq<char>, Seq<char>)>::empty());
    while i < n
        invariant
            n == e@.len(),
            pairs_view(e@) == l@,
            keys_unique(l@),
            i <= n,
            out@.len() == i,
            sorted_by_name(pairs_view(out@)),
            forall|x: (Seq<char>, Seq<char>)| pairs_view(out@).contains(x) <==> l@.take(i as int).contains(x),
        decreases n - i,
    {
        let name = e[i].0.clone();
        let value = e[i].1.clone();
        let ghost o = pairs_view(out@);
        let ghost t = (name@, value@);
        assert(t == l@[i as int]);
        let mut p: usize = 0;
        while p < out.len() && str_lt(out[p].0.as_str(), name.as_str())
            invariant
                p <= out@.len(),
                o == pairs_view(out@),
                forall|q: int| 0 <= q < p ==> text_lt(o[q].0, name@),
            decreases out@.len() - p,
        {
            p = p + 1;
        }
        assert forall|q: int| 0 <= q < o.len() implies o[q].0 != name@ by {
            assert(o.contains(o[q]));
            assert(l@.take(i as int).contains(o[q]));
            let j = choose|j: int| 0 <= j < i && l@.take(i as int)[j] == o[q];
            assert(l@[j] == o[q]);
        }
        proof {
            if p < o.len() {
                lemma_text_lt_order(o[p as int].0, name@, name@);
            }
        }
        out.insert(p, (name, value));
        assert(pairs_view(out@) =~= o.insert(p as int, t));
        assert forall|a: int, b: int| 0 <= a < b < pairs_view(out@).len() implies text_lt(
            pairs_view(out@)[a].0,
            pairs_view(out@)[b].0,
        ) by {
            let w = pairs_view(out@);
            if b < p {
            } else if a < p && b == p {
            } else if a < p {
                lemma_text_lt_order(o[a].0, name@, o[b - 1].0);
                lemma_text_lt_order(name@, o[p as int].0, o[b - 1].0);
            } else if a == p {
                if b - 1 > p {
                    lemma_text_lt_order(name@, o[p as int].0, o[b - 1].0);
                }
            } else {
                assert(w[a] == o[a - 1] && w[b] == o[b - 1]);
            }
        }
        assert(l@.take(i + 1) =~= l@.take(i as int).push(t));
        assert forall|x: (Seq<char>, Seq<char>)| pairs_view(out@).contains(x) <==> l@.take(i + 1).contains(x) by {
            let w = pairs_view(out@);
            if w.contains(x) {
                let j = choose|j: int| 0 <= j < w.len() && w[j] == x;
                if j < p {
                    assert(o[j] == x);
                    assert(o.contains(x));
                } else if j == p {
                    assert(l@.take(i + 1)[i as int] == x);
                } else {
                    assert(o[j - 1] == x);
                    assert(o.contains(x));
                }
            }
            if l@.take(i + 1).contains(x) {
                let li = l@.take(i + 1);
                let j = choose|j: int| 0 <= j < li.len() && li[j] == x;
                if j == i {
                    assert(w[p as int] == x);
                } else {
                    assert(l@.take(i as int)[j] == x);
                    assert(o.contains(x));
                    let q = choose|q: int| 0 <= q < o.len() && o[q] == x;
                    if q < p {
                        assert(w[q] == x);
                    } else {
                        assert(w[q + 1] == x);
                    }
                }
            }
        }
        i = i + 1;
    }
    assert(l@.take(n as int) =~= l@);
    proof {
        lemma_sorted_unique(pairs_view(out@));
        lemma_same_labels_same_map(pairs_view(out@), l@);
    }
    LabelTree(out)
}

/// The key of a sample: its metric name and its labels.
pub struct HashKey(pub String, pub LabelTree);

impl View for HashKey {
    type V = KeyView;

    open spec fn view(&self) -> KeyView {
        (self.0@, label_map(self.1@))
    }
}

impl HashKey {
    /// Whether two keys are equal: same metric name, same labels.
    pub fn same(&self, other: &HashKey) -> (r: bool)
        ensures
            r == (self@ == other@),
    {
        if self.0 == other.0 {
            self.1.same_labels(&other.1)
        } else {
            false
        }
    }
}

impl PartialEq for HashKey {
    fn eq(&self, other: &HashKey) -> (r: bool) {
        self.same(other)
    }
}

impl vstd::std_specs::cmp::PartialEqSpecImpl for HashKey {
    open spec fn obeys_eq_spec() -> bool {
        true
    }

    open spec fn eq_spec(&self, other: &HashKey) -> bool {
        self@ == other@
    }
}

impl Eq for HashKey {
}

impl PartialEq for LabelTree {
    fn eq(&self, other: &LabelTree) -> (r: bool) {
        self.same_labels(other)
    }
}

impl vstd::std_specs::cmp::PartialEqSpecImpl for LabelTree {
    open spec fn obeys_eq_spec() -> bool {
        true
    }

    open spec fn eq_spec(&self, other: &LabelTree) -> bool {
        label_map(self@) == label_map(other@)
    }
}

impl Eq for LabelTree {
}

/// The key of a sample: its metric name, and its labels in the order of their
/// names.
pub fn sample2key(s: &Sample) -> (r: HashKey)
    ensures
        r@ == sample_key(*s),
        r.0@ == s.metric@,
        sorted_by_name(r.1@),
        r.1@.len() == s.labels@.len(),
        forall|e: (Seq<char>, Seq<char>)| r.1@.contains(e) <==> s.labels@.contains(e),
{
    let metric: String = s.metric.clone();
    let labels: Labels = s.labels.clone();
    let ltree: LabelTree = labels2tree(labels);
    HashKey(metric, ltree)
}

/// The samples of a table, each with its key.
pub open spec fn table_samples(e: Seq<(HashKey, Sample)>) -> Seq<Sample> {
    e.map_values(|p: (HashKey, Sample)| p.1)
}

/// Each entry of a table holds the key of its sample, and no key twice.
pub open spec fn table_wf(e: Seq<(HashKey, Sample)>) -> bool {
    &&& forall|i: int| 0 <= i < e.len() ==> (#[trigger] e[i]).0@ == sample_key(e[i].1)
    &&& keys_distinct(table_samples(e))
}

/// Samples by key: what a scrape holds once samples with equal keys are
/// taken as one.
pub struct SampleTable {
    entries: Vec<(HashKey, Sample)>,
}

impl View for SampleTable {
    type V = Seq<Sample>;

    closed spec fn view(&self) -> Seq<Sample> {
        table_samples(self.entries@)
    }
}

impl SampleTable {
    #[verifier::type_invariant]
    spec fn inv(&self) -> bool {
        table_wf(self.entries@)
    }

    /// The number of keys.
    pub fn len(&self) -> (r: usize)
        ensures
            r == self@.len(),
    {
        self.entries.len()
    }

    /// The entries, each key with its sample, in order.
    pub fn into_entries(self) -> (r: Vec<(HashKey, Sample)>)
        ensures
            table_samples(r@) == self@,
            table_wf(r@),
    {
        proof {
            use_type_invariant(&self);
        }
        self.entries
    }
}

/// The position of the entry with key `k`.
fn find_key(e: &Vec<(HashKey, Sample)>, k: &HashKey) -> (r: Option<usize>)
    requires
        table_wf(e@),
    ensures
        match r {
            Some(i) => i < e@.len() && key_pos(table_samples(e@), k@) == i,
            None => key_pos(table_samples(e@), k@) < 0,
        },
{
    let n = e.len();
    let mut i: usize = 0;
    while i < n
        invariant
            n == e@.len(),
            i <= n,
            table_wf(e@),
            forall|j: int| 0 <= j < i ==> sample_key(#[trigger] table_samples(e@)[j]) != k@,
        decreases n - i,
    {
        if e[i].0.same(k) {
            proof {
                assert(e@[i as int].0@ == sample_key(table_samples(e@)[i as int]));
                lemma_key_pos_unique(table_samples(e@), i as int);
            }
            return Some(i);
        }
        assert(e@[i as int].0@ == sample_key(table_samples(e@)[i as int]));
        i = i + 1;
    }
    proof {
        lemma_key_pos(table_samples(e@), k@);
    }
    None
}

/// The samples by key: where two samples share a key, the later one stays, at
/// the place of the first.
pub fn samples2hash(s: Vec<Sample>) -> (r: SampleTable)
    ensures
        r@ == table_of(s@),
{
    let mut entries: Vec<(HashKey, Sample)> = Vec::new();
    let ghost all = s@;
    assert(table_samples(entries@) =~= table_of(all.take(0)));
    for x in it: s
        invariant
            all == it.seq(),
            table_wf(entries@),
            table_samples(entries@) == table_of(all.take(it.index() as int)),
    {
        let ghost i = it.index();
        let ghost before = entries@;
        let key = sample2key(&x);
        proof {
            lemma_key_pos(table_samples(before), key@);
            assert(all.take(i + 1).drop_last() =~= all.take(i as int));
        }
        match find_key(&entries, &key) {
            Some(p) => {
                entries.set(p, (key, x));
            },
            None => {
                entries.push((key, x));
            },
        }
        proof {
            assert(table_samples(entries@) =~= table_of(all.take(i + 1)));
            lemma_table_of(all.take(i + 1));
        }
    }
    assert(all.take(all.len() as int) =~= all);
    SampleTable { entries }
}

/// The samples of `st`, in order, whose key no sample of `ks` has.
pub open spec fn leftover(st: Seq<Sample>, ks: Seq<Sample>) -> Seq<Sample>
    decreases st.len(),
{
    if st.len() == 0 {
        Seq::empty()
    } else {
        let p = leftover(st.drop_last(), ks);
        if key_pos(ks, sample_key(st.last())) < 0 {
            p.push(st.last())
        } else {
            p
        }
    }
}

/// The samples of a merge, from the tables of the state (`st`) and of the
/// next scrape (`nt`): first one sample for each key of the next scrape, in
/// its order, merged with the state's sample of that key where there is one;
/// then the state's samples whose key the next scrape lacks, in their order.
pub open spec fn merged_samples<F: Fn(u64, u64) -> u64>(
    plus: &F,
    st: Seq<Sample>,
    nt: Seq<Sample>,
    r: Seq<Sample>,
) -> bool {
    &&& r.len() == nt.len() + leftover(st, nt).len()
    &&& forall|i: int|
        0 <= i < nt.len() ==> {
            let j = key_pos(st, sample_key(nt[i]));
            if j < 0 {
                #[trigger] r[i] == nt[i]
            } else {
                sample_merged(plus, st[j], nt[i], r[i])
            }
        }
    &&& forall|i: int|
        0 <= i < leftover(st, nt).len() ==> #[trigger] r[nt.len() + i] == leftover(st, nt)[i]
}

pub proof fn lemma_leftover(st: Seq<Sample>, ks: Seq<Sample>, k: KeyView)
    requires
        keys_distinct(st),
    ensures
        keys_distinct(leftover(st, ks)),
        leftover(st, ks).len() <= st.len(),
        (key_pos(leftover(st, ks), k) >= 0) == (key_pos(st, k) >= 0 && key_pos(ks, k) < 0),
        key_pos(leftover(st, ks), k) >= 0 ==> leftover(st, ks)[key_pos(leftover(st, ks), k)]
            == st[key_pos(st, k)],
    decreases st.len(),
{
    if st.len() > 0 {
        let d = st.drop_last();
        assert(keys_distinct(d));
        lemma_leftover(d, ks, k);
        lemma_leftover(d, ks, sample_key(st.last()));
        let p = leftover(d, ks);
        let r = leftover(st, ks);
        lemma_key_pos(st, k);
        lemma_key_pos(d, k);
        lemma_key_pos(p, k);
        lemma_key_pos(r, k);
        lemma_key_pos(d, sample_key(st.last()));
        lemma_key_pos(p, sample_key(st.last()));
        if key_pos(ks, sample_key(st.last())) < 0 {
            assert forall|i: int, j: int|
                0 <= i < r.len() && 0 <= j < r.len() && i != j implies sample_key(r[i])
                != sample_key(r[j]) by {
                if i < p.len() && j < p.len() {
                    assert(r[i] == p[i] && r[j] == p[j]);
                } else if i < p.len() {
                    assert(r[i] == p[i]);
                    lemma_key_pos(p, sample_key(r[i]));
                    lemma_leftover(d, ks, sample_key(r[i]));
                } else {
                    assert(r[j] == p[j]);
                    lemma_key_pos(p, sample_key(r[j]));
                    lemma_leftover(d, ks, sample_key(r[j]));
                }
            }
            if sample_key(st.last()) != k {
                assert forall|j: int| 0 <= j < p.len() implies r[j] == p[j] by {}
            }
        }
    }
}

pub proof fn lemma_leftover_push(st: Seq<Sample>, ks: Seq<Sample>, y: Sample)
    requires
        keys_distinct(st),
    ensures
        leftover(st, ks.push(y)) == ({
            let r = leftover(st, ks);
            let p = key_pos(r, sample_key(y));
            if p < 0 {
                r
            } else {
                r.remove(p)
            }
        }),
    decreases st.len(),
{
    let ky = sample_key(y);
    let r = leftover(st, ks);
    let p = key_pos(r, ky);
    if st.len() > 0 {
        let d = st.drop_last();
        let x = st.last();
        assert(keys_distinct(d));
        lemma_leftover_push(d, ks, y);
        lemma_leftover(d, ks, ky);
        lemma_leftover(st, ks, ky);
        lemma_key_pos(ks, sample_key(x));
        let rp = leftover(d, ks);
        let pp = key_pos(rp, ky);
        lemma_key_pos(rp, ky);
        lemma_key_pos(r, ky);
        lemma_key_pos(d, ky);
        assert(ks.push(y).drop_last() =~= ks);
        assert((key_pos(ks.push(y), sample_key(x)) < 0) == (key_pos(ks, sample_key(x)) < 0
            && sample_key(x) != ky));
        if sample_key(x) == ky {
            lemma_key_pos_unique(st, st.len() - 1);
            assert(key_pos(d, ky) < 0) by {
                if key_pos(d, ky) >= 0 {
                    assert(st[key_pos(d, ky)] == d[key_pos(d, ky)]);
                }
            }
            if key_pos(ks, sample_key(x)) < 0 {
                assert(r == rp.push(x));
                assert(p == r.len() - 1);
                assert(r.remove(p) =~= rp);
            }
        } else {
            if key_pos(ks, sample_key(x)) < 0 {
                assert(r == rp.push(x));
                if pp >= 0 {
                    assert(p == pp);
                    assert(r.remove(p) =~= rp.remove(pp).push(x));
                }
            }
        }
    }
}

pub proof fn lemma_leftover_none(st: Seq<Sample>, ks: Seq<Sample>)
    requires
        ks.len() == 0,
    ensures
        leftover(st, ks) == st,
    decreases st.len(),
{
    if st.len() > 0 {
        lemma_leftover_none(st.drop_last(), ks);
        assert(st.drop_last().push(st.last()) =~= st);
    }
}

/// Merges the state scrape with the next one. The help texts are those of
/// both, the state's where both have one for a metric. The samples are those
/// of [`merged_samples`], taken over the two scrapes' tables by key
/// ([`samples2hash`]).
pub fn scrape_merge<F: Fn(u64, u64) -> u64>(state: Scrape, next: Scrape, plus: &F) -> (r: Scrape)
    requires
        total(plus),
    ensures
        r.docs@ == crate::strmap::extend_entries(next.docs@, state.docs@),
        merged_samples(plus, table_of(state.samples@), table_of(next.samples@), r.samples@),
{
    let mut merged: StrMap = next.docs;
    merged.extend(state.docs);

    let ghost st = table_of(state.samples@);
    let ghost nt = table_of(next.samples@);
    let smap = samples2hash(state.samples).into_entries();
    let nmap = samples2hash(next.samples).into_entries();
    proof {
        lemma_table_of(state.samples@);
        lemma_table_of(next.samples@);
    }
    let ghost nentries = nmap@;
    let mut rest = smap;
    let mut merged_samples: Vec<Sample> = Vec::new();
    proof {
        lemma_leftover_none(st, nt.take(0));
    }
    for entry in it: nmap
        invariant
            nentries == it.seq(),
            table_samples(nentries) == nt,
            table_wf(nentries),
            keys_distinct(st),
            keys_distinct(nt),
            total(plus),
            table_wf(rest@),
            table_samples(rest@) == leftover(st, nt.take(it.index() as int)),
            merged_samples@.len() == it.index(),
            forall|i: int|
                0 <= i < it.index() ==> {
                    let j = key_pos(st, sample_key(nt[i]));
                    if j < 0 {
                        #[trigger] merged_samples@[i] == nt[i]
                    } else {
                        sample_merged(plus, st[j], nt[i], merged_samples@[i])
                    }
                },
    {
        let ghost i = it.index() as int;
        let ghost before = merged_samples@;
        let ghost rest_before = table_samples(rest@);
        let (key, nsamp) = entry;
        assert(nt[i] == nsamp);
        assert(key@ == sample_key(nsamp));
        proof {
            assert(nt.take(i + 1) =~= nt.take(i).push(nsamp));
            lemma_leftover_push(st, nt.take(i), nsamp);
            lemma_leftover(st, nt.take(i), key@);
            lemma_key_pos(nt.take(i), key@);
            lemma_key_pos_unique(nt, i);
            assert(key_pos(nt.take(i), key@) < 0) by {
                if key_pos(nt.take(i), key@) >= 0 {
                    let q = key_pos(nt.take(i), key@);
                    assert(nt[q] == nt.take(i)[q]);
                }
            }
            lemma_key_pos(st, key@);
        }
        match find_key(&rest, &key) {
            None => {
                merged_samples.push(nsamp);
            },
            Some(p) => {
                let (_, ssamp) = rest.remove(p);
                assert(table_samples(rest@) =~= rest_before.remove(p as int));
                let m = sample_merge(ssamp, nsamp, plus);
                merged_samples.push(m);
            },
        }
        assert forall|q: int| 0 <= q < i implies #[trigger] merged_samples@[q] == before[q] by {}
    }
    assert(nt.take(nt.len() as int) =~= nt);
    let ghost left = leftover(st, nt);
    let ghost rentries = rest@;
    let ghost head = merged_samples@;
    for entry in it: rest
        invariant
            rentries == it.seq(),
            table_samples(rentries) == left,
            merged_samples@.len() == head.len() + it.index(),
            forall|q: int| 0 <= q < head.len() ==> #[trigger] merged_samples@[q] == head[q],
            forall|q: int| 0 <= q < it.index() ==> #[trigger] merged_samples@[head.len() + q] == left[q],
    {
        let ghost j = it.index() as int;
        let (_, ssamp) = entry;
        assert(ssamp == left[j]);
        merged_samples.push(ssamp);
    }
    Scrape { docs: merged, samples: merged_samples }
}

/// The table of a list of samples has the keys of the list, each once, and
/// for each key the last sample of the list that has it.
pub proof fn law_table_of(s: Seq<Sample>, k: KeyView)
    ensures
        keys_distinct(table_of(s)),
        (key_pos(table_of(s), k) >= 0) == (key_pos(s, k) >= 0),
        key_pos(s, k) >= 0 ==> table_of(s)[key_pos(table_of(s), k)] == s[key_pos(s, k)],
    decreases s.len(),
{
    lemma_table_of(s);
    if s.len() > 0 {
        let d = s.drop_last();
        let x = s.last();
        let t = table_of(d);
        law_table_of(d, k);
        lemma_table_of(d);
        lemma_key_pos(t, sample_key(x));
        lemma_key_pos(t, k);
        lemma_key_pos(d, k);
        let r = table_of(s);
        lemma_key_pos(r, k);
        if sample_key(x) == k {
            if key_pos(t, k) < 0 {
                lemma_key_pos_unique(r, t.len() as int);
            } else {
                lemma_key_pos_unique(r, key_pos(t, k));
            }
        } else {
            if key_pos(t, k) >= 0 {
                lemma_key_pos_unique(r, key_pos(t, k));
                assert(r[key_pos(t, k)] == t[key_pos(t, k)]);
            } else {
                assert forall|j: int| 0 <= j < r.len() implies sample_key(#[trigger] r[j]) != k by {
                    if j < t.len() {
                        if key_pos(t, sample_key(x)) < 0 || j != key_pos(t, sample_key(x)) {
                            assert(r[j] == t[j]);
                        }
                    }
                }
                lemma_key_pos(r, k);
            }
        }
    }
}

/// The samples of a merge have the keys of both scrapes, each once: the merge
/// neither loses a key nor makes one up.
pub proof fn law_merge_keys<F: Fn(u64, u64) -> u64>(
    plus: &F,
    state: Seq<Sample>,
    next: Seq<Sample>,
    r: Seq<Sample>,
    k: KeyView,
)
    requires
        merged_samples(plus, table_of(state), table_of(next), r),
    ensures
        keys_distinct(r),
        (key_pos(r, k) >= 0) == (key_pos(state, k) >= 0 || key_pos(next, k) >= 0),
{
    let st = table_of(state);
    let nt = table_of(next);
    let left = leftover(st, nt);
    law_table_of(state, k);
    law_table_of(next, k);
    lemma_leftover(st, nt, k);
    let n = nt.len();
    // the first part of the merge has the keys of the next scrape, in order
    assert forall|i: int| 0 <= i < n implies sample_key(#[trigger] r[i]) == sample_key(nt[i]) by {
        let j = key_pos(st, sample_key(nt[i]));
        if j < 0 {
            assert(r[i] == nt[i]);
        } else {
            assert(sample_merged(plus, st[j], nt[i], r[i]));
        }
    }
    assert forall|i: int| 0 <= i < left.len() implies #[trigger] r[n + i] == left[i] by {}
    // no key of the rest is one of the next scrape's
    assert forall|i: int| 0 <= i < left.len() implies key_pos(nt, sample_key(#[trigger] left[i])) < 0 by {
        lemma_leftover(st, nt, sample_key(left[i]));
        lemma_key_pos(left, sample_key(left[i]));
    }
    assert forall|a: int, b: int| 0 <= a < r.len() && 0 <= b < r.len() && a != b implies sample_key(
        r[a],
    ) != sample_key(r[b]) by {
        lemma_leftover(st, nt, k);
        if a < n && b < n {
        } else if a >= n && b >= n {
            assert(r[n + (a - n)] == left[a - n] && r[n + (b - n)] == left[b - n]);
        } else if a < n {
            assert(r[n + (b - n)] == left[b - n]);
            lemma_key_pos(nt, sample_key(left[b - n]));
        } else {
            assert(r[n + (a - n)] == left[a - n]);
            lemma_key_pos(nt, sample_key(left[a - n]));
        }
    }
    lemma_key_pos(r, k);
    lemma_key_pos(nt, k);
    lemma_key_pos(left, k);
    if key_pos(nt, k) >= 0 {
        assert(sample_key(r[key_pos(nt, k)]) == k);
    } else if key_pos(st, k) >= 0 {
        assert(sample_key(r[n + key_pos(left, k)]) == k);
    }
    if key_pos(r, k) >= 0 {
        let q = key_pos(r, k);
        if q < n {
            assert(sample_key(nt[q]) == k);
        } else {
            assert(r[n + (q - n)] == left[q - n]);
            assert(sample_key(left[q - n]) == k);
        }
    }
}

/// For each key, the merge holds: the merged sample where both scrapes have
/// the key (the last sample of each with it); the next scrape's sample where
/// only it has the key; the state's sample where only the state has it.
pub proof fn law_merge_by_key<F: Fn(u64, u64) -> u64>(
    plus: &F,
    state: Seq<Sample>,
    next: Seq<Sample>,
    r: Seq<Sample>,
    k: KeyView,
)
    requires
        merged_samples(plus, table_of(state), table_of(next), r),
    ensures
        key_pos(state, k) >= 0 && key_pos(next, k) >= 0 ==> sample_merged(
            plus,
            state[key_pos(state, k)],
            next[key_pos(next, k)],
            r[key_pos(r, k)],
        ),
        key_pos(state, k) < 0 && key_pos(next, k) >= 0 ==> r[key_pos(r, k)] == next[key_pos(
            next,
            k,
        )],
        key_pos(state, k) >= 0 && key_pos(next, k) < 0 ==> r[key_pos(r, k)] == state[key_pos(
            state,
            k,
        )],
{
    let st = table_of(state);
    let nt = table_of(next);
    let left = leftover(st, nt);
    let n = nt.len();
    law_merge_keys(plus, state, next, r, k);
    law_table_of(state, k);
    law_table_of(next, k);
    lemma_leftover(st, nt, k);
    lemma_key_pos(st, k);
    lemma_key_pos(nt, k);
    lemma_key_pos(left, k);
    if key_pos(nt, k) >= 0 {
        let i = key_pos(nt, k);
        let j = key_pos(st, sample_key(nt[i]));
        if j < 0 {
            assert(r[i] == nt[i]);
        } else {
            assert(sample_merged(plus, st[j], nt[i], r[i]));
        }
        assert(sample_key(r[i]) == k);
        lemma_key_pos_unique(r, i);
    } else if key_pos(st, k) >= 0 {
        let j = key_pos(left, k);
        assert(r[n + j] == left[j]);
        lemma_key_pos_unique(r, n + j);
    }
}

/// Merging into an empty state gives the next scrape's samples, each key
/// once.
pub proof fn law_merge_empty_state<F: Fn(u64, u64) -> u64>(
    plus: &F,
    state: Seq<Sample>,
    next: Seq<Sample>,
    r: Seq<Sample>,
)
    requires
        state.len() == 0,
        merged_samples(plus, table_of(state), table_of(next), r),
    ensures
        r == table_of(next),
{
    let st = table_of(state);
    let nt = table_of(next);
    assert(st.len() == 0);
    assert(leftover(st, nt).len() == 0);
    assert forall|i: int| 0 <= i < nt.len() implies r[i] == nt[i] by {
        lemma_key_pos(st, sample_key(nt[i]));
    }
    assert(r =~= nt);
}

/// Merging an empty next scrape gives the state's samples, each key once.
pub proof fn law_merge_empty_next<F: Fn(u64, u64) -> u64>(
    plus: &F,
    state: Seq<Sample>,
    next: Seq<Sample>,
    r: Seq<Sample>,
)
    requires
        next.len() == 0,
        merged_samples(plus, table_of(state), table_of(next), r),
    ensures
        r == table_of(state),
{
    let st = table_of(state);
    let nt = table_of(next);
    assert(nt.len() == 0);
    lemma_leftover_none(st, nt);
    assert forall|i: int| 0 <= i < st.len() implies r[i] == st[i] by {
        assert(r[nt.len() + i] == leftover(st, nt)[i]);
    }
    assert(r =~= st);
}

/// The help text of a metric after a merge is the state's where the state
/// has one, else the next scrape's.
pub proof fn law_merge_help(next: Entries, state: Entries, name: Seq<char>)
    requires
        keys_unique(next),
    ensures
        lookup(crate::strmap::extend_entries(next, state), name) == if lookup(state, name) is Some {
            lookup(state, name)
        } else {
            lookup(next, name)
        },
{
    crate::strmap::lemma_extend_entries(next, state);
}

/// Merging a value with any value but where both are counters gives the
/// next value as it is: a gauge takes the next reading, and every other
/// kind, or a change of kind, is replaced by the next value.
pub proof fn law_value_merge_next<F: Fn(u64, u64) -> u64>(
    plus: &F,
    state: Value,
    next: Value,
    r: Value,
)
    requires
        value_merged(plus, state, next, r),
    ensures
        !(state is Counter && next is Counter) ==> r == next,
        state is Counter && next is Counter ==> r is Counter,
{
}

/// In a merge, a key that both scrapes have, whose samples are not both
/// counters, holds the next scrape's sample as it is.
pub proof fn law_merge_keeps_next<F: Fn(u64, u64) -> u64>(
    plus: &F,
    state: Seq<Sample>,
    next: Seq<Sample>,
    r: Seq<Sample>,
    k: KeyView,
)
    requires
        merged_samples(plus, table_of(state), table_of(next), r),
        key_pos(next, k) >= 0,
        key_pos(state, k) >= 0 ==> !(state[key_pos(state, k)].value is Counter
            && next[key_pos(next, k)].value is Counter),
    ensures
        key_pos(r, k) >= 0,
        r[key_pos(r, k)] == next[key_pos(next, k)],
{
    law_merge_keys(plus, state, next, r, k);
    law_merge_by_key(plus, state, next, r, k);
    if key_pos(state, k) >= 0 {
        law_value_merge_next(
            plus,
            state[key_pos(state, k)].value,
            next[key_pos(next, k)].value,
            r[key_pos(r, k)].value,
        );
    }
}

} // verus!
