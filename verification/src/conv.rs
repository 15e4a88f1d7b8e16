//! From a scrape to metric families of counters and gauges, and the loop that
//! reads a scrape, converts it and hands the families on.
use vstd::prelude::*;

use crate::scrape::{Labels, Sample, Scrape, Value};
use crate::ser::{
    families_view, labels_view, metrics_view, BasicCounter, BasicFamily, BasicFamilyView,
    BasicGauge, BasicLabel, BasicMetric, BasicMetricView, MetricType,
};
use crate::strmap::{extend_entries, keys_unique, lookup, pairs_view, Entries};

verus! {

/// The error of a read or of a write, `std::io::Error`: carried through,
/// never looked into.
#[verifier::external_type_specification]
#[verifier::external_body]
pub struct ExIoError(std::io::Error);

/// The metric names of the samples, each once, in the order of their first
/// sample.
pub open spec fn distinct_names(s: Seq<Sample>) -> Seq<Seq<char>>
    decreases s.len(),
{
    if s.len() == 0 {
        Seq::empty()
    } else {
        let p = distinct_names(s.drop_last());
        if p.contains(s.last().metric@) {
            p
        } else {
            p.push(s.last().metric@)
        }
    }
}

/// The samples of the metric `name`, in order.
pub open spec fn samples_named(s: Seq<Sample>, name: Seq<char>) -> Seq<Sample>
    decreases s.len(),
{
    if s.len() == 0 {
        Seq::empty()
    } else {
        let p = samples_named(s.drop_last(), name);
        if s.last().metric@ == name {
            p.push(s.last())
        } else {
            p
        }
    }
}

/// The family type that a value gives: counters and gauges only.
pub open spec fn family_type(v: Value) -> Option<MetricType> {
    match v {
        Value::Counter(_) => Some(MetricType::Counter),
        Value::Gauge(_) => Some(MetricType::Gauge),
        _ => None,
    }
}

/// The metric of a sample: a counter's or a gauge's, with the sample's labels
/// in their order; none for any other value.
pub open spec fn metric_of(x: Sample) -> Option<BasicMetricView> {
    match x.value {
        Value::Counter(v) => Some(BasicMetricView { labels: x.labels@, gauge: None, counter: Some(v) }),
        Value::Gauge(v) => Some(BasicMetricView { labels: x.labels@, gauge: Some(v), counter: None }),
        _ => None,
    }
}

/// The metrics of the samples that have one, in order.
pub open spec fn metrics_of(g: Seq<Sample>) -> Seq<BasicMetricView>
    decreases g.len(),
{
    if g.len() == 0 {
        Seq::empty()
    } else {
        let p = metrics_of(g.drop_last());
        match metric_of(g.last()) {
            Some(m) => p.push(m),
            None => p,
        }
    }
}

/// The help text of a metric: the scrape's, or the empty text.
pub open spec fn help_of(docs: Entries, name: Seq<char>) -> Seq<char> {
    match lookup(docs, name) {
        Some(h) => h,
        None => Seq::empty(),
    }
}

/// The family of the metric `name`: its type is that of its first sample,
/// and there is none unless that is a counter or a gauge.
pub open spec fn family_of(docs: Entries, s: Seq<Sample>, name: Seq<char>) -> Option<BasicFamilyView> {
    let g = samples_named(s, name);
    match family_type(g[0].value) {
        Some(t) => Some(BasicFamilyView { ftyp: t, help: help_of(docs, name), met: metrics_of(g), name }),
        None => None,
    }
}

/// The families of the metrics `names` that have one, in order.
pub open spec fn families_of(docs: Entries, s: Seq<Sample>, names: Seq<Seq<char>>) -> Seq<BasicFamilyView>
    decreases names.len(),
{
    if names.len() == 0 {
        Seq::empty()
    } else {
        let p = families_of(docs, s, names.drop_last());
        match family_of(docs, s, names.last()) {
            Some(f) => p.push(f),
            None => p,
        }
    }
}

/// The families of a scrape: one for each metric whose first sample is a
/// counter or a gauge, in the order of the metrics' first samples.
pub open spec fn scrape_families(docs: Entries, s: Seq<Sample>) -> Seq<BasicFamilyView> {
    families_of(docs, s, distinct_names(s))
}

pub proof fn lemma_push_named(s: Seq<Sample>, x: Sample, n: Seq<char>)
    ensures
        samples_named(s.push(x), n) == if x.metric@ == n {
            samples_named(s, n).push(x)
        } else {
            samples_named(s, n)
        },
        distinct_names(s.push(x)) == if distinct_names(s).contains(x.metric@) {
            distinct_names(s)
        } else {
            distinct_names(s).push(x.metric@)
        },
{
    assert(s.push(x).drop_last() =~= s);
}

pub proof fn lemma_push_metrics(g: Seq<Sample>, x: Sample)
    ensures
        metrics_of(g.push(x)) == match metric_of(x) {
            Some(m) => metrics_of(g).push(m),
            None => metrics_of(g),
        },
        g.len() > 0 ==> g.push(x)[0] == g[0],
{
    assert(g.push(x).drop_last() =~= g);
}

pub proof fn lemma_distinct_names(s: Seq<Sample>, n: Seq<char>)
    ensures
        distinct_names(s).no_duplicates(),
        distinct_names(s).contains(n) == (samples_named(s, n).len() > 0),
    decreases s.len(),
{
    if s.len() > 0 {
        lemma_distinct_names(s.drop_last(), n);
        lemma_distinct_names(s.drop_last(), s.last().metric@);
        assert(s.drop_last().push(s.last()) =~= s);
        lemma_push_named(s.drop_last(), s.last(), n);
        let p = distinct_names(s.drop_last());
        if !p.contains(s.last().metric@) {
            assert(p.push(s.last().metric@).last() == s.last().metric@);
            if n == s.last().metric@ {
                assert(p.push(n)[p.len() as int] == n);
            } else {
                if p.contains(n) {
                    let j = choose|j: int| 0 <= j < p.len() && p[j] == n;
                    assert(p.push(s.last().metric@)[j] == n);
                }
            }
        }
    }
}

/// A group of samples of one metric, as [`scrape2basic`] gathers them.
struct Group {
    name: String,
    ftyp: Option<MetricType>,
    met: Vec<BasicMetric>,
}

/// The group of `name` matches the samples `s` read so far.
spec fn group_ok(s: Seq<Sample>, g: Group) -> bool {
    &&& samples_named(s, g.name@).len() > 0
    &&& g.ftyp == family_type(samples_named(s, g.name@)[0].value)
    &&& metrics_view(g.met@) == metrics_of(samples_named(s, g.name@))
}

spec fn group_names(g: Seq<Group>) -> Seq<Seq<char>> {
    g.map_values(|x: Group| x.name@)
}

/// The labels of a sample, as [`BasicLabel`]s in their order.
fn basic_labels(l: &Labels) -> (r: Vec<BasicLabel>)
    ensures
        labels_view(r@) == l@,
{
    let e = l.entries();
    let mut out: Vec<BasicLabel> = Vec::new();
    let n = e.len();
    let mut i: usize = 0;
    while i < n
        invariant
            n == e@.len(),
            pairs_view(e@) == l@,
            i <= n,
            out@.len() == i,
            labels_view(out@) =~= l@.take(i as int),
        decreases n - i,
    {
        let name = e[i].0.clone();
        let value = e[i].1.clone();
        let ghost before = out@;
        out.push(BasicLabel { name, value });
        assert forall|j: int| 0 <= j < i implies #[trigger] labels_view(out@)[j] == labels_view(before)[j] by {
            assert(out@[j] == before[j]);
        }
        assert(labels_view(out@) =~= l@.take(i + 1));
        i = i + 1;
    }
    assert(l@.take(n as int) =~= l@);
    out
}

/// The metric of a sample, if it is a counter's or a gauge's.
fn metric_from(x: &Sample) -> (r: Option<BasicMetric>)
    ensures
        match r {
            Some(m) => metric_of(*x) == Some(m@),
            None => metric_of(*x) is None,
        },
{
    match x.value {
        Value::Counter(v) => Some(BasicMetric::from_counter(basic_labels(&x.labels), BasicCounter(v))),
        Value::Gauge(v) => Some(BasicMetric::from_gauge(basic_labels(&x.labels), BasicGauge(v))),
        _ => None,
    }
}

/// The family type of a value.
fn type_of(v: &Value) -> (r: Option<MetricType>)
    ensures
        r == family_type(*v),
{
    match v {
        Value::Counter(_) => Some(MetricType::Counter),
        Value::Gauge(_) => Some(MetricType::Gauge),
        _ => None,
    }
}

/// The position of the group of `name`.
fn find_group(groups: &Vec<Group>, name: &String) -> (r: Option<usize>)
    ensures
        match r {
            Some(k) => k < groups@.len() && groups@[k as int].name@ == name@,
            None => !group_names(groups@).contains(name@),
        },
{
    let n = groups.len();
    let mut k: usize = 0;
    while k < n
        invariant
            n == groups@.len(),
            k <= n,
            forall|j: int| 0 <= j < k ==> groups@[j].name@ != name@,
        decreases n - k,
    {
        if groups[k].name == *name {
            return Some(k);
        }
        k = k + 1;
    }
    proof {
        if group_names(groups@).contains(name@) {
            let j = choose|j: int| 0 <= j < n && group_names(groups@)[j] == name@;
            assert(groups@[j].name@ == name@);
        }
    }
    None
}

/// The metric families of a scrape: see [`scrape_families`]. The help text
/// of a family is the scrape's for its metric, or the empty text; its metrics
/// are those of the metric's counter and gauge samples, in order.
pub fn scrape2basic(s: Scrape) -> (r: Result<Vec<BasicFamily>, std::io::Error>)
    ensures
        r matches Ok(f) && families_view(f@) == scrape_families(s.docs@, s.samples@),
        r matches Ok(fams) ==> forall|i: int| 0 <= i < fams@.len() ==> {
            let f = #[trigger] fams@[i]@;
            let g = readings_named(s.samples@, f.name);
            &&& f.met.len() == g.len()
            &&& forall|j: int| 0 <= j < g.len() ==> {
                &&& (#[trigger] f.met[j]).labels == g[j].labels@
                &&& match g[j].value {
                    Value::Counter(v) => f.met[j].counter == Some(v) && f.met[j].gauge is None,
                    Value::Gauge(v) => f.met[j].gauge == Some(v) && f.met[j].counter is None,
                    _ => false,
                }
            }
        },
{
    let ghost all = s.samples@;
    let mut groups: Vec<Group> = Vec::new();
    assert(all.take(0) =~= Seq::<Sample>::empty());
    assert(group_names(groups@) =~= distinct_names(all.take(0)));
    for x in it: s.samples
        invariant
            all == it.seq(),
            group_names(groups@) == distinct_names(all.take(it.index() as int)),
            forall|k: int| 0 <= k < groups@.len() ==> group_ok(all.take(it.index() as int), #[trigger] groups@[k]),
    {
        let ghost i = it.index() as int;
        let ghost pre = all.take(i);
        let ghost before = groups@;
        proof {
            assert(all.take(i + 1) =~= pre.push(x));
            lemma_distinct_names(pre, x.metric@);
        }
        let m = metric_from(&x);
        match find_group(&groups, &x.metric) {
            Some(k) => {
                proof {
                    lemma_push_named(pre, x, x.metric@);
                }
                let ghost gk = groups@[k as int];
                match m {
                    Some(m) => {
                        let mut g = groups.remove(k);
                        assert(g == gk);
                        g.met.push(m);
                        assert(metrics_view(g.met@) =~= metrics_view(gk.met@).push(m@));
                        groups.insert(k, g);
                    },
                    None => {},
                }
                assert forall|j: int| 0 <= j < groups@.len() implies group_ok(all.take(i + 1), #[trigger] groups@[j]) by {
                    lemma_push_named(pre, x, groups@[j].name@);
                    if j == k {
                        lemma_push_metrics(samples_named(pre, x.metric@), x);
                        assert(group_ok(pre, gk));
                        assert(groups@[j].name@ == x.metric@);
                        assert(samples_named(all.take(i + 1), x.metric@) == samples_named(pre, x.metric@).push(x));
                        assert(samples_named(all.take(i + 1), x.metric@).len() > 0);
                        assert(groups@[j].ftyp == gk.ftyp);
                        assert(metrics_view(groups@[j].met@) == metrics_of(samples_named(all.take(i + 1), x.metric@)));
                    } else {
                        assert(groups@[j] == before[j]);
                        assert(group_ok(pre, before[j]));
                        assert(groups@[j].name@ != x.metric@) by {
                            lemma_distinct_names(pre, x.metric@);
                            assert(group_names(before)[j] == before[j].name@);
                            assert(group_names(before)[k as int] == before[k as int].name@);
                        }
                    }
                }
                assert(group_names(groups@) =~= group_names(before));
            },
            None => {
                let ftyp = type_of(&x.value);
                let mut met: Vec<BasicMetric> = Vec::new();
                match m {
                    Some(m) => {
                        met.push(m);
                    },
                    None => {},
                }
                proof {
                    lemma_push_named(pre, x, x.metric@);
                    assert(samples_named(pre, x.metric@).len() == 0);
                    assert(samples_named(pre, x.metric@) =~= Seq::<Sample>::empty());
                    lemma_push_metrics(Seq::<Sample>::empty(), x);
                    assert(Seq::<Sample>::empty().push(x) =~= seq![x]);
                    assert(metrics_view(met@) =~= metrics_of(samples_named(all.take(i + 1), x.metric@)));
                }
                groups.push(Group { name: x.metric, ftyp, met });
                assert forall|j: int| 0 <= j < groups@.len() implies group_ok(all.take(i + 1), #[trigger] groups@[j]) by {
                    lemma_push_named(pre, x, groups@[j].name@);
                    if j < before.len() {
                        assert(groups@[j] == before[j]);
                    }
                }
                assert(group_names(groups@) =~= group_names(before).push(x.metric@));
            },
        }
    }
    assert(all.take(all.len() as int) =~= all);
    let ghost names = distinct_names(all);
    let ghost gs = groups@;
    let mut families: Vec<BasicFamily> = Vec::new();
    for g in it: groups
        invariant
            gs == it.seq(),
            group_names(gs) == names,
            names == distinct_names(all),
            forall|k: int| 0 <= k < gs.len() ==> group_ok(all, #[trigger] gs[k]),
            families_view(families@) == families_of(s.docs@, all, names.take(it.index() as int)),
    {
        let ghost k = it.index() as int;
        let ghost before = families@;
        proof {
            assert(names.take(k + 1).drop_last() =~= names.take(k));
            assert(gs[k] == g);
            assert(group_ok(all, gs[k]));
        }
        match g.ftyp {
            Some(t) => {
                let help: String = match s.docs.get(g.name.as_str()) {
                    Some(h) => h.to_owned(),
                    None => String::new(),
                };
                families.push(BasicFamily { ftyp: t, help, met: g.met, name: g.name });
                assert(families_view(families@) =~= families_view(before).push(families@.last()@));
            },
            None => {},
        }
    }
    assert(names.take(names.len() as int) =~= names);
    proof {
        law_family_metrics(s.docs@, all);
        assert forall|i: int| 0 <= i < families@.len() implies #[trigger] families@[i]@ == families_view(families@)[i] by {}
    }
    Ok(families)
}

/// A conversion from a scrape to metric families, such as [`scrape2basic`]:
/// any function of that shape is one.
pub trait ParsedToProto {
    type Error;

    /// Whether `convert` may be called on `parsed`.
    spec fn accepts(&self, parsed: Scrape) -> bool;

    /// Whether `r` is a result that `convert` may give for `parsed`.
    spec fn gives(&self, parsed: Scrape, r: Result<Vec<BasicFamily>, Self::Error>) -> bool;

    fn convert(&self, parsed: Scrape) -> (r: Result<Vec<BasicFamily>, Self::Error>)
        requires
            self.accepts(parsed),
        ensures
            self.gives(parsed, r),
    ;
}

impl<F, E> ParsedToProto for F where F: Fn(Scrape) -> Result<Vec<BasicFamily>, E> {
    type Error = E;

    open spec fn accepts(&self, parsed: Scrape) -> bool {
        call_requires(*self, (parsed,))
    }

    open spec fn gives(&self, parsed: Scrape, r: Result<Vec<BasicFamily>, E>) -> bool {
        call_ensures(*self, (parsed,), r)
    }

    fn convert(&self, parsed: Scrape) -> (r: Result<Vec<BasicFamily>, E>) {
        self(parsed)
    }
}

/// The conversion [`scrape2basic`].
pub struct ScrapeToBasic;

impl ParsedToProto for ScrapeToBasic {
    type Error = std::io::Error;

    open spec fn accepts(&self, parsed: Scrape) -> bool {
        true
    }

    open spec fn gives(&self, parsed: Scrape, r: Result<Vec<BasicFamily>, std::io::Error>) -> bool {
        r matches Ok(f) && families_view(f@) == scrape_families(parsed.docs@, parsed.samples@)
    }

    fn convert(&self, parsed: Scrape) -> (r: Result<Vec<BasicFamily>, std::io::Error>) {
        scrape2basic(parsed)
    }
}

/// A source of scrapes and a sink of metric families.
pub struct InOut<I, O> {
    pub input_scrape: I,
    pub output_proto: O,
}

impl<I, O> InOut<I, O> where
    I: FnMut() -> Result<Scrape, std::io::Error>,
    O: FnMut(&[BasicFamily]) -> Result<(), std::io::Error>,
 {
    /// Reads a scrape, converts it with `conv` and hands the families to the
    /// sink; the first error stops it and is returned.
    pub fn in2out<C>(&mut self, conv: C) -> (r: Result<(), std::io::Error>) where
        C: ParsedToProto<Error = std::io::Error>,
        requires
            call_requires(old(self).input_scrape, ()),
            forall|s: Scrape| conv.accepts(s),
            forall|f: &[BasicFamily]| call_requires(old(self).output_proto, (f,)),
        ensures
            // the scrape was read, converted and written; or one of the three failed,
            // and its error is returned
            r is Ok ==> exists|s: Scrape, v: Vec<BasicFamily>, f: &[BasicFamily]|
                #![trigger conv.gives(s, Ok(v)), call_ensures(old(self).output_proto, (f,), r)]
                call_ensures(old(self).input_scrape, (), Ok::<Scrape, std::io::Error>(s))
                    && conv.gives(s, Ok(v)) && f@ == v@
                    && call_ensures(old(self).output_proto, (f,), r),
            r matches Err(e) ==> {
                ||| call_ensures(old(self).input_scrape, (), Err::<Scrape, std::io::Error>(e))
                ||| exists|s: Scrape|
                    #![trigger conv.gives(s, Err(e))]
                    call_ensures(old(self).input_scrape, (), Ok::<Scrape, std::io::Error>(s))
                        && conv.gives(s, Err(e))
                ||| exists|s: Scrape, v: Vec<BasicFamily>, f: &[BasicFamily]|
                    #![trigger conv.gives(s, Ok(v)), call_ensures(old(self).output_proto, (f,), r)]
                    call_ensures(old(self).input_scrape, (), Ok::<Scrape, std::io::Error>(s))
                        && conv.gives(s, Ok(v)) && f@ == v@
                        && call_ensures(old(self).output_proto, (f,), r)
            },
    {
        let ghost input = self.input_scrape;
        let ghost output = self.output_proto;
        let read = (self.input_scrape)();
        let s: Scrape = match read {
            Ok(s) => s,
            Err(e) => {
                return Err(e);
            },
        };
        let ghost s0 = s;
        let conversion = conv.convert(s);
        assert(conv.gives(s0, conversion));
        let converted: Vec<BasicFamily> = match conversion {
            Ok(v) => v,
            Err(e) => {
                assert(conv.gives(s0, Err(e)));
                return Err(e);
            },
        };
        assert(conv.gives(s0, Ok(converted)));
        let fams: &[BasicFamily] = converted.as_slice();
        let written = (self.output_proto)(fams);
        assert(call_ensures(output, (fams,), written));
        written
    }

    /// [`InOut::in2out`] with the conversion [`scrape2basic`]: the sink is
    /// handed the families of the scrape read.
    pub fn in2out_default(&mut self) -> (r: Result<(), std::io::Error>)
        requires
            call_requires(old(self).input_scrape, ()),
            forall|f: &[BasicFamily]| call_requires(old(self).output_proto, (f,)),
        ensures
            r is Ok ==> exists|s: Scrape, f: &[BasicFamily]|
                #![trigger call_ensures(old(self).input_scrape, (), Ok::<Scrape, std::io::Error>(s)), call_ensures(old(self).output_proto, (f,), r)]
                call_ensures(old(self).input_scrape, (), Ok::<Scrape, std::io::Error>(s))
                    && families_view(f@) == scrape_families(s.docs@, s.samples@)
                    && call_ensures(old(self).output_proto, (f,), r),
            r matches Err(e) ==> {
                ||| call_ensures(old(self).input_scrape, (), Err::<Scrape, std::io::Error>(e))
                ||| exists|s: Scrape, f: &[BasicFamily]|
                    #![trigger call_ensures(old(self).input_scrape, (), Ok::<Scrape, std::io::Error>(s)), call_ensures(old(self).output_proto, (f,), r)]
                    call_ensures(old(self).input_scrape, (), Ok::<Scrape, std::io::Error>(s))
                        && families_view(f@) == scrape_families(s.docs@, s.samples@)
                        && call_ensures(old(self).output_proto, (f,), r)
            },
    {
        self.in2out(ScrapeToBasic)
    }
}

pub proof fn lemma_metrics_len(g: Seq<Sample>)
    ensures
        metrics_of(g).len() <= g.len(),
        (forall|i: int| 0 <= i < g.len() ==> (#[trigger] family_type(g[i].value)) is Some) ==> metrics_of(g).len()
            == g.len(),
    decreases g.len(),
{
    if g.len() > 0 {
        lemma_metrics_len(g.drop_last());
        if forall|i: int| 0 <= i < g.len() ==> (#[trigger] family_type(g[i].value)) is Some {
            assert forall|i: int| 0 <= i < g.drop_last().len() implies (#[trigger] family_type(g.drop_last()[i].value)) is Some by {
                assert(g.drop_last()[i] == g[i]);
            }
            assert(family_type(g[g.len() - 1].value) is Some);
        }
    }
}

pub proof fn lemma_families_of(docs: Entries, s: Seq<Sample>, names: Seq<Seq<char>>)
    ensures
        families_of(docs, s, names).len() <= names.len(),
        forall|i: int| 0 <= i < families_of(docs, s, names).len() ==> {
            &&& names.contains(#[trigger] families_of(docs, s, names)[i].name)
            &&& family_of(docs, s, families_of(docs, s, names)[i].name) == Some(families_of(docs, s, names)[i])
        },
        names.no_duplicates() ==> forall|i: int, j: int|
            0 <= i < families_of(docs, s, names).len() && 0 <= j < families_of(docs, s, names).len() && i != j
                ==> families_of(docs, s, names)[i].name != families_of(docs, s, names)[j].name,
        (forall|j: int| 0 <= j < names.len() ==> (#[trigger] family_of(docs, s, names[j])) is Some)
            ==> families_of(docs, s, names).len() == names.len(),
    decreases names.len(),
{
    if names.len() > 0 {
        let d = names.drop_last();
        lemma_families_of(docs, s, d);
        let p = families_of(docs, s, d);
        let f = families_of(docs, s, names);
        assert forall|i: int| 0 <= i < p.len() implies names.contains(#[trigger] p[i].name) by {
            let j = choose|j: int| 0 <= j < d.len() && d[j] == p[i].name;
            assert(names[j] == p[i].name);
        }
        assert(names[names.len() - 1] == names.last());
        if names.no_duplicates() {
            assert(d.no_duplicates());
            assert(!d.contains(names.last())) by {
                if d.contains(names.last()) {
                    let j = choose|j: int| 0 <= j < d.len() && d[j] == names.last();
                    assert(names[j] == names[names.len() - 1]);
                }
            }
        }
        if forall|j: int| 0 <= j < names.len() ==> (#[trigger] family_of(docs, s, names[j])) is Some {
            assert forall|j: int| 0 <= j < d.len() implies (#[trigger] family_of(docs, s, d[j])) is Some by {
                assert(d[j] == names[j]);
            }
            assert(family_of(docs, s, names[names.len() - 1]) is Some);
        }
    }
}

/// The families of a scrape: no two share a name; each is a metric's of the
/// scrape, with a counter's or a gauge's type, the metric's help text, and at
/// most one metric for each of the metric's samples.
pub proof fn law_families(docs: Entries, s: Seq<Sample>)
    ensures
        scrape_families(docs, s).len() <= distinct_names(s).len(),
        forall|i: int, j: int|
            0 <= i < scrape_families(docs, s).len() && 0 <= j < scrape_families(docs, s).len() && i != j
                ==> scrape_families(docs, s)[i].name != scrape_families(docs, s)[j].name,
        forall|i: int| 0 <= i < scrape_families(docs, s).len() ==> {
            let f = #[trigger] scrape_families(docs, s)[i];
            &&& samples_named(s, f.name).len() > 0
            &&& (f.ftyp == MetricType::Counter || f.ftyp == MetricType::Gauge)
            &&& f.help == help_of(docs, f.name)
            &&& f.met.len() <= samples_named(s, f.name).len()
        },
{
    let names = distinct_names(s);
    let fs = scrape_families(docs, s);
    lemma_distinct_names(s, Seq::empty());
    lemma_families_of(docs, s, names);
    assert forall|i: int| 0 <= i < fs.len() implies {
        let f = #[trigger] fs[i];
        &&& samples_named(s, f.name).len() > 0
        &&& (f.ftyp == MetricType::Counter || f.ftyp == MetricType::Gauge)
        &&& f.help == help_of(docs, f.name)
        &&& f.met.len() <= samples_named(s, f.name).len()
    } by {
        let f = fs[i];
        lemma_distinct_names(s, f.name);
        lemma_metrics_len(samples_named(s, f.name));
    }
}

/// Where every sample is a counter's or a gauge's, each metric of the scrape
/// has a family, with one metric for each of its samples.
pub proof fn law_families_all_typed(docs: Entries, s: Seq<Sample>)
    requires
        forall|i: int| 0 <= i < s.len() ==> (#[trigger] family_type(s[i].value)) is Some,
    ensures
        scrape_families(docs, s).len() == distinct_names(s).len(),
        forall|i: int| 0 <= i < scrape_families(docs, s).len() ==> {
            let f = #[trigger] scrape_families(docs, s)[i];
            f.met.len() == samples_named(s, f.name).len()
        },
{
    let names = distinct_names(s);
    let fs = scrape_families(docs, s);
    assert forall|j: int| 0 <= j < names.len() implies (#[trigger] family_of(docs, s, names[j])) is Some by {
        lemma_distinct_names(s, names[j]);
        lemma_named_in(s, names[j]);
        assert(names.contains(names[j]));
        let g = samples_named(s, names[j]);
        assert(s.contains(g[0]));
        let q = choose|q: int| 0 <= q < s.len() && s[q] == g[0];
        assert(family_type(s[q].value) is Some);
    }
    lemma_families_of(docs, s, names);
    assert forall|i: int| 0 <= i < fs.len() implies {
        let f = #[trigger] fs[i];
        f.met.len() == samples_named(s, f.name).len()
    } by {
        let g = samples_named(s, fs[i].name);
        lemma_named_in(s, fs[i].name);
        assert forall|q: int| 0 <= q < g.len() implies (#[trigger] family_type(g[q].value)) is Some by {
            assert(s.contains(g[q]));
            let w = choose|w: int| 0 <= w < s.len() && s[w] == g[q];
            assert(family_type(s[w].value) is Some);
        }
        lemma_metrics_len(g);
    }
}

/// The samples of a metric are samples of the scrape.
pub proof fn lemma_named_in(s: Seq<Sample>, n: Seq<char>)
    ensures
        forall|i: int| 0 <= i < samples_named(s, n).len() ==> s.contains(#[trigger] samples_named(s, n)[i]),
    decreases s.len(),
{
    if s.len() > 0 {
        lemma_named_in(s.drop_last(), n);
        let p = samples_named(s.drop_last(), n);
        assert forall|i: int| 0 <= i < samples_named(s, n).len() implies s.contains(#[trigger] samples_named(s, n)[i]) by {
            if i < p.len() {
                assert(samples_named(s, n)[i] == p[i]);
                assert(s.drop_last().contains(p[i]));
                let j = choose|j: int| 0 <= j < s.drop_last().len() && s.drop_last()[j] == p[i];
                assert(s[j] == p[i]);
            } else {
                assert(samples_named(s, n)[i] == s[s.len() - 1]);
            }
        }
    }
}

/// After a merge ([`crate::merge::scrape_merge`]), the help text of a family
/// is the state's for its metric where the state has one, else the next
/// scrape's, else the empty text.
pub proof fn law_merged_family_help(next_docs: Entries, state_docs: Entries, s: Seq<Sample>)
    requires
        keys_unique(next_docs),
    ensures
        forall|i: int| 0 <= i < scrape_families(extend_entries(next_docs, state_docs), s).len() ==> {
            let f = #[trigger] scrape_families(extend_entries(next_docs, state_docs), s)[i];
            f.help == match lookup(state_docs, f.name) {
                Some(h) => h,
                None => help_of(next_docs, f.name),
            }
        },
{
    let docs = extend_entries(next_docs, state_docs);
    law_families(docs, s);
    assert forall|i: int| 0 <= i < scrape_families(docs, s).len() implies {
        let f = #[trigger] scrape_families(docs, s)[i];
        f.help == match lookup(state_docs, f.name) {
            Some(h) => h,
            None => help_of(next_docs, f.name),
        }
    } by {
        crate::merge::law_merge_help(next_docs, state_docs, scrape_families(docs, s)[i].name);
    }
}

/// Reads a scrape from `state`, then one from `next`, and merges the two with
/// `merge`; the first error stops it and is returned.
pub fn read_and_merge<S, N, M>(state: &mut S, next: &mut N, merge: &M) -> (r: Result<Scrape, std::io::Error>) where
    S: FnMut() -> Result<Scrape, std::io::Error>,
    N: FnMut() -> Result<Scrape, std::io::Error>,
    M: Fn(Scrape, Scrape) -> Scrape,
    requires
        call_requires(*old(state), ()),
        call_requires(*old(next), ()),
        forall|s: Scrape, n: Scrape| call_requires(*merge, (s, n)),
    ensures
        r matches Ok(m) ==> exists|s: Scrape, n: Scrape|
            #![trigger call_ensures(*old(state), (), Ok::<Scrape, std::io::Error>(s)), call_ensures(*old(next), (), Ok::<Scrape, std::io::Error>(n))]
            call_ensures(*old(state), (), Ok::<Scrape, std::io::Error>(s))
                && call_ensures(*old(next), (), Ok::<Scrape, std::io::Error>(n))
                && call_ensures(*merge, (s, n), m),
        r matches Err(e) ==> {
            ||| call_ensures(*old(state), (), Err::<Scrape, std::io::Error>(e))
            ||| exists|s: Scrape|
                #![trigger call_ensures(*old(state), (), Ok::<Scrape, std::io::Error>(s))]
                call_ensures(*old(state), (), Ok::<Scrape, std::io::Error>(s))
                    && call_ensures(*old(next), (), Err::<Scrape, std::io::Error>(e))
        },
{
    let ghost st = *state;
    let ghost nx = *next;
    assert(st == *old(state) && nx == *old(next));
    let sr = (*state)();
    let s: Scrape = match sr {
        Ok(s) => s,
        Err(e) => {
            return Err(e);
        },
    };
    let ghost s0 = s;
    assert(call_ensures(st, (), Ok::<Scrape, std::io::Error>(s0)));
    let nr = (*next)();
    let n: Scrape = match nr {
        Ok(n) => n,
        Err(e) => {
            assert(call_ensures(nx, (), Err::<Scrape, std::io::Error>(e)));
            return Err(e);
        },
    };
    let ghost n0 = n;
    assert(call_ensures(nx, (), Ok::<Scrape, std::io::Error>(n0)));
    let merged: Scrape = merge(s, n);
    assert(call_ensures(*merge, (s0, n0), merged));
    assert(call_ensures(*old(state), (), Ok::<Scrape, std::io::Error>(s0)));
    assert(call_ensures(*old(next), (), Ok::<Scrape, std::io::Error>(n0)));
    Ok(merged)
}

/// The samples of the metric `name` that hold a reading, a counter's or a
/// gauge's, in order.
pub open spec fn readings_named(s: Seq<Sample>, name: Seq<char>) -> Seq<Sample>
    decreases s.len(),
{
    if s.len() == 0 {
        Seq::empty()
    } else {
        let p = readings_named(s.drop_last(), name);
        let x = s.last();
        if x.metric@ == name && (x.value is Counter || x.value is Gauge) {
            p.push(x)
        } else {
            p
        }
    }
}

pub proof fn lemma_metrics_readings(s: Seq<Sample>, n: Seq<char>)
    ensures
        metrics_of(samples_named(s, n)).len() == readings_named(s, n).len(),
        forall|j: int| 0 <= j < readings_named(s, n).len() ==> {
            let m = #[trigger] metrics_of(samples_named(s, n))[j];
            let x = readings_named(s, n)[j];
            &&& m.labels == x.labels@
            &&& match x.value {
                Value::Counter(v) => m.counter == Some(v) && m.gauge is None,
                Value::Gauge(v) => m.gauge == Some(v) && m.counter is None,
                _ => false,
            }
        },
    decreases s.len(),
{
    if s.len() > 0 {
        let d = s.drop_last();
        let x = s.last();
        lemma_metrics_readings(d, n);
        assert(d.push(x) =~= s);
        lemma_push_named(d, x, n);
        lemma_push_metrics(samples_named(d, n), x);
        let g = samples_named(d, n);
        let mm = metrics_of(samples_named(s, n));
        let rr = readings_named(s, n);
        assert forall|j: int| 0 <= j < rr.len() implies {
            let m = #[trigger] mm[j];
            let y = rr[j];
            &&& m.labels == y.labels@
            &&& match y.value {
                Value::Counter(v) => m.counter == Some(v) && m.gauge is None,
                Value::Gauge(v) => m.gauge == Some(v) && m.counter is None,
                _ => false,
            }
        } by {
            if j < readings_named(d, n).len() {
                assert(rr[j] == readings_named(d, n)[j]);
                assert(mm[j] == metrics_of(g)[j]);
            }
        }
    }
}

/// Each family's metrics are, one for one and in order, the samples of its
/// metric that hold a counter's or a gauge's reading: each metric has all of
/// its sample's labels, in their order, and its sample's reading.
pub proof fn law_family_metrics(docs: Entries, s: Seq<Sample>)
    ensures
        forall|i: int| 0 <= i < scrape_families(docs, s).len() ==> {
            let f = #[trigger] scrape_families(docs, s)[i];
            let g = readings_named(s, f.name);
            &&& f.met.len() == g.len()
            &&& forall|j: int| 0 <= j < g.len() ==> {
                &&& (#[trigger] f.met[j]).labels == g[j].labels@
                &&& match g[j].value {
                    Value::Counter(v) => f.met[j].counter == Some(v) && f.met[j].gauge is None,
                    Value::Gauge(v) => f.met[j].gauge == Some(v) && f.met[j].counter is None,
                    _ => false,
                }
            }
        },
{
    let names = distinct_names(s);
    let fs = scrape_families(docs, s);
    lemma_families_of(docs, s, names);
    assert forall|i: int| 0 <= i < fs.len() implies {
        let f = #[trigger] fs[i];
        let g = readings_named(s, f.name);
        &&& f.met.len() == g.len()
        &&& forall|j: int| 0 <= j < g.len() ==> {
            &&& (#[trigger] f.met[j]).labels == g[j].labels@
            &&& match g[j].value {
                Value::Counter(v) => f.met[j].counter == Some(v) && f.met[j].gauge is None,
                Value::Gauge(v) => f.met[j].gauge == Some(v) && f.met[j].counter is None,
                _ => false,
            }
        }
    } by {
        let f = fs[i];
        lemma_metrics_readings(s, f.name);
        assert(f.met == metrics_of(samples_named(s, f.name)));
    }
}

} // verus!
