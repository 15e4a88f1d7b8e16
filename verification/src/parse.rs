//! Parsing the Prometheus text format, and read access to a parsed scrape
//! and to its parts.
use vstd::prelude::*;
use vstd::multiset::Multiset;

use crate::merge::label_map;
use crate::scrape::{HistogramCount, Labels, Sample, Scrape, SummaryCount, Timestamp, Value, ValueView};
use crate::strmap::{extend_entries, keys_unique, lookup, pairs_view, Entries, StrMap};

verus! {

/// A sample as the parser gives it, in plain values.
pub struct ParsedPart {
    pub metric: String,
    /// The label pairs, in the parser's order.
    pub labels: Vec<(String, String)>,
    pub value: Value,
    pub timestamp: Timestamp,
}

/// A scrape as the parser gives it, in plain values.
pub struct ParsedParts {
    /// The help texts by metric name, in the parser's order.
    pub docs: Vec<(String, String)>,
    pub samples: Vec<ParsedPart>,
}

/// The help texts, by metric name, that `prometheus_parse::Scrape::parse`
/// finds in the lines: the text of the last `# HELP` line of each metric.
pub uninterp spec fn parsed_docs(lines: Seq<Seq<char>>) -> Map<Seq<char>, Seq<char>>;

/// What a parsed sample is, leaving out its timestamp: its metric name,
/// its labels as a map, and its value.
pub type SampleView = (Seq<char>, Map<Seq<char>, Seq<char>>, ValueView);

/// The samples that `prometheus_parse::Scrape::parse` finds in the lines,
/// each taken as a [`SampleView`] with the timestamp that its line gives, if
/// its line gives one (for a histogram's or a summary's sample, its first
/// line).
pub uninterp spec fn parsed_samples(lines: Seq<Seq<char>>) -> Multiset<(SampleView, Option<Timestamp>)>;

/// The samples `got`, each a [`SampleView`] with its timestamp, are the
/// samples `found` of the parser, one for one, where a sample whose line
/// gives no timestamp has the time `t` of the parse.
pub open spec fn stamped_as(
    got: Seq<(SampleView, Timestamp)>,
    found: Multiset<(SampleView, Option<Timestamp>)>,
    t: Timestamp,
) -> bool {
    exists|w: Seq<(SampleView, Option<Timestamp>)>|
        #![trigger w.to_multiset()]
        {
            &&& w.to_multiset() == found
            &&& w.len() == got.len()
            &&& forall|i: int|
                0 <= i < w.len() ==> (#[trigger] got[i]).0 == w[i].0 && got[i].1 == match w[i].1 {
                    Some(x) => x,
                    None => t,
                }
        }
}

/// A sample of the parser's plain values with its timestamp.
pub open spec fn stamped_part(q: ParsedPart) -> (SampleView, Timestamp) {
    (part_view(q), q.timestamp)
}

/// A sample of a scrape with its timestamp.
pub open spec fn stamped_sample(x: Sample) -> (SampleView, Timestamp) {
    (sample_view(x), x.timestamp)
}

/// The samples of the parser's plain values with their timestamps.
pub open spec fn stamped_parts(ps: Seq<ParsedPart>) -> Seq<(SampleView, Timestamp)> {
    ps.map_values(|q: ParsedPart| stamped_part(q))
}

/// The samples of a scrape with their timestamps.
pub open spec fn stamped_samples(xs: Seq<Sample>) -> Seq<(SampleView, Timestamp)> {
    xs.map_values(|x: Sample| stamped_sample(x))
}

/// A sample of the parser's plain values, taken as a [`SampleView`].
pub open spec fn part_view(q: ParsedPart) -> SampleView {
    (q.metric@, label_map(pairs_view(q.labels@)), q.value@)
}

/// A sample of a scrape, taken as a [`SampleView`].
pub open spec fn sample_view(x: Sample) -> SampleView {
    (x.metric@, label_map(x.labels@), x.value@)
}

/// The character sequences of a list of lines.
pub open spec fn lines_view(lines: Seq<String>) -> Seq<Seq<char>> {
    lines.map_values(|l: String| l@)
}

/// Calls `prometheus_parse::Scrape::parse` on the lines and hands its result
/// on in plain values: each reading as the bit pattern of its `f64`, each
/// timestamp as seconds and nanoseconds.
///
/// The parser reads a line it does not understand as nothing and so never
/// fails on lines that were read. Its help texts come from the lines alone,
/// in a hash map, so no name occurs twice among them. Its samples come from
/// the lines alone too, but for the timestamp of a sample whose line gives
/// none (no valid millisecond timestamp): all such samples get the one time
/// of the parse. What is left unsaid is that time, and the order of the
/// samples: histogram and summary samples come after the others, in the
/// order of a hash map. Each sample's labels come from a hash map, so no
/// label name occurs twice.
#[verifier::external_body]
pub fn parse_lines(lines: Vec<String>) -> (r: Result<ParsedParts, std::io::Error>)
    ensures
        r is Ok,
        r matches Ok(p) ==> {
            &&& keys_unique(pairs_view(p.docs@))
            &&& label_map(pairs_view(p.docs@)) == parsed_docs(lines_view(lines@))
            &&& forall|i: int| 0 <= i < p.samples@.len() ==> keys_unique(pairs_view(#[trigger] p.samples@[i].labels@))
            &&& exists|t: Timestamp| #[trigger] stamped_as(stamped_parts(p.samples@), parsed_samples(lines_view(lines@)), t)
        },
{
    let p = prometheus_parse::Scrape::parse(lines.into_iter().map(Ok))?;
    Ok(ParsedParts {
        docs: p.docs.into_iter().collect(),
        samples: p.samples.into_iter().map(sample_part).collect(),
    })
}

/// A parser's sample in plain values; nothing is stated of it, as the
/// parser's sample is opaque here.
#[verifier::external_body]
fn sample_part(s: prometheus_parse::Sample) -> ParsedPart {
    ParsedPart {
        metric: s.metric,
        labels: s.labels.iter().map(|(k, v)| (k.clone(), v.clone())).collect(),
        value: value_part(s.value),
        timestamp: Timestamp { secs: s.timestamp.timestamp(), nanos: s.timestamp.timestamp_subsec_nanos() },
    }
}

/// A parser's value in plain values, each reading by its bit pattern.
#[verifier::external_body]
fn value_part(v: prometheus_parse::Value) -> Value {
    match v {
        prometheus_parse::Value::Counter(f) => Value::Counter(f.to_bits()),
        prometheus_parse::Value::Gauge(f) => Value::Gauge(f.to_bits()),
        prometheus_parse::Value::Untyped(f) => Value::Untyped(f.to_bits()),
        prometheus_parse::Value::Histogram(h) => Value::Histogram(
            h.into_iter().map(|c| HistogramCount { less_than: c.less_than.to_bits(), count: c.count.to_bits() }).collect(),
        ),
        prometheus_parse::Value::Summary(q) => Value::Summary(
            q.into_iter().map(|c| SummaryCount { quantile: c.quantile.to_bits(), count: c.count.to_bits() }).collect(),
        ),
    }
}

/// Inserting entries that name no name twice, into an empty map, keeps them
/// as they are.
pub proof fn lemma_extend_unique(t: Entries)
    requires
        keys_unique(t),
    ensures
        extend_entries(Seq::empty(), t) == t,
    decreases t.len(),
{
    if t.len() > 0 {
        let d = t.drop_last();
        assert(keys_unique(d));
        lemma_extend_unique(d);
        crate::strmap::lemma_key_index(d, t.last().0);
        if crate::strmap::key_index(d, t.last().0) >= 0 {
            let j = crate::strmap::key_index(d, t.last().0);
            assert(t[j].0 == t[t.len() - 1].0);
        }
        assert(d.push(t.last()) =~= t);
    }
}

/// A map holding the pairs inserted in order, the later of two with one name
/// staying.
fn map_of_pairs(pairs: Vec<(String, String)>) -> (r: StrMap)
    ensures
        r@ == extend_entries(Seq::empty(), pairs_view(pairs@)),
{
    let mut m = StrMap::new();
    let ghost all = pairs_view(pairs@);
    assert(all.take(0) =~= Seq::<(Seq<char>, Seq<char>)>::empty());
    for pair in it: pairs
        invariant
            all == pairs_view(it.seq()),
            m@ == extend_entries(Seq::empty(), all.take(it.index() as int)),
    {
        let ghost i = it.index() as int;
        assert(all.take(i + 1).drop_last() =~= all.take(i));
        assert(all[i] == (pair.0@, pair.1@));
        let (name, text) = pair;
        m.insert(name, text);
    }
    assert(all.take(all.len() as int) =~= all);
    m
}

/// The scrape that the parser's plain values make: help texts and labels
/// inserted in order (where a name occurs twice, the later text stays), and
/// the samples in order with their metric, value and timestamp.
pub fn parts2scrape(p: ParsedParts) -> (r: Scrape)
    ensures
        r.docs@ == extend_entries(Seq::empty(), pairs_view(p.docs@)),
        r.samples@.len() == p.samples@.len(),
        forall|i: int| 0 <= i < p.samples@.len() ==> {
            let x = #[trigger] r.samples@[i];
            let q = p.samples@[i];
            &&& x.metric == q.metric
            &&& x.value == q.value
            &&& x.timestamp == q.timestamp
            &&& x.labels@ == extend_entries(Seq::empty(), pairs_view(q.labels@))
        },
{
    let docs = map_of_pairs(p.docs);
    let mut samples: Vec<Sample> = Vec::new();
    let ghost parts = p.samples@;
    for q in it: p.samples
        invariant
            parts == it.seq(),
            samples@.len() == it.index(),
            forall|i: int| 0 <= i < it.index() ==> {
                let x = #[trigger] samples@[i];
                let q = parts[i];
                &&& x.metric == q.metric
                &&& x.value == q.value
                &&& x.timestamp == q.timestamp
                &&& x.labels@ == extend_entries(Seq::empty(), pairs_view(q.labels@))
            },
    {
        let ghost i = it.index() as int;
        assert(q == parts[i]);
        let labels = map_of_pairs(q.labels);
        samples.push(Sample { metric: q.metric, value: q.value, labels, timestamp: q.timestamp });
    }
    Scrape { docs, samples }
}

/// Parses the lines of a scrape in the Prometheus text format: the help
/// texts are those that the parser finds in the lines, each name once; the
/// samples are those that the parser finds, each with the timestamp of its
/// line or, where its line gives none, the one time of the parse; each
/// sample's labels name no name twice.
pub fn lines2parsed(lines: Vec<String>) -> (r: Result<Scrape, std::io::Error>)
    ensures
        r is Ok,
        r matches Ok(s) ==> {
            &&& keys_unique(s.docs@)
            &&& label_map(s.docs@) == parsed_docs(lines_view(lines@))
            &&& forall|i: int| 0 <= i < s.samples@.len() ==> keys_unique((#[trigger] s.samples@[i]).labels@)
            &&& exists|t: Timestamp| #[trigger] stamped_as(stamped_samples(s.samples@), parsed_samples(lines_view(lines@)), t)
        },
{
    let ghost lv = lines_view(lines@);
    let p = match parse_lines(lines) {
        Ok(p) => p,
        Err(e) => {
            return Err(e);
        },
    };
    proof {
        lemma_extend_unique(pairs_view(p.docs@));
        assert forall|i: int| 0 <= i < p.samples@.len() implies extend_entries(
            Seq::empty(),
            pairs_view((#[trigger] p.samples@[i]).labels@),
        ) == pairs_view(p.samples@[i].labels@) by {
            lemma_extend_unique(pairs_view(p.samples@[i].labels@));
        }
    }
    let ghost parts = p.samples@;
    let s = parts2scrape(p);
    assert forall|i: int| 0 <= i < s.samples@.len() implies keys_unique((#[trigger] s.samples@[i]).labels@) by {
        assert(s.samples@[i].labels@ == extend_entries(Seq::empty(), pairs_view(parts[i].labels@)));
    }
    assert(stamped_samples(s.samples@) =~= stamped_parts(parts)) by {
        assert forall|i: int| 0 <= i < parts.len() implies #[trigger] stamped_sample(s.samples@[i]) == stamped_part(parts[i]) by {
            assert(s.samples@[i].labels@ == extend_entries(Seq::empty(), pairs_view(parts[i].labels@)));
        }
    }
    Ok(s)
}

/// A parsed scrape.
pub struct ParsedScrape(pub Scrape);

impl ParsedScrape {
    /// The help texts, by metric name.
    pub fn as_docs(&self) -> (r: &StrMap)
        ensures
            *r == self.0.docs,
    {
        &self.0.docs
    }

    /// The samples, in order.
    pub fn as_samples(&self) -> (r: &[Sample])
        ensures
            r@ == self.0.samples@,
    {
        self.0.samples.as_slice()
    }
}

/// A sample of a parsed scrape.
pub struct ParsedSample(pub Sample);

impl ParsedSample {
    /// The metric's name.
    pub fn metric(&self) -> (r: &str)
        ensures
            r@ == self.0.metric@,
    {
        self.0.metric.as_str()
    }

    /// The value.
    pub fn value(&self) -> (r: &Value)
        ensures
            *r == self.0.value,
    {
        &self.0.value
    }

    /// The labels.
    pub fn labels(&self) -> (r: &Labels)
        ensures
            *r == self.0.labels,
    {
        &self.0.labels
    }

    /// When the sample was taken.
    pub fn timestamp(&self) -> (r: Timestamp)
        ensures
            r == self.0.timestamp,
    {
        self.0.timestamp
    }
}

/// The value of a sample.
pub struct ParsedValue(pub Value);

impl ParsedValue {
    /// The reading, if the value is a counter's.
    pub fn as_counter(&self) -> (r: Option<u64>)
        ensures
            r == match self.0 {
                Value::Counter(c) => Some(c),
                _ => None,
            },
    {
        match self.0 {
            Value::Counter(c) => Some(c),
            _ => None,
        }
    }

    /// The reading, if the value is a gauge's.
    pub fn as_gauge(&self) -> (r: Option<u64>)
        ensures
            r == match self.0 {
                Value::Gauge(g) => Some(g),
                _ => None,
            },
    {
        match self.0 {
            Value::Gauge(g) => Some(g),
            _ => None,
        }
    }

    /// The reading, if the value is untyped.
    pub fn as_untyped(&self) -> (r: Option<u64>)
        ensures
            r == match self.0 {
                Value::Untyped(f) => Some(f),
                _ => None,
            },
    {
        match self.0 {
            Value::Untyped(f) => Some(f),
            _ => None,
        }
    }

    /// The buckets, if the value is a histogram's.
    pub fn as_histogram(&self) -> (r: Option<&[HistogramCount]>)
        ensures
            match self.0 {
                Value::Histogram(v) => r matches Some(h) && h@ == v@,
                _ => r is None,
            },
    {
        match self.0 {
            Value::Histogram(ref v) => Some(v.as_slice()),
            _ => None,
        }
    }

    /// The quantiles, if the value is a summary's.
    pub fn as_summary(&self) -> (r: Option<&[SummaryCount]>)
        ensures
            match self.0 {
                Value::Summary(v) => r matches Some(q) && q@ == v@,
                _ => r is None,
            },
    {
        match self.0 {
            Value::Summary(ref v) => Some(v.as_slice()),
            _ => None,
        }
    }
}

/// A bucket of a histogram.
pub struct ParsedHistogram(pub HistogramCount);

impl ParsedHistogram {
    /// The bucket's upper bound.
    pub fn as_less_than(&self) -> (r: u64)
        ensures
            r == self.0.less_than,
    {
        self.0.less_than
    }

    /// The number of observations in the bucket.
    pub fn as_count(&self) -> (r: u64)
        ensures
            r == self.0.count,
    {
        self.0.count
    }
}

/// A quantile of a summary.
pub struct ParsedSummary(pub SummaryCount);

impl ParsedSummary {
    /// The quantile.
    pub fn as_quantile(&self) -> (r: u64)
        ensures
            r == self.0.quantile,
    {
        self.0.quantile
    }

    /// The value at the quantile.
    pub fn as_count(&self) -> (r: u64)
        ensures
            r == self.0.count,
    {
        self.0.count
    }
}

/// The labels of a sample.
pub struct ParsedLabels(pub Labels);

impl ParsedLabels {
    /// The value of the label `name`.
    pub fn get_by_name(&self, name: &str) -> (r: Option<&str>)
        ensures
            match r {
                Some(v) => lookup(self.0@, name@) == Some(v@),
                None => lookup(self.0@, name@) is None,
            },
    {
        self.0.get(name)
    }

    /// The labels as a map.
    pub fn as_hashmap(&self) -> (r: &StrMap)
        ensures
            *r == self.0,
    {
        &self.0
    }
}

} // verus!
