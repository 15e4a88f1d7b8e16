//! Metric families of counters and gauges, as they go to the Prometheus text
//! encoder.
use vstd::prelude::*;

use crate::strmap::Entries;

verus! {

/// The type of a metric family.
#[derive(Clone, Copy, Debug, PartialEq, Eq, Structural)]
pub enum MetricType {
    Counter,
    Gauge,
    Summary,
    Untyped,
    Histogram,
}

/// A label of a metric: its name and its value.
#[derive(Debug)]
pub struct BasicLabel {
    pub name: String,
    pub value: String,
}

impl View for BasicLabel {
    type V = (Seq<char>, Seq<char>);

    open spec fn view(&self) -> (Seq<char>, Seq<char>) {
        (self.name@, self.value@)
    }
}

/// The labels of a list of [`BasicLabel`]s, in order.
pub open spec fn labels_view(l: Seq<BasicLabel>) -> Entries {
    l.map_values(|b: BasicLabel| b@)
}

/// The reading of a gauge, as the bit pattern of an `f64`.
#[derive(Clone, Copy, Debug, PartialEq, Eq, Structural)]
pub struct BasicGauge(pub u64);

/// The reading of a counter, as the bit pattern of an `f64`.
#[derive(Clone, Copy, Debug, PartialEq, Eq, Structural)]
pub struct BasicCounter(pub u64);

/// What a [`BasicMetric`] holds.
pub struct BasicMetricView {
    pub labels: Entries,
    pub gauge: Option<u64>,
    pub counter: Option<u64>,
}

/// One metric of a family: its labels and its reading, a gauge's or a
/// counter's.
#[derive(Debug)]
pub struct BasicMetric {
    labels: Vec<BasicLabel>,
    gauge: Option<BasicGauge>,
    counter: Option<BasicCounter>,
}

impl View for BasicMetric {
    type V = BasicMetricView;

    closed spec fn view(&self) -> BasicMetricView {
        BasicMetricView {
            labels: labels_view(self.labels@),
            gauge: match self.gauge {
                Some(g) => Some(g.0),
                None => None,
            },
            counter: match self.counter {
                Some(c) => Some(c.0),
                None => None,
            },
        }
    }
}

impl BasicMetric {
    /// A counter's metric.
    pub fn from_counter(labels: Vec<BasicLabel>, c: BasicCounter) -> (r: Self)
        ensures
            r@ == (BasicMetricView { labels: labels_view(labels@), gauge: None, counter: Some(c.0) }),
    {
        Self { labels, gauge: None, counter: Some(c) }
    }

    /// A gauge's metric.
    pub fn from_gauge(labels: Vec<BasicLabel>, g: BasicGauge) -> (r: Self)
        ensures
            r@ == (BasicMetricView { labels: labels_view(labels@), gauge: Some(g.0), counter: None }),
    {
        Self { labels, gauge: Some(g), counter: None }
    }

    /// The labels.
    pub fn labels(&self) -> (r: &[BasicLabel])
        ensures
            labels_view(r@) == self@.labels,
    {
        self.labels.as_slice()
    }

    /// The gauge's reading, if this is a gauge's metric.
    pub fn gauge(&self) -> (r: Option<BasicGauge>)
        ensures
            r matches Some(g) ==> self@.gauge == Some(g.0),
            r is None ==> self@.gauge is None,
    {
        self.gauge
    }

    /// The counter's reading, if this is a counter's metric.
    pub fn counter(&self) -> (r: Option<BasicCounter>)
        ensures
            r matches Some(c) ==> self@.counter == Some(c.0),
            r is None ==> self@.counter is None,
    {
        self.counter
    }

    /// The labels and the readings, taken apart.
    pub fn into_parts(self) -> (r: (Vec<BasicLabel>, Option<BasicGauge>, Option<BasicCounter>))
        ensures
            labels_view(r.0@) == self@.labels,
            r.1 matches Some(g) ==> self@.gauge == Some(g.0),
            r.1 is None ==> self@.gauge is None,
            r.2 matches Some(c) ==> self@.counter == Some(c.0),
            r.2 is None ==> self@.counter is None,
    {
        (self.labels, self.gauge, self.counter)
    }
}

/// The metrics of a list of [`BasicMetric`]s, in order.
pub open spec fn metrics_view(m: Seq<BasicMetric>) -> Seq<BasicMetricView> {
    m.map_values(|b: BasicMetric| b@)
}

/// What a [`BasicFamily`] holds.
pub struct BasicFamilyView {
    pub ftyp: MetricType,
    pub help: Seq<char>,
    pub met: Seq<BasicMetricView>,
    pub name: Seq<char>,
}

/// A metric family: its name, type, help text and metrics.
#[derive(Debug)]
pub struct BasicFamily {
    pub ftyp: MetricType,
    pub help: String,
    pub met: Vec<BasicMetric>,
    pub name: String,
}

impl View for BasicFamily {
    type V = BasicFamilyView;

    open spec fn view(&self) -> BasicFamilyView {
        BasicFamilyView {
            ftyp: self.ftyp,
            help: self.help@,
            met: metrics_view(self.met@),
            name: self.name@,
        }
    }
}

/// The families of a list of [`BasicFamily`]s, in order.
pub open spec fn families_view(f: Seq<BasicFamily>) -> Seq<BasicFamilyView> {
    f.map_values(|b: BasicFamily| b@)
}

} // verus!
