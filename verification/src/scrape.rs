//! What a scrape of the Prometheus text format holds: help texts, and samples
//! of named metrics with labels. A floating-point number is held by its
//! IEEE-754 bit pattern (`f64::to_bits`), which is all the logic here reads
//! of it.
use vstd::prelude::*;

use crate::strmap::StrMap;

verus! {

/// The labels of a sample: label names and their values.
pub type Labels = StrMap;

/// One bucket of a histogram: how many observations were at most `less_than`.
#[derive(Clone, Copy, Debug, PartialEq, Eq, Structural)]
pub struct HistogramCount {
    /// The bucket's upper bound, as the bit pattern of an `f64`.
    pub less_than: u64,
    /// The number of observations, as the bit pattern of an `f64`.
    pub count: u64,
}

/// One quantile of a summary.
#[derive(Clone, Copy, Debug, PartialEq, Eq, Structural)]
pub struct SummaryCount {
    /// The quantile, as the bit pattern of an `f64`.
    pub quantile: u64,
    /// The value at the quantile, as the bit pattern of an `f64`.
    pub count: u64,
}

/// The value of a sample, by the type that the scrape declared for its metric.
#[derive(Debug)]
pub enum Value {
    Counter(u64),
    Gauge(u64),
    Histogram(Vec<HistogramCount>),
    Summary(Vec<SummaryCount>),
    Untyped(u64),
}

/// What a [`Value`] holds.
pub enum ValueView {
    Counter(u64),
    Gauge(u64),
    Histogram(Seq<HistogramCount>),
    Summary(Seq<SummaryCount>),
    Untyped(u64),
}

impl View for Value {
    type V = ValueView;

    open spec fn view(&self) -> ValueView {
        match self {
            Value::Counter(c) => ValueView::Counter(*c),
            Value::Gauge(g) => ValueView::Gauge(*g),
            Value::Histogram(h) => ValueView::Histogram(h@),
            Value::Summary(q) => ValueView::Summary(q@),
            Value::Untyped(u) => ValueView::Untyped(*u),
        }
    }
}

/// A point in time: whole seconds since the Unix epoch and the nanoseconds
/// past them.
#[derive(Clone, Copy, Debug, PartialEq, Eq, Structural)]
pub struct Timestamp {
    pub secs: i64,
    pub nanos: u32,
}

/// One sample of a metric.
#[derive(Debug)]
pub struct Sample {
    pub metric: String,
    pub value: Value,
    pub labels: Labels,
    pub timestamp: Timestamp,
}

/// A scrape: the help texts by metric name, and the samples.
#[derive(Debug)]
pub struct Scrape {
    pub docs: StrMap,
    pub samples: Vec<Sample>,
}

} // verus!
