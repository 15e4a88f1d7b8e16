use rs_pmtxt2merged::ser::{BasicCounter, BasicGauge, BasicLabel, BasicMetric};

#[test]
fn basic_metric_constructors() {
    let c = BasicMetric::from_counter(
        vec![BasicLabel { name: "cpu".into(), value: "0".into() }],
        BasicCounter(28446.13f64.to_bits()),
    );
    assert_eq!(Some(BasicCounter(28446.13f64.to_bits())), c.counter());
    assert_eq!(None, c.gauge());
    assert_eq!("cpu", c.labels()[0].name);
    let g = BasicMetric::from_gauge(vec![], BasicGauge(65536.0f64.to_bits()));
    assert_eq!(Some(BasicGauge(65536.0f64.to_bits())), g.gauge());
    assert_eq!(None, g.counter());
    let (labels, gauge, counter) = g.into_parts();
    assert!(labels.is_empty());
    assert_eq!(Some(BasicGauge(65536.0f64.to_bits())), gauge);
    assert_eq!(None, counter);
}
