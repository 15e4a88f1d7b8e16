use rs_pmtxt2merged::merge::{
    counter_merge, gauge_merge, labels2tree, sample2key, sample_merge, samples2hash, scrape_merge,
    value_merge,
};
use rs_pmtxt2merged::scrape::{HistogramCount, Labels, Sample, Scrape, Timestamp, Value};
use rs_pmtxt2merged::strmap::StrMap;

fn add(a: u64, b: u64) -> u64 {
    (f64::from_bits(a) + f64::from_bits(b)).to_bits()
}

fn bits(v: f64) -> u64 {
    v.to_bits()
}

fn labels(pairs: &[(&str, &str)]) -> Labels {
    let mut l = StrMap::new();
    for (k, v) in pairs {
        l.insert(k.to_string(), v.to_string());
    }
    l
}

fn sample(metric: &str, value: Value, pairs: &[(&str, &str)], secs: i64) -> Sample {
    Sample {
        metric: metric.to_string(),
        value,
        labels: labels(pairs),
        timestamp: Timestamp { secs, nanos: 0 },
    }
}

fn counter_of(v: &Value) -> f64 {
    match v {
        Value::Counter(b) => f64::from_bits(*b),
        _ => panic!("not a counter"),
    }
}

fn gauge_of(v: &Value) -> f64 {
    match v {
        Value::Gauge(b) => f64::from_bits(*b),
        _ => panic!("not a gauge"),
    }
}

fn find<'a>(s: &'a Scrape, metric: &str, label: (&str, &str)) -> &'a Sample {
    let found: Vec<&Sample> = s
        .samples
        .iter()
        .filter(|x| x.metric == metric && x.labels.get(label.0) == Some(label.1))
        .collect();
    assert_eq!(1, found.len());
    found[0]
}

#[test]
fn gauge_takes_next_reading() {
    let v = gauge_merge(bits(3.0), bits(5.5));
    assert_eq!(5.5, gauge_of(&v));
}

#[test]
fn counter_adds_readings() {
    let v = counter_merge(bits(28.0), bits(14.5), &add);
    assert_eq!(42.5, counter_of(&v));
}

#[test]
fn value_merge_by_type() {
    assert_eq!(3.0, counter_of(&value_merge(Value::Counter(bits(1.0)), Value::Counter(bits(2.0)), &add)));
    assert_eq!(2.0, gauge_of(&value_merge(Value::Gauge(bits(1.0)), Value::Gauge(bits(2.0)), &add)));
    // a counter met by a gauge: the next value stays
    assert_eq!(2.0, gauge_of(&value_merge(Value::Counter(bits(1.0)), Value::Gauge(bits(2.0)), &add)));
    assert_eq!(2.0, counter_of(&value_merge(Value::Gauge(bits(1.0)), Value::Counter(bits(2.0)), &add)));
    match value_merge(Value::Untyped(bits(1.0)), Value::Untyped(bits(7.0)), &add) {
        Value::Untyped(b) => assert_eq!(7.0, f64::from_bits(b)),
        _ => panic!("not untyped"),
    }
    let h = vec![HistogramCount { less_than: bits(1.0), count: bits(4.0) }];
    match value_merge(Value::Histogram(vec![]), Value::Histogram(h.clone()), &add) {
        Value::Histogram(v) => assert_eq!(h, v),
        _ => panic!("not a histogram"),
    }
}

#[test]
fn sample_merge_keeps_next_fields() {
    let st = sample("m", Value::Counter(bits(10.0)), &[("a", "1")], 100);
    let nx = sample("m", Value::Counter(bits(5.0)), &[("a", "1")], 200);
    let r = sample_merge(st, nx, &add);
    assert_eq!("m", r.metric);
    assert_eq!(15.0, counter_of(&r.value));
    assert_eq!(Some("1"), r.labels.get("a"));
    assert_eq!(Timestamp { secs: 200, nanos: 0 }, r.timestamp);
}

#[test]
fn labels2tree_orders_by_name() {
    let t = labels2tree(labels(&[("mode", "iowait"), ("cpu", "0"), ("b", "x")]));
    let names: Vec<&str> = t.entries().iter().map(|(k, _)| k.as_str()).collect();
    assert_eq!(vec!["b", "cpu", "mode"], names);
    let values: Vec<&str> = t.entries().iter().map(|(_, v)| v.as_str()).collect();
    assert_eq!(vec!["x", "0", "iowait"], values);
}

#[test]
fn keys_ignore_label_order() {
    let a = sample("m", Value::Gauge(bits(1.0)), &[("x", "1"), ("y", "2")], 0);
    let b = sample("m", Value::Gauge(bits(2.0)), &[("y", "2"), ("x", "1")], 0);
    let c = sample("m", Value::Gauge(bits(2.0)), &[("y", "2"), ("x", "3")], 0);
    let d = sample("n", Value::Gauge(bits(2.0)), &[("y", "2"), ("x", "1")], 0);
    let e = sample("m", Value::Gauge(bits(2.0)), &[("x", "1")], 0);
    assert!(sample2key(&a).same(&sample2key(&b)));
    assert!(!sample2key(&a).same(&sample2key(&c)));
    assert!(!sample2key(&a).same(&sample2key(&d)));
    assert!(!sample2key(&a).same(&sample2key(&e)));
    assert!(!sample2key(&e).same(&sample2key(&a)));
    assert!(sample2key(&a) == sample2key(&b));
    assert!(sample2key(&a) != sample2key(&c));
    assert!(sample2key(&a).1 == sample2key(&d).1);
}

#[test]
fn samples2hash_keeps_last_of_a_key() {
    let t = samples2hash(vec![
        sample("m", Value::Gauge(bits(1.0)), &[("k", "a")], 0),
        sample("m", Value::Gauge(bits(2.0)), &[("k", "b")], 0),
        sample("m", Value::Gauge(bits(3.0)), &[("k", "a")], 0),
    ]);
    assert_eq!(2, t.len());
    let e = t.into_entries();
    assert_eq!(Some("a"), e[0].1.labels.get("k"));
    assert_eq!(3.0, gauge_of(&e[0].1.value));
    assert_eq!(Some("b"), e[1].1.labels.get("k"));
    assert_eq!(2.0, gauge_of(&e[1].1.value));
}

#[test]
fn scrape_merge_merges_by_key() {
    let mut sdocs = StrMap::new();
    sdocs.insert("c".to_string(), "state help".to_string());
    sdocs.insert("only_state".to_string(), "s".to_string());
    let mut ndocs = StrMap::new();
    ndocs.insert("c".to_string(), "next help".to_string());
    ndocs.insert("g".to_string(), "gauge help".to_string());
    let state = Scrape {
        docs: sdocs,
        samples: vec![
            sample("c", Value::Counter(bits(28.0)), &[("device", "nvme0n1")], 1),
            sample("g", Value::Gauge(bits(1500.0)), &[("device", "lo")], 1),
            sample("old", Value::Counter(bits(7.0)), &[], 1),
        ],
    };
    let next = Scrape {
        docs: ndocs,
        samples: vec![
            sample("c", Value::Counter(bits(38.0)), &[("device", "nvme0n1")], 2),
            sample("g", Value::Gauge(bits(65536.0)), &[("device", "lo")], 2),
            sample("c", Value::Counter(bits(5.0)), &[("device", "nvme1n1")], 2),
        ],
    };
    let r = scrape_merge(state, next, &add);
    assert_eq!(4, r.samples.len());
    assert_eq!(66.0, counter_of(&find(&r, "c", ("device", "nvme0n1")).value));
    assert_eq!(5.0, counter_of(&find(&r, "c", ("device", "nvme1n1")).value));
    assert_eq!(65536.0, gauge_of(&find(&r, "g", ("device", "lo")).value));
    assert_eq!(Timestamp { secs: 2, nanos: 0 }, find(&r, "g", ("device", "lo")).timestamp);
    // the state's sample without a partner stays as it was, after the others
    assert_eq!("old", r.samples[3].metric);
    assert_eq!(7.0, counter_of(&r.samples[3].value));
    // help texts: the state's wins
    assert_eq!(Some("state help"), r.docs.get("c"));
    assert_eq!(Some("gauge help"), r.docs.get("g"));
    assert_eq!(Some("s"), r.docs.get("only_state"));
    assert_eq!(3, r.docs.len());
}

#[test]
fn scrape_merge_with_empty_state_gives_next() {
    let state = Scrape { docs: StrMap::new(), samples: vec![] };
    let mut ndocs = StrMap::new();
    ndocs.insert("c".to_string(), "help".to_string());
    let next = Scrape {
        docs: ndocs,
        samples: vec![
            sample("c", Value::Counter(bits(1.0)), &[("a", "1")], 2),
            sample("c", Value::Counter(bits(2.0)), &[("a", "2")], 2),
        ],
    };
    let r = scrape_merge(state, next, &add);
    assert_eq!(2, r.samples.len());
    assert_eq!(1.0, counter_of(&r.samples[0].value));
    assert_eq!(2.0, counter_of(&r.samples[1].value));
    assert_eq!(Some("help"), r.docs.get("c"));
}

#[test]
fn scrape_merge_with_empty_next_gives_state() {
    let state = Scrape {
        docs: StrMap::new(),
        samples: vec![sample("g", Value::Gauge(bits(4.0)), &[], 2)],
    };
    let next = Scrape { docs: StrMap::new(), samples: vec![] };
    let r = scrape_merge(state, next, &add);
    assert_eq!(1, r.samples.len());
    assert_eq!(4.0, gauge_of(&r.samples[0].value));
    assert!(r.docs.is_empty());
}
