//! The library with the outside crates: text parsed through `lines2parsed`
//! and families encoded by `prometheus`.
use std::collections::HashMap;

use prometheus::proto::{Counter, Gauge, LabelPair, Metric, MetricFamily};
use prometheus::TextEncoder;

use rs_pmtxt2merged::conv::scrape2basic;
use rs_pmtxt2merged::parse::{lines2parsed, parse_lines, parts2scrape, ParsedPart, ParsedParts};
use rs_pmtxt2merged::scrape::{Sample, Scrape, Timestamp, Value};
use rs_pmtxt2merged::ser::{BasicCounter, BasicFamily, BasicGauge, BasicLabel, BasicMetric, MetricType};
use rs_pmtxt2merged::strmap::StrMap;

fn lines_of(text: &str) -> Vec<String> {
    std::io::BufRead::lines(text.as_bytes()).collect::<Result<Vec<String>, _>>().unwrap()
}

#[test]
fn parse_empty() {
    let mtxt: &[u8] = b"";
    let lines: Vec<String> = std::io::BufRead::lines(mtxt).collect::<Result<_, _>>().unwrap();
    let rparsed: Result<Scrape, _> = lines2parsed(lines);

    let parsed: Scrape = rparsed.unwrap();
    let docs: &StrMap = &parsed.docs;
    let samples: &[Sample] = &parsed.samples;

    assert!(docs.is_empty());
    assert!(samples.is_empty());
    assert!(scrape2basic(parsed).unwrap().is_empty());
}

#[test]
fn parse_simple() {
    let mut mtxt: String = "".into();

    mtxt += "# HELP nvme_power_cycles_total SMART metric power_cycles_total";
    mtxt += "\n";

    mtxt += "# TYPE nvme_power_cycles_total counter";
    mtxt += "\n";

    mtxt += r#"nvme_power_cycles_total{device="nvme0n1"} 28"#;
    mtxt += "\n";

    mtxt += r#"nvme_power_cycles_total{device="nvme1n1"} 38"#;
    mtxt += "\n";

    let rparsed: Result<Scrape, _> = lines2parsed(lines_of(&mtxt));

    let parsed: Scrape = rparsed.unwrap();
    let docs: &StrMap = &parsed.docs;
    let samples: &[Sample] = &parsed.samples;

    assert_eq!(2, samples.len());
    assert_eq!(1, docs.len());

    let key0: &str = docs.entries()[0].0.as_str();
    assert_eq!("nvme_power_cycles_total", key0);

    let val0: &str = docs.get(key0).unwrap();
    assert_eq!("SMART metric power_cycles_total", val0);

    let mut dev2sample: HashMap<String, &Sample> = HashMap::default();

    for sample in parsed.samples.iter() {
        let devname: &str = sample.labels.get("device").unwrap();
        dev2sample.insert(devname.into(), sample);
    }

    let nvme0n1: &Sample = dev2sample.remove("nvme0n1").unwrap();
    let nvme1n1: &Sample = dev2sample.remove("nvme1n1").unwrap();

    assert_eq!("nvme_power_cycles_total", nvme0n1.metric);
    assert_eq!("nvme_power_cycles_total", nvme1n1.metric);

    assert!(matches!(nvme0n1.value, Value::Counter(b) if f64::from_bits(b) == 28.0));
    assert_eq!(Some("nvme0n1"), nvme0n1.labels.get("device"));
    assert!(matches!(nvme1n1.value, Value::Counter(b) if f64::from_bits(b) == 38.0));

    let fams = scrape2basic(parsed).unwrap();
    assert_eq!(1, fams.len());
    assert_eq!(MetricType::Counter, fams[0].ftyp);
    assert_eq!("SMART metric power_cycles_total", fams[0].help);
    let readings: Vec<f64> = fams[0].met.iter().map(|m| f64::from_bits(m.counter().unwrap().0)).collect();
    assert_eq!(vec![28.0, 38.0], readings);
}

#[test]
fn parse_kinds_and_timestamps() {
    let text = "# TYPE g gauge\ng{a=\"1\",b=\"2\"} 1.5 1543182234000\nu 7\n# TYPE h histogram\nh_bucket{le=\"0.5\"} 3\nh_bucket{le=\"+Inf\"} 4\n";
    let parsed = lines2parsed(lines_of(text)).unwrap();
    assert_eq!(3, parsed.samples.len());
    let g = &parsed.samples[0];
    assert!(matches!(g.value, Value::Gauge(b) if f64::from_bits(b) == 1.5));
    assert_eq!(Timestamp { secs: 1543182234, nanos: 0 }, g.timestamp);
    assert_eq!(2, g.labels.len());
    assert_eq!(Some("2"), g.labels.get("b"));
    assert!(matches!(parsed.samples[1].value, Value::Untyped(b) if f64::from_bits(b) == 7.0));
    match &parsed.samples[2].value {
        Value::Histogram(v) => {
            // the buckets come in the order of their lines
            assert_eq!(2, v.len());
            assert_eq!(0.5, f64::from_bits(v[0].less_than));
            assert_eq!(3.0, f64::from_bits(v[0].count));
            assert_eq!(4.0, f64::from_bits(v[1].count));
        },
        _ => panic!("not a histogram"),
    }
    assert_eq!("h", parsed.samples[2].metric);
    assert!(parsed.samples[2].labels.is_empty());
    assert!(parsed.docs.is_empty());
}

#[test]
fn parse_lines_keeps_last_help() {
    let p = parse_lines(lines_of("# HELP m first\n# HELP m second\nm 1\n")).unwrap();
    assert_eq!(vec![("m".to_string(), "second".to_string())], p.docs);
    assert_eq!(1, p.samples.len());
}

#[test]
fn parts2scrape_later_pair_stays() {
    let p = ParsedParts {
        docs: vec![("m".into(), "a".into()), ("n".into(), "b".into()), ("m".into(), "c".into())],
        samples: vec![ParsedPart {
            metric: "m".into(),
            labels: vec![("x".into(), "1".into()), ("x".into(), "2".into())],
            value: Value::Gauge(3),
            timestamp: Timestamp { secs: 5, nanos: 6 },
        }],
    };
    let s = parts2scrape(p);
    assert_eq!(2, s.docs.len());
    assert_eq!(Some("c"), s.docs.get("m"));
    assert_eq!(Some("b"), s.docs.get("n"));
    assert_eq!(1, s.samples.len());
    assert_eq!("m", s.samples[0].metric);
    assert_eq!(Some("2"), s.samples[0].labels.get("x"));
    assert_eq!(1, s.samples[0].labels.len());
    assert_eq!(Timestamp { secs: 5, nanos: 6 }, s.samples[0].timestamp);
}

fn to_proto(b: &BasicFamily) -> MetricFamily {
    let mut f = MetricFamily::default();
    f.set_field_type(match b.ftyp {
        MetricType::Counter => prometheus::proto::MetricType::COUNTER,
        MetricType::Gauge => prometheus::proto::MetricType::GAUGE,
        MetricType::Summary => prometheus::proto::MetricType::SUMMARY,
        MetricType::Untyped => prometheus::proto::MetricType::UNTYPED,
        MetricType::Histogram => prometheus::proto::MetricType::HISTOGRAM,
    });
    f.set_help(b.help.clone());
    f.set_name(b.name.clone());
    f.set_metric(
        b.met
            .iter()
            .map(|m| {
                let mut x = Metric::default();
                if let Some(g) = m.gauge() {
                    let mut y = Gauge::default();
                    y.set_value(f64::from_bits(g.0));
                    x.set_gauge(y);
                }
                if let Some(c) = m.counter() {
                    let mut y = Counter::default();
                    y.set_value(f64::from_bits(c.0));
                    x.set_counter(y);
                }
                x.set_label(
                    m.labels()
                        .iter()
                        .map(|l| {
                            let mut lp = LabelPair::default();
                            lp.set_name(l.name.clone());
                            lp.set_value(l.value.clone());
                            lp
                        })
                        .collect(),
                );
                x
            })
            .collect(),
    );
    f
}

#[test]
fn ser_empty() {
    let emet: Vec<MetricFamily> = vec![];
    let mut buf: String = "".into();
    TextEncoder::new().encode_utf8(&emet, &mut buf).unwrap();
    assert!(buf.is_empty());
}

#[test]
fn ser_simple() {
    let cpu = |c: &str, m: &str, v: f64| {
        BasicMetric::from_counter(
            vec![
                BasicLabel { name: "cpu".into(), value: c.into() },
                BasicLabel { name: "mode".into(), value: m.into() },
            ],
            BasicCounter(v.to_bits()),
        )
    };
    let fam0 = BasicFamily {
        ftyp: MetricType::Counter,
        help: "Seconds the CPUs spent in each mode.".into(),
        met: vec![
            cpu("0", "iowait", 28446.13),
            cpu("0", "system", 107078.8),
            cpu("1", "iowait", 38446.13),
            cpu("1", "system", 207078.8),
        ],
        name: "node_cpu_seconds_total".into(),
    };
    let fam1 = BasicFamily {
        ftyp: MetricType::Gauge,
        help: "mtu_bytes value of /sys/class/net/<iface>".into(),
        met: vec![
            BasicMetric::from_gauge(
                vec![BasicLabel { name: "device".into(), value: "lo".into() }],
                BasicGauge(65536.0f64.to_bits()),
            ),
            BasicMetric::from_gauge(
                vec![BasicLabel { name: "device".into(), value: "virbr0".into() }],
                BasicGauge(1500.0f64.to_bits()),
            ),
        ],
        name: "node_network_mtu_bytes".into(),
    };
    let emet: Vec<MetricFamily> = vec![to_proto(&fam0), to_proto(&fam1)];
    let mut buf: String = "".into();
    TextEncoder::new().encode_utf8(&emet, &mut buf).unwrap();
    assert!(!buf.is_empty());
    assert!(buf.contains(r#"node_cpu_seconds_total{cpu="1",mode="system"} 207078.8"#));
    assert!(buf.contains(r#"node_network_mtu_bytes{device="lo"} 65536"#));
}
