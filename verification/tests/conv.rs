use std::cell::RefCell;

use rs_pmtxt2merged::conv::{scrape2basic, InOut, ParsedToProto, ScrapeToBasic};
use rs_pmtxt2merged::scrape::{Labels, Sample, Scrape, Timestamp, Value};
use rs_pmtxt2merged::ser::{BasicFamily, MetricType};
use rs_pmtxt2merged::strmap::StrMap;

fn bits(v: f64) -> u64 {
    v.to_bits()
}

fn labels(pairs: &[(&str, &str)]) -> Labels {
    let mut l = StrMap::new();
    for (k, v) in pairs {
        l.insert(k.to_string(), v.to_string());
    }
    l
}

fn sample(metric: &str, value: Value, pairs: &[(&str, &str)]) -> Sample {
    Sample {
        metric: metric.to_string(),
        value,
        labels: labels(pairs),
        timestamp: Timestamp { secs: 0, nanos: 0 },
    }
}

fn nvme_scrape() -> Scrape {
    let mut docs = StrMap::new();
    docs.insert(
        "nvme_power_cycles_total".to_string(),
        "SMART metric power_cycles_total".to_string(),
    );
    Scrape {
        docs,
        samples: vec![
            sample("nvme_power_cycles_total", Value::Counter(bits(28.0)), &[("device", "nvme0n1")]),
            sample("nvme_power_cycles_total", Value::Counter(bits(38.0)), &[("device", "nvme1n1")]),
        ],
    }
}

#[test]
fn scrape2basic_one_counter_family() {
    let fams = scrape2basic(nvme_scrape()).unwrap();
    assert_eq!(1, fams.len());
    let f = &fams[0];
    assert_eq!("nvme_power_cycles_total", f.name);
    assert_eq!(MetricType::Counter, f.ftyp);
    assert_eq!("SMART metric power_cycles_total", f.help);
    assert_eq!(2, f.met.len());
    assert_eq!(28.0, f64::from_bits(f.met[0].counter().unwrap().0));
    assert_eq!(38.0, f64::from_bits(f.met[1].counter().unwrap().0));
    assert!(f.met[0].gauge().is_none());
    assert_eq!("device", f.met[0].labels()[0].name);
    assert_eq!("nvme0n1", f.met[0].labels()[0].value);
    assert_eq!("nvme1n1", f.met[1].labels()[0].value);
}

#[test]
fn scrape2basic_empty() {
    let fams = scrape2basic(Scrape { docs: StrMap::new(), samples: vec![] }).unwrap();
    assert!(fams.is_empty());
}

#[test]
fn scrape2basic_types_and_order() {
    let s = Scrape {
        docs: StrMap::new(),
        samples: vec![
            sample("node_network_mtu_bytes", Value::Gauge(bits(65536.0)), &[("device", "lo")]),
            sample("h", Value::Histogram(vec![]), &[]),
            sample("u", Value::Untyped(bits(1.0)), &[]),
            sample("c", Value::Counter(bits(1.0)), &[]),
            sample("node_network_mtu_bytes", Value::Gauge(bits(1500.0)), &[("device", "virbr0")]),
            // the family's type is that of its first sample; an untyped sample
            // gives no metric
            sample("c", Value::Untyped(bits(2.0)), &[]),
            sample("c", Value::Gauge(bits(3.0)), &[]),
        ],
    };
    let fams = scrape2basic(s).unwrap();
    assert_eq!(2, fams.len());
    assert_eq!("node_network_mtu_bytes", fams[0].name);
    assert_eq!(MetricType::Gauge, fams[0].ftyp);
    assert_eq!("", fams[0].help);
    assert_eq!(2, fams[0].met.len());
    assert_eq!(1500.0, f64::from_bits(fams[0].met[1].gauge().unwrap().0));
    assert_eq!("c", fams[1].name);
    assert_eq!(MetricType::Counter, fams[1].ftyp);
    assert_eq!(2, fams[1].met.len());
    assert_eq!(1.0, f64::from_bits(fams[1].met[0].counter().unwrap().0));
    assert_eq!(3.0, f64::from_bits(fams[1].met[1].gauge().unwrap().0));
}

#[test]
fn scrape_to_basic_converts() {
    let fams = ScrapeToBasic.convert(nvme_scrape()).unwrap();
    assert_eq!(1, fams.len());
}

#[test]
fn in2out_default_reads_converts_writes() {
    let written: RefCell<Vec<String>> = RefCell::new(vec![]);
    let mut inout = InOut {
        input_scrape: || Ok(nvme_scrape()),
        output_proto: |f: &[BasicFamily]| {
            for x in f {
                written.borrow_mut().push(x.name.clone());
            }
            Ok(())
        },
    };
    inout.in2out_default().unwrap();
    assert_eq!(vec!["nvme_power_cycles_total".to_string()], *written.borrow());
}

#[test]
fn in2out_passes_errors_on() {
    let mut calls = 0;
    let mut inout = InOut {
        input_scrape: || Err(std::io::Error::other("no input")),
        output_proto: |_: &[BasicFamily]| {
            calls += 1;
            Ok(())
        },
    };
    let r = inout.in2out_default();
    assert_eq!("no input", r.unwrap_err().to_string());
    drop(inout);
    assert_eq!(0, calls);

    let mut inout = InOut {
        input_scrape: || Ok(nvme_scrape()),
        output_proto: |_: &[BasicFamily]| Err(std::io::Error::other("no output")),
    };
    assert_eq!("no output", inout.in2out_default().unwrap_err().to_string());

    let mut inout = InOut {
        input_scrape: || Ok(nvme_scrape()),
        output_proto: |_: &[BasicFamily]| Ok(()),
    };
    let conv = |_: Scrape| -> Result<Vec<BasicFamily>, std::io::Error> {
        Err(std::io::Error::other("no conversion"))
    };
    assert_eq!("no conversion", inout.in2out(conv).unwrap_err().to_string());
}

#[test]
fn merged_families_take_state_help_first() {
    let mut sdocs = StrMap::new();
    sdocs.insert("a".to_string(), "state a".to_string());
    let mut ndocs = StrMap::new();
    ndocs.insert("a".to_string(), "next a".to_string());
    ndocs.insert("b".to_string(), "next b".to_string());
    let state = Scrape {
        docs: sdocs,
        samples: vec![sample("a", Value::Gauge(bits(1.0)), &[])],
    };
    let next = Scrape {
        docs: ndocs,
        samples: vec![
            sample("b", Value::Gauge(bits(2.0)), &[]),
            sample("c", Value::Gauge(bits(3.0)), &[]),
        ],
    };
    let plus = |a: u64, b: u64| (f64::from_bits(a) + f64::from_bits(b)).to_bits();
    let merged = rs_pmtxt2merged::merge::scrape_merge(state, next, &plus);
    let fams = scrape2basic(merged).unwrap();
    assert_eq!(3, fams.len());
    let help = |n: &str| fams.iter().find(|f| f.name == n).unwrap().help.clone();
    assert_eq!("state a", help("a"));
    assert_eq!("next b", help("b"));
    assert_eq!("", help("c"));
}

#[test]
fn read_and_merge_reads_both_then_merges() {
    let mut reads: Vec<&str> = vec![];
    let log = std::cell::RefCell::new(&mut reads);
    let mut state = || {
        log.borrow_mut().push("state");
        Ok(nvme_scrape())
    };
    let mut next = || {
        log.borrow_mut().push("next");
        Ok(nvme_scrape())
    };
    let plus = |a: u64, b: u64| (f64::from_bits(a) + f64::from_bits(b)).to_bits();
    let merge = |s: Scrape, n: Scrape| rs_pmtxt2merged::merge::scrape_merge(s, n, &plus);
    let m = rs_pmtxt2merged::conv::read_and_merge(&mut state, &mut next, &merge).unwrap();
    assert_eq!(2, m.samples.len());
    match m.samples[0].value {
        Value::Counter(b) => assert_eq!(56.0, f64::from_bits(b)),
        _ => panic!("not a counter"),
    }
    drop(log);
    assert_eq!(vec!["state", "next"], reads);
}

#[test]
fn read_and_merge_stops_at_first_error() {
    let mut next_called = false;
    let mut state = || Err(std::io::Error::other("no state"));
    let mut next = || {
        next_called = true;
        Ok(nvme_scrape())
    };
    let merge = |s: Scrape, _n: Scrape| s;
    let r = rs_pmtxt2merged::conv::read_and_merge(&mut state, &mut next, &merge);
    assert_eq!("no state", r.unwrap_err().to_string());
    drop(next);
    assert!(!next_called);

    let mut state = || Ok(nvme_scrape());
    let mut next = || Err(std::io::Error::other("no next"));
    let r = rs_pmtxt2merged::conv::read_and_merge(&mut state, &mut next, &merge);
    assert_eq!("no next", r.unwrap_err().to_string());
}
