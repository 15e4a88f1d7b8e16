//! Merging of Prometheus text-format scrapes, and their conversion into
//! metric families of counters and gauges.

pub mod conv;
pub mod merge;
pub mod parse;
pub mod parser_types;
pub mod scrape;
pub mod ser;
pub mod strmap;
pub mod text;
