[package]
name = "rs-pmtxt2merged"
version = "0.1.0"
edition = "2021"
publish = false

[dependencies]
chrono = "0.4"
prometheus = "0.14"
prometheus-parse = "0.2"
