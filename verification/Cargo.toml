[package]
name = "duniter_ledger"
version = "0.1.0"
edition = "2021"
publish = false

[dependencies]
anyhow = "1"
bincode = "1"
dubp = "*"
fast-threadpool = "*"
flume = "*"
futures = "0.3"
log = "0.4"
