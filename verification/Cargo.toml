[package]
name = "oner"
version = "0.1.0"
edition = "2021"
publish = false

[dependencies]
anyhow = "1"
csv = "1"
itertools = "*"
ndarray = "*"
ndarray-csv = "*"
ord_subset = "*"
rand = "*"
structopt = "0.3"
