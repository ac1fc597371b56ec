[package]
name = "kvs"
version = "0.1.0"
edition = "2021"
publish = false

[dependencies]
sled = "0.34"
structopt = "0.3"
log = "0.4"
simple_logger = "4"
anyhow = "1"
crossbeam = "0.8"
rayon = "1"

[dev-dependencies]
rand = "0.8"
tempfile = "3"
