[package]
name = "rust_qsim"
version = "0.1.0"
edition = "2021"
publish = false

[dependencies]
itertools = "=0.15.0"
keyed_priority_queue = "=0.4.2"
ordered-float = "=5.5.1"
arc-swap = "=1.9.3"
thiserror = "=2.0.21"
nohash-hasher = "=0.2.0"
rand = "0.10"
