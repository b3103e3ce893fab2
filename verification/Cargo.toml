[package]
name = "wlh2ipawlh"
version = "0.1.0"
edition = "2021"
publish = false

[dependencies]
dashmap = "*"
itertools = "*"
rayon = "*"
serde_json = "*"
translit = "*"
