[package]
name = "assoc_rules"
version = "0.1.0"
edition = "2021"
publish = false

[dependencies]
argparse = "0.2"
fnv = "1"
itertools = "*"
rayon = "1"
