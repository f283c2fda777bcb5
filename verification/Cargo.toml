[package]
name = "pando"
version = "0.1.0"
edition = "2021"
publish = false

[dependencies]
crossbeam = "*"
failure = "*"
git2 = "*"
indicatif = "*"
num_cpus = "*"
serde = "*"
serde_derive = "*"
serde_yaml = "*"
structopt = "*"
