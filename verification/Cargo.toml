[package]
name = "compactors"
version = "0.1.0"
edition = "2021"
publish = false

[dependencies]
ggez = "0.7"
itertools = "0.10"
lazy_static = "1"
png = "0.17"
rand = "0.8"
rand_distr = "0.4"
