[package]
name = "omnicolor_rust"
version = "0.1.0"
edition = "2021"
publish = false

[dependencies]
rand = "0.8"
rand_chacha = "0.3"
png = "0.16"
indicatif = "0.15"
structopt = "0.3"
itertools = "0.9"
kurbo = "0.8"
