[package]
name = "samplers"
version = "0.1.0"
edition = "2021"
publish = false

[dependencies]
atty = "0.2"
clap = "2"
failure = "0.1"
itertools = "0.10"
rand = "0.8"
rand_distr = "0.4"
statrs = "0.16"
