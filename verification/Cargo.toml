[package]
name = "markov_sched"
version = "0.1.0"
edition = "2021"
publish = false

[dependencies]
crossbeam = "*"
futures = "*"
argh = "*"
peroxide = "*"
