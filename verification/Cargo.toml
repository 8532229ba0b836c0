[package]
name = "coalescent"
version = "0.1.0"
edition = "2021"
publish = false

[dependencies]
itertools = "=0.9.0"
markovian = "=0.1.3"
partitions = "=0.2.4"
rand = "=0.7.3"
rand_distr = "=0.2.2"
