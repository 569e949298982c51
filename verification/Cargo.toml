[package]
name = "caviarpd"
version = "0.1.0"
edition = "2021"
publish = false

[dependencies]
rand = "=0.10.3"
rand_pcg = "=0.10.2"
rand_distr = "0.6"
num_cpus = "=1.17.0"
crossbeam = "=0.8.5"
roots = "=0.0.8"
dahl-salso = "=0.6.9"
