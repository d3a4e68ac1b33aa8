[package]
name = "slpk_unpack"
version = "0.1.0"
edition = "2021"
publish = false

[dependencies]
flate2 = "1"
num_cpus = "1"
structopt = "0.3"
zip = "*"
