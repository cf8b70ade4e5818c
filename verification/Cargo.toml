[package]
name = "tunics_algo"
version = "0.1.0"
edition = "2021"
publish = false

[dependencies]
bitvec = "1"
rand = "=0.8.8"
structopt = "=0.3.26"
