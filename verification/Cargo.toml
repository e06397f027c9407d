[package]
name = "algorithms"
version = "0.1.0"
edition = "2021"
publish = false

[dependencies]
fxhash = "0.2"
rand = "0.8"
petgraph = "0.6"
linkme = "0.3"
