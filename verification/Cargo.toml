[package]
name = "rebuilder"
version = "0.1.0"
edition = "2021"
publish = false

[dependencies]
alpm = "*"
anyhow = "1"
fixedbitset = "0.4"
petgraph = "0.6"
structopt = "0.3"
