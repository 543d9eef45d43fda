[package]
name = "consensus_retrieval"
version = "0.1.0"
edition = "2021"
publish = false

[dependencies]
ahash = "0.8"
bitvec = "1"
clap = { version = "4", features = ["derive"] }
fxhash = "0.2"
mem_dbg = "*"
rand = "*"
rand_distr = "*"
sux = "*"
