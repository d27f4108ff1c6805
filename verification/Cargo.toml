[package]
name = "memoesu"
version = "0.1.0"
edition = "2021"
publish = false

[dependencies]
ahash = "0.8"
anyhow = "1"
bitvec = "1"
clap = { version = "4", features = ["derive"] }
fixedbitset = "0.4"
flurry = "0.4"
graph6-rs = "*"
hashbrown = "0.13"
nauty-Traces-sys = "*"
ndarray = "0.15"
petgraph = "0.6"
rand = "0.8"
rand_chacha = "0.3"
rayon = "1"
