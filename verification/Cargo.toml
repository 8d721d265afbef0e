[package]
name = "ztcc"
version = "0.1.0"
edition = "2021"
publish = false

[dependencies]
bit_reverse = "*"
bitvec = { version = "1", features = ["serde"] }
galois_field = "*"
gf256 = "*"
nalgebra = "*"
num-bigint = "0.4"
num-traits = "0.2"
queues = "*"
rayon = "1"
serde = { version = "1", features = ["derive"] }
serde_json = "1"
