[package]
name = "hybrid_data_structure"
version = "0.1.0"
edition = "2021"
publish = false

[dependencies]
bloomfilter = "=1.0.16"

[dev-dependencies]
rand = "0.8"
rand_chacha = "0.3"
