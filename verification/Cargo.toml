[package]
name = "z_fast_trie_static_sux"
version = "0.1.0"
edition = "2021"
publish = false

[dependencies]
rand = { version = "=0.8.8", features = ["small_rng"] }
sux = "=0.14.0"
value-traits = "=0.2.1"

[dev-dependencies]
