[package]
name = "sized_cache"
version = "0.1.0"
edition = "2021"
publish = false

[dependencies]
hashbrown = { version = "0.15", default-features = false, features = ["inline-more"] }
ahash = { version = "0.8", default-features = false, features = ["std", "runtime-rng"] }
futures = { version = "0.3", default-features = false }
async-trait = "0.1"
