[package]
name = "set_search_experiment"
version = "0.1.0"
edition = "2021"
publish = false

[dependencies]
ahash = "0.8"
anyhow = "1"
approx = "0.5"
clap = { version = "4", features = ["derive"] }
hashbrown = "0.14"
rand = "0.8"
rand_xoshiro = "0.6"
serde = { version = "1", features = ["derive"] }
serde_json = "1"
