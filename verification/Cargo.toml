[package]
name = "patron"
version = "0.1.0"
edition = "2021"
publish = false

[dependencies]
patronus = "=0.39.6"
baa = "=0.19.3"
clap = { version = "=4.6.7", features = ["derive"] }

[dev-dependencies]
rand = "=0.10.3"
rand_xoshiro = "=0.8.1"
