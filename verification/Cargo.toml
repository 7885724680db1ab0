[package]
name = "wave_function_collapse"
version = "0.1.0"
edition = "2021"
publish = false

[dependencies]
bitvec = "1"
rand = "0.8"
rand_chacha = "0.3"
uuid = { version = "1", features = ["v4"] }
serde = { version = "1", features = ["derive"] }
serde_json = "1"
fastrand = "2"
log = "0.4"
pretty_env_logger = "0.5"
tide = "0.16"
async-std = { version = "1", features = ["attributes"] }
