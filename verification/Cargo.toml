[package]
name = "rogue_gym_core"
version = "0.1.0"
edition = "2021"
publish = false

[dependencies]
fixedbitset = "0.1"
rand = "0.6"
rand_xorshift = "0.1"
rect-iter = "*"
tuple-map = "*"
serde = { version = "1", features = ["derive"] }
serde_json = "1"
