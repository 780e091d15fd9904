[package]
name = "approval_distribution"
version = "0.1.0"
edition = "2021"
publish = false

[dependencies]
env_logger = "0.11"
futures = "0.3"
log = "0.4"
rand = "0.8.5"
rand_chacha = "0.3.1"
rand_core = { version = "0.5.1", features = ["getrandom"] }
schnorrkel = "0.9.1"

[dev-dependencies]
assert_matches = "1.5"
