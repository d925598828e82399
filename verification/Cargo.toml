[package]
name = "threshold_rsa"
version = "0.1.0"
edition = "2021"

[dependencies]
num-bigint-dig = { version = "=0.8.6", features = ["rand", "serde"] }
num-integer = "=0.1.47"
num-traits = "=0.2.19"
rand = "=0.8.8"
rand_core = "=0.6.4"
rand_chacha = "=0.3.1"
crypto-bigint = "0.5"
crypto-primes = "=0.2.0"
sha2 = "=0.10.9"
serde = { version = "=1.0.229", features = ["derive"] }
serde_json = "=1.0.151"
