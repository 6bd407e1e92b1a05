[package]
name = "scicrypt"
version = "0.1.0"
edition = "2021"
publish = false

[dependencies]
num-bigint-dig = { version = "0.8", features = ["prime"] }
num-integer = "0.1"
rand_core = { version = "=0.6.4", features = ["getrandom"] }
curve25519-dalek = { version = "=4.1.3", features = ["rand_core"] }

[dev-dependencies]
primal = "=0.3.3"
