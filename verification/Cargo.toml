[package]
name = "secp256r1"
version = "0.1.0"
edition = "2021"
publish = false

[dependencies]
hmac = "=0.12.1"
sha2 = "=0.10.9"
rand_core = { version = "=0.6.4", features = ["getrandom"] }
zeroize = "=1.9.1"

[dev-dependencies]
p256 = { version = "=0.13.2", features = ["ecdsa", "expose-field"] }
openssl = "=0.10.82"
