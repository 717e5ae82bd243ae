[package]
name = "tedwards"
version = "0.1.0"
edition = "2021"
publish = false

[dependencies]
num-bigint = "*"
sha2 = "*"
rand_chacha = "*"

[dev-dependencies]
rand = "*"
rand_xorshift = "*"
