[package]
name = "succinct_work"
version = "0.1.0"
edition = "2021"
publish = false

[dependencies]
blake2 = "=0.10.6"
rand = "=0.8.8"
rayon = "=1.12.0"
snarkvm-curves = "=4.12.0"
snarkvm-fields = "=4.12.0"
snarkvm-utilities = "=4.12.0"

[dev-dependencies]
hex = "=0.4.3"
