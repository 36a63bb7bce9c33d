[package]
name = "sp_ipld"
version = "0.1.0"
edition = "2021"
publish = false

[dependencies]
base64 = "0.13"
blake2b_simd = "1"
blake3 = { version = "1", default-features = false, features = ["pure"] }
bytecursor = "*"
multibase = "0.9"
parity-scale-codec = { version = "3", default-features = false }
serde = { version = "1", features = ["derive"] }
serde_json = "1"
sha2 = "0.10"
sha3 = "0.10"
unsigned-varint = "0.7"

[dev-dependencies]
quickcheck = "1"
rand = "0.8"
