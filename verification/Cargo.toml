[package]
name = "cosmos_multisig"
version = "0.1.0"
edition = "2021"
publish = false

[dependencies]
prost = { version = "0.13", default-features = false, features = ["std"] }
sha2 = "0.10"

[dev-dependencies]
protobuf = "2.25"
