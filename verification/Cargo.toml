[package]
name = "bolt_dirk"
version = "0.1.0"
edition = "2021"
publish = false

[dependencies]
alloy = { version = "2.5.0", default-features = false }
bls12_381 = { version = "0.8.0", features = ["experimental"] }
blst = "0.3.17"
clap = { version = "4.5.61", features = ["derive", "env"] }
eyre = "0.6.14"
serde = { version = "1.0.229", features = ["derive"] }
tracing = "0.1.44"
zeroize = { version = "1", features = ["serde"] }
