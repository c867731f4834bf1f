[package]
name = "unifi_rollup"
version = "0.1.0"
edition = "2021"
publish = false

[dependencies]
alloy-primitives = "*"
alloy-rlp = "*"
alloy-consensus = { version = "*", features = ["k256"] }
alloy-eips = "*"
eyre = "*"
thiserror = "*"
tokio = { version = "*", default-features = false, features = ["sync", "rt", "macros"] }
rusqlite = { version = "*", default-features = false }

[dev-dependencies]
k256 = "*"
