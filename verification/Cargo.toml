[package]
name = "chain_scan"
version = "0.1.0"
edition = "2021"
publish = false

[dependencies]
web3 = { version = "0.19", default-features = false, features = ["http"] }
sqlx = { version = "0.7", default-features = false, features = ["sqlite", "runtime-tokio"] }
tokio = { version = "1", features = ["rt-multi-thread", "macros"] }
clap = { version = "4", features = ["derive"] }
