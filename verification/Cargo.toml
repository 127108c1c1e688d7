[package]
name = "repyh_proof_of_work"
version = "0.1.0"
edition = "2021"
publish = false

[dependencies]
sha2 = "*"
bs58 = "*"
tokio = { version = "*", features = ["rt-multi-thread", "net", "io-util", "macros", "sync"] }
