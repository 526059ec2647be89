[package]
name = "restart_signals"
version = "0.1.0"
edition = "2021"
publish = false

[dependencies]
solana-net-utils = "=2.0.25"
solana-program = "=2.0.25"
solana-sdk = "=2.0.25"
tokio = { version = "1", features = ["macros", "rt-multi-thread", "time"] }
