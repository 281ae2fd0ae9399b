[package]
name = "boost_checkpoint"
version = "0.1.0"
edition = "2021"
publish = false

[dependencies]
anyhow = "=1.0.104"
async-trait = "=0.1.92"
bincode = "=1.3.3"
env_logger = "=0.11.11"
log = "=0.4.34"
ore-api = "=3.1.0"
ore-boost-api = "=1.4.0"
solana-sdk = "=2.3.1"
steel = "=3.0.3"
thiserror = "=1.0.69"
tokio = { version = "=1.54.1", features = ["macros", "rt-multi-thread", "time"] }
