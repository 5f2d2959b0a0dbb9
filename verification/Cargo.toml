[package]
name = "spark"
version = "0.1.0"
edition = "2021"
publish = false

[dependencies]
tiny-keccak = { version = "=2.0.2", features = ["keccak"] }
anyhow = "1"
async-trait = "0.1"
ckb-jsonrpc-types = "*"
ckb-types = "*"
env_logger = "*"
jsonrpsee = { version = "*", features = ["server", "macros"] }
log = "0.4"
rocksdb = "*"
sea-orm = { version = "*", default-features = false, features = ["sqlx-sqlite", "runtime-tokio-rustls", "macros"] }
serde = { version = "1", features = ["derive"] }
thiserror = "*"
tokio = { version = "1", features = ["macros", "rt-multi-thread", "time", "signal", "sync", "net"] }
toml = "*"
