[package]
name = "dataflow_extensions"
version = "0.1.0"
edition = "2021"
publish = false

[dependencies]
async-trait = "*"
azure_core = "*"
azure_identity = "*"
bytes = "*"
flate2 = "*"
futures = "*"
parking_lot = "*"
proc-macro2 = "*"
quote = "*"
rand = "*"
reqwest = { version = "*", default-features = false }
serde = { version = "*", features = ["derive"] }
serde_json = "*"
syn = { version = "*", features = ["full"] }
thiserror = "*"
tokio = { version = "*", features = ["macros", "rt", "sync", "time"] }
