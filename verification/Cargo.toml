[package]
name = "tracing_console"
version = "0.1.0"
edition = "2021"
publish = false

[dependencies]
async-stream = "0.3"
clap = { version = "4", features = ["derive"] }
compact_str = "*"
crossterm = "*"
futures = "0.3"
futures-core = "0.3"
log = "0.4"
protosocket = "*"
protosocket-messagepack = "*"
protosocket-rpc = "*"
rand = "*"
ratatui = "*"
serde = { version = "1", features = ["derive"] }
serde_json = "1"
slab = "0.4"
spillway = "*"
tokio = { version = "1", features = ["full"] }
tracing = "0.1"

[dev-dependencies]
tracing-futures = "*"
