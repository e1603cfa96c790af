[package]
name = "ss13-map-mcp"
version = "0.1.0"
edition = "2021"
publish = false

[dependencies]
anyhow = "1"
base64 = "0.22"
bumpalo = "3"
clap = { version = "4", features = ["derive"] }
foldhash = "0.2"
indicatif = "*"
ndarray = "*"
rmcp = { version = "1.6", features = ["server", "transport-io"] }
rquickjs = "*"
serde = { version = "1", features = ["derive"] }
serde_json = "1"
tokio = { version = "1", features = ["rt-multi-thread", "macros", "io-std", "io-util", "sync"] }
tracing = "0.1"
tracing-subscriber = { version = "0.3", features = ["env-filter"] }

[dev-dependencies]
tempfile = "3"
