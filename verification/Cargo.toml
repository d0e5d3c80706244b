[package]
name = "orrery"
version = "0.1.0"
edition = "2021"
publish = false

[dependencies]
uuid = { version = "1", features = ["v7"] }
blake3 = { version = "1", features = ["pure"] }
petgraph = "0.6"
rand = "0.8"
serde = { version = "1", features = ["derive"] }
thiserror = "2"
anyhow = "1"
tracing = "0.1"
tracing-subscriber = { version = "0.3", features = ["env-filter", "fmt"] }
figment = { version = "0.10", features = ["env"] }
tokio = { version = "1", features = ["macros", "rt-multi-thread", "net"] }
axum = "0.8"
dioxus = { version = "0.6", default-features = false, features = ["macro", "html", "signals", "hooks"] }
