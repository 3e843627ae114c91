[package]
name = "lexi"
version = "0.1.0"
edition = "2021"
publish = false

[dependencies]
axum = { version = "=0.6.20", features = ["headers"] }
clap = { version = "4", features = ["derive"] }
clap_complete = "4"
ctrlc = "3"
mime_guess = "2"
owo-colors = "3"
regex = "1"
serde = { version = "1", features = ["derive"] }
serde_repr = "0.1"
tokio = { version = "1", features = ["rt-multi-thread", "net", "fs", "macros"] }
tower-http = { version = "=0.4.4", features = ["trace"] }
tracing = "0.1"
tracing-subscriber = { version = "0.3", features = ["env-filter"] }
