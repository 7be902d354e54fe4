[package]
name = "ueberneon"
version = "0.1.0"
edition = "2021"
publish = false

[dependencies]
base64 = "0.22"
chrono = "0.4"
dioxus = { version = "0.7", default-features = false, features = ["macro", "html", "signals", "hooks"] }
futures = "0.3"
image = { version = "0.25", default-features = false, features = ["png"] }
pulldown-cmark = "0.13"
serde_json = "1"
tokio = { version = "1", features = ["rt", "sync", "time", "macros"] }
tokio-util = "0.7"
tracing = "0.1"
