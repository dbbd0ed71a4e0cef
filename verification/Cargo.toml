[package]
name = "koharu"
version = "0.1.0"
edition = "2021"
publish = false

[dependencies]
anyhow = "1"
blake3 = { version = "1", default-features = false, features = ["std", "pure"] }
dunce = "1"
eventsource-stream = "0.2"
futures = "0.3"
icu_normalizer = "2"
icu_segmenter = "2"
image = { version = "0.25", default-features = false, features = ["png", "jpeg"] }
libloading = "0.8"
parking_lot = "0.12"
proc-macro2 = "1"
quote = "1"
reqwest = { version = "0.12", default-features = false, features = ["json", "stream"] }
serde = { version = "1", features = ["derive"] }
serde_json = "1"
syn = { version = "2", features = ["full", "extra-traits"] }
tempfile = "3"
tokenizers = { version = "0.21", default-features = false, features = ["fancy-regex"] }
tokio = { version = "1", features = ["rt-multi-thread", "macros", "sync", "time", "fs"] }
uuid = { version = "1", features = ["v4", "v7"] }
webp = { version = "0.3", default-features = false }
zip = { version = "2", default-features = false }
axum = { version = "0.8", features = ["ws", "multipart"] }
