[package]
name = "rgit"
version = "0.1.0"
edition = "2021"
publish = false

[dependencies]
anyhow = "1.0"
askama = { version = "0.12", default-features = false }
axum = "0.7"
bytes = "1.5"
comrak = { version = "0.21", default-features = false }
flate2 = "1.0"
git2 = { version = "0.18", default-features = false }
hex = "0.4"
md5 = "0.7"
moka = { version = "0.12", features = ["future"] }
parking_lot = "0.12"
serde = { version = "1.0", features = ["derive"] }
syntect = "5"
tar = "0.4"
time = { version = "0.3", features = ["formatting"] }
timeago = { version = "0.4", default-features = false }
tokio = { version = "1", features = ["net", "rt-multi-thread", "macros", "sync"] }
tracing = "0.1"
unix_mode = "0.1"
