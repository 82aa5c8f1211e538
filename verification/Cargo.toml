[package]
name = "crates_pro"
version = "0.1.0"
edition = "2021"
publish = false

[dependencies]
semver = "1"
regex = "1"
sha2 = "0.10"
chrono = "0.4"
serde = { version = "1", features = ["derive"] }
serde_json = "1"
tokio = { version = "1", features = ["rt-multi-thread", "macros", "process", "fs", "time", "signal", "io-util", "sync"] }
actix-web = "4"
actix-multipart = "*"
tokio-postgres = "0.7"
reqwest = { version = "0.12", default-features = false, features = ["json"] }
redis = { version = "*", default-features = false }
clap = { version = "4", features = ["derive"] }
dotenvy = "0.15"
tracing = "0.1"
tracing-subscriber = { version = "0.3", features = ["env-filter"] }
anyhow = "1"
async-trait = "0.1"
futures-util = "0.3"
sanitize-filename = "*"
zip = { version = "*", default-features = false, features = ["deflate"] }
url = "2"
csv = "1"
walkdir = "2"
flate2 = "1"
tar = "0.4"
base64 = "*"
