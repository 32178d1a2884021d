[package]
name = "temporal"
version = "0.1.0"
edition = "2021"
publish = false

[dependencies]
serde = { version = "1", features = ["derive"] }
serde_json = "1"
percent-encoding = "2"
uuid = { version = "1", features = ["v4"] }
tokio = { version = "1", features = ["rt-multi-thread", "macros", "net", "io-util", "sync", "time", "signal"] }
tracing = "0.1"
tracing-subscriber = { version = "0.3", features = ["env-filter"] }
clap = { version = "4", features = ["derive"] }
anyhow = "1"
thiserror = "2"
dirs = "*"
libc = "0.2"
rusqlite = { version = "*", features = ["bundled"] }
sqlite-vec = "*"
zerocopy = "0.8"
plist = "1"
libproc = "*"
accessibility-sys = "*"
core-foundation = "*"
objc2-core-graphics = "*"
objc2-core-foundation = "*"
ort = { version = "2.0.0-rc.10", default-features = false, features = ["std"] }
tokenizers = { version = "*", default-features = false, features = ["onig"] }
llama-cpp-2 = "*"
