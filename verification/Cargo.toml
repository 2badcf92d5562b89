[package]
name = "scap"
version = "0.1.0"
edition = "2021"
publish = false

[dependencies]
anyhow = "=1.0.104"
bstr = "=1.13.1"
clap = { version = "=4.6.7", features = ["derive"] }
crossbeam-deque = "=0.8.8"
fs2 = "0.4"
gix-config = { version = "=0.57.0", features = ["sha1"] }
gix-discover = { version = "=0.52.0", features = ["sha1"] }
gix-glob = "=0.26.1"
gix-url = "=0.36.2"
memchr = "=2.8.3"
rustix = { version = "=1.1.6", features = ["fs", "process"] }
thiserror = "2"
tracing = "0.1"
tracing-subscriber = { version = "0.3", features = ["env-filter"] }

[dev-dependencies]
regex = "1"
tempfile = "3"
