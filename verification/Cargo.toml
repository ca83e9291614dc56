[package]
name = "pathdns"
version = "0.1.0"
edition = "2021"
publish = false

[dependencies]
anyhow = "1"
arc-swap = "1"
bytes = "1"
dashmap = "6"
flate2 = "1"
h2 = "0.4"
h3 = "*"
h3-quinn = "*"
http = "1"
inotify = "*"
io-uring = "*"
libc = "0.2"
moka = { version = "0.12", features = ["sync"] }
quick_cache = "0.6"
quinn = { version = "*", default-features = false, features = ["rustls-ring", "runtime-tokio"] }
rmp-serde = "1"
rustc-hash = "2"
rustls = { version = "0.23", default-features = false, features = ["ring", "std", "tls12"] }
serde = { version = "1", features = ["derive", "rc"] }
serde_json = "1"
smallvec = { version = "1", features = ["serde"] }
tokio = { version = "1", features = ["full"] }
tokio-rustls = { version = "*", default-features = false, features = ["ring", "tls12"] }
webpki-roots = "*"
