[package]
name = "kappa-registry"
version = "0.1.0"
edition = "2021"
publish = false

[dependencies]
sha2 = "=0.10.9"
sha3 = "=0.10.9"
md-5 = "=0.10.6"
blake3 = "=1.8.7"
crc-fast = "=1.10.0"
hex = "=0.4.3"
flate2 = "=1.1.10"
zstd = "=0.13.4"
xz2 = "=0.1.7"
bzip2 = "=0.6.1"
gix-hash = { version = "=0.28.1", features = ["sha1", "sha256"] }
gix-object = { version = "=0.66.1", features = ["sha1", "sha256"] }
gix-pack = { version = "=0.77.0", features = ["sha1", "sha256", "streaming-input"] }
gix-packetline = { version = "=0.24.1", features = ["blocking-io"] }
gix-error = "=0.5.2"
dcbor = "=0.25.2"
getrandom = "=0.3.4"
uuid = { version = "=1.29.0", features = ["v4"] }
serde = { version = "=1.0.229", features = ["derive"] }
serde_json = "=1.0.154"
thiserror = "2"
tokio = { version = "=1.54.1", features = ["rt", "sync", "time", "macros"] }
topcoat = { version = "=0.6.2", features = ["websocket"] }
http = "=1.5.0"
bytes = "=1.12.1"
tracing = "=0.1.44"
dashmap = "=6.2.1"
chrono = "=0.4.45"
akd = "=0.13.0"

[dev-dependencies]
tempfile = "3"
