[package]
name = "attend"
version = "0.1.0"
edition = "2021"
publish = false

[dependencies]
similar = "=3.2.1"
blake3 = "=1.8.7"
serde = { version = "=1.0.229", features = ["derive"] }
serde_json = "=1.0.154"
chrono = "=0.4.45"
camino = "=1.2.6"
anyhow = "=1.0.104"
dirs = "=7.0.0"
which = "=8.0.6"
humantime = "=2.4.0"
lockfile = "=0.4.0"
nix = { version = "=0.31.3", features = ["signal"] }
uuid = { version = "=1.29.0", features = ["v4"] }
rusqlite = { version = "=0.41.1", features = ["bundled"] }
sysinfo = "=0.40.1"
tracing = "=0.1.44"
image = { version = "0.25", default-features = false, features = ["png"] }
arboard = "3"
