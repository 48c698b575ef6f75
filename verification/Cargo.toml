[package]
name = "cluvio_agent"
version = "1.0.0"
edition = "2021"
publish = false

[dependencies]
crypto_box = { version = "=0.9.1", features = ["chacha20"] }
blake2b_simd = "=1.0.5"
chacha20poly1305 = "=0.11.0"
getrandom = "=0.4.3"
humantime = "=2.4.0"
log = "*"
tokio = { version = "*", features = ["full"] }
tokio-util = { version = "*", features = ["compat"] }
tokio-rustls = "*"
futures = "*"
yamux = "*"
webpki-roots = "*"
rustls-pemfile = "*"
socket2 = "*"
clap = { version = "*", features = ["derive"] }
dirs = "*"
serde = { version = "*", features = ["derive"] }
toml = "*"
tracing-subscriber = { version = "*", features = ["env-filter", "json"] }
anyhow = "*"
thiserror = "*"

[dev-dependencies]
base64 = "=0.23.1"
ipnet = "=2.12.2"
minicbor = { version = "=2.3.0", features = ["std"] }
