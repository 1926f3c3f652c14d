[package]
name = "xhttp"
version = "0.1.0"
edition = "2021"
publish = false

[dependencies]
anyhow = "=1.0.104"
axum = { version = "=0.8.9", default-features = false, features = ["http1", "tokio"] }
base64 = "=0.22.1"
clap = { version = "=4.6.7", features = ["derive"] }
futures-util = "=0.3.34"
httlib-huffman = "=0.3.4"
ipnet = "=2.12.2"
libc = "=0.2.191"
rand = "=0.9.5"
regex = "=1.13.1"
reqwest = { version = "0.12", default-features = false, features = ["rustls-tls", "stream", "http2", "blocking"] }
rustls-native-certs = "0.8"
serde = { version = "=1.0.229", features = ["derive"] }
serde_json = "=1.0.154"
sha2 = "=0.10.9"
socket2 = { version = "=0.6.5", features = ["all"] }
tokio = { version = "=1.54.1", features = ["full"] }
tokio-rustls = { version = "0.26", default-features = false, features = ["ring", "tls12"] }
tokio-util = { version = "0.7", features = ["io"] }
tower-http = { version = "0.6", features = ["fs"] }
tracing = "=0.1.44"
tracing-appender = "=0.2.5"
tracing-subscriber = { version = "=0.3.23", features = ["env-filter"] }
url = "=2.5.8"
uuid = { version = "=1.29.0", features = ["v4"] }
x509-parser = "=0.17.0"
zip = { version = "2", default-features = false, features = ["deflate"] }
