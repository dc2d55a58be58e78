[package]
name = "scores_ws"
version = "0.1.0"
edition = "2021"
publish = false

[dependencies]
memchr = "2"
bytes = "1"
eyre = "0.6"
futures-util = "0.3"
http-body-util = "0.1"
hyper = { version = "1", features = ["client", "http1", "http2"] }
hyper-rustls = { version = "0.27", default-features = false, features = ["http1", "http2", "webpki-roots", "ring", "native-tokio", "tls12", "logging"] }
hyper-util = { version = "0.1", features = ["client-legacy", "http2", "tokio"] }
papaya = "*"
rustls = { version = "0.23", default-features = false, features = ["ring", "std", "tls12", "logging"] }
serde = { version = "1", features = ["derive"] }
tokio = { version = "1", features = ["macros", "net", "rt-multi-thread", "sync", "time"] }
tokio-tungstenite = "*"
toml = "*"
tracing = "0.1"
tracing-subscriber = { version = "0.3", features = ["env-filter"] }
