[package]
name = "txchecker"
version = "0.1.0"
edition = "2021"
publish = false

[dependencies]
amqprs = "*"
anyhow = "*"
bs58 = "*"
clap = { version = "*", features = ["derive"] }
db-key = "*"
dotenv = "*"
env_logger = "*"
envy = "*"
fastwebsockets = { version = "*", features = ["upgrade"] }
http-body-util = "*"
hyper = { version = "*", features = ["client", "http1", "http2"] }
hyper-util = { version = "*", features = ["client", "client-legacy", "http2", "tokio"] }
leveldb = "*"
log = "*"
rustls = "*"
serde = { version = "*", features = ["derive"] }
sonic-rs = "*"
tokio = { version = "*", features = ["full"] }
tokio-rustls = "*"
tokio-util = "*"
toml = "*"
url = "*"
webpki-roots = "*"
