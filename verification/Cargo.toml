[package]
name = "iptoasn-webservice"
version = "0.2.5"
edition = "2021"
publish = false

[dependencies]
clap = { version = "4", features = ["env"] }
env_logger = "0.11"
flate2 = "1"
home = "0.5"
horrorshow = "0.8"
http = "1"
http-body-util = "0.1"
hyper = { version = "1", features = ["http1", "http2", "server"] }
hyper-util = { version = "0.1", features = ["http1", "http2", "server-auto", "tokio"] }
log = "0.4"
mimalloc = "0.1"
regex = "1"
reqwest = { version = "0.12", default-features = false, features = ["rustls-tls"] }
serde = { version = "1", features = ["derive"] }
serde_json = "1"
time = { version = "0.3", features = ["formatting", "macros"] }
tokio = { version = "1", features = ["macros", "net", "rt-multi-thread", "time"] }
