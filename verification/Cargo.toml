[package]
name = "pypi_snapshot"
version = "0.1.0"
edition = "2021"
publish = false

[dependencies]
reqwest = { version = "0.11", default-features = false }
futures-util = "0.3"
structopt = "0.3"
tokio = { version = "1", features = ["rt-multi-thread", "macros"] }
serde_json = "1"
google-bigquery2 = "5"
hyper-proxy = { version = "0.9", default-features = false, features = ["rustls"] }
