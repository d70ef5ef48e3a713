[package]
name = "flights"
version = "0.1.0"
edition = "2021"
publish = false

[dependencies]
time = "0.3"
geoutils = "0.5"
serde_json = { version = "1", features = ["arbitrary_precision"] }
rand = "0.8"
clap = { version = "4", features = ["derive"] }
reqwest = { version = "0.11", default-features = false, features = ["blocking", "rustls-tls"] }
