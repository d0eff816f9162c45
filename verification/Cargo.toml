[package]
name = "ezcontext"
version = "0.1.0"
edition = "2021"
publish = false

[dependencies]
encoding_rs = "=0.8.42"
eztrans-rs = "=0.1.0"
fxhash = "=0.2.1"
rmp-serde = "=1.3.1"
serde = { version = "=1.0.229", features = ["derive"] }
serde_derive = "=1.0.229"
serde_json = "=1.0.154"
serde_yaml = "=0.8.26"
twoway = "=0.2.2"
