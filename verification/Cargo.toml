[package]
name = "jsonpp"
version = "0.1.0"
edition = "2021"
publish = false

[dependencies]
structopt = "=0.3.26"
thiserror = "=1.0.69"

[dev-dependencies]
serde_json = "=1.0.154"
serde-transcode = "=1.1.1"
