[package]
name = "svd2rdf"
version = "0.1.0"
edition = "2021"
publish = false

[dependencies]
indexmap = { version = "*", features = ["serde"] }
clap = { version = "*", features = ["derive"] }
serde = { version = "*", features = ["derive"] }
serde_json = "*"
svd-parser = "*"
svd-rs = "*"
