[package]
name = "ru_cdc"
version = "0.1.0"
edition = "2021"
publish = false

[dependencies]
byteorder = "1"
bytes = "1"
chrono = "0.4"
clap = "3.2"
dirs = "5"
rand = "0.8"
rdkafka = "*"
redis = "*"
serde = { version = "1", features = ["derive"] }
serde_json = "1"
sha1 = "0.10"

[dev-dependencies]
hex = "0.4"
