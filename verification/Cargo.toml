[package]
name = "proto2json"
version = "0.1.0"
edition = "2021"
publish = false

[dependencies]
byteorder = "=1.5.0"
clap = { version = "=4.6.7", features = ["derive"] }
derive_more = "=0.99.20"
itertools = "=0.10.5"
protobuf = "=3.7.2"
protobuf-json-mapping = "=3.7.2"
protobuf-parse = "=3.7.2"
rdkafka = { version = "=0.36.2", default-features = false }
reqwest = { version = "=0.11.27", default-features = false, features = ["blocking"] }
serde = { version = "=1.0.229", features = ["derive"] }
serde_json = "=1.0.154"
tracing = "=0.1.44"
tracing-subscriber = "=0.3.23"
uuid = { version = "=1.29.0", features = ["v4"] }
