[package]
name = "coap_server"
version = "0.1.0"
edition = "2021"
publish = false

[dependencies]
tokio = { version = "1", features = ["net", "rt", "sync", "time", "macros"] }
futures = "0.3"
log = "0.4"

[dev-dependencies]
coap-lite = "*"
