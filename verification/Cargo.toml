[package]
name = "signing_core"
version = "0.1.0"
edition = "2021"
publish = false

[dependencies]
sha3 = "=0.10.9"
hex = "=0.4.3"
parity-scale-codec = "=3.7.5"
parking_lot = "=0.12.5"
sync_wrapper = "=1.0.2"
tokio = { version = "=1.53.2", features = ["rt", "sync", "time", "macros"] }
tracing = "=0.1.44"
tracing-subscriber = { version = "=0.3.23", features = ["env-filter", "fmt"] }
webb-proposals = { version = "=0.8.0", default-features = false, features = ["scale", "serde"] }
