[package]
name = "trine_kv"
version = "0.1.0"
edition = "2021"
publish = false

[dependencies]
bytes = "=1.12.1"
compio = { version = "=0.19.2", features = ["fs"] }
crossbeam-channel = "=0.5.17"
fs4 = "=1.1.0"
futures = "=0.3.34"
sha2 = "=0.10.9"
