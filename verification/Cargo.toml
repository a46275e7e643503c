[package]
name = "rumqttd_router"
version = "0.1.0"
edition = "2021"
publish = false

[dependencies]
bytes = "1"
slab = "0.4"
flume = "0.11"
thiserror = "1"
tracing = "0.1"
