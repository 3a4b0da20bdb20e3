[package]
name = "event-listener"
version = "0.1.0"
edition = "2021"
publish = false

[dependencies]
crossbeam-utils = "0.8"
parking = "2"
slab = "0.4"

[dev-dependencies]
waker-fn = "1"
