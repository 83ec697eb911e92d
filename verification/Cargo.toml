[package]
name = "ring_promise"
version = "0.1.0"
edition = "2021"

[dependencies]
oneshot = "=0.1.13"
promisery = "=2.0.1"
