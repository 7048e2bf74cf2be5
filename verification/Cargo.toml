[package]
name = "regolith"
version = "0.1.0"
edition = "2021"
publish = false

[dependencies]
kovan-mvcc = "=0.1.22"
thiserror = "=2.0.21"
tracing = "=0.1.44"
