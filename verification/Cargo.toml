[package]
name = "identity_core"
version = "0.1.0"
edition = "2021"
publish = false

[dependencies]
chrono = "0.4"
proc-macro2 = "1"
syn = "1"
