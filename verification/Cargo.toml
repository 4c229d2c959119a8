[package]
name = "unique_type_id"
version = "1.0.0"
edition = "2021"
publish = false

[dependencies]
fs2 = "0.4"
proc-macro2 = "1"
quote = "1"
syn = "2"
