[package]
name = "modelica_rust_ffi"
version = "0.1.0"
edition = "2021"
publish = false

[dependencies]
thiserror = "=1.0.69"
uuid = { version = "=1.29.0", features = ["v4"] }
