[package]
name = "mosaic_core"
version = "0.1.0"
edition = "2021"
publish = false

[dependencies]
zstd = "=0.13.4"
arrow-array = { version = "=60.1.0", features = ["ffi"] }
arrow-buffer = "=60.1.0"
arrow-schema = { version = "=60.1.0", features = ["ffi"] }
jni = "0.21"
