[package]
name = "sse_parser"
version = "0.1.0"
edition = "2021"
publish = false

[dependencies]
compact_str = { version = "*", features = ["serde"] }
memchr = "2"
smallvec = "1"
serde = { version = "1", features = ["derive"] }
wasm-bindgen = "0.2"
serde-wasm-bindgen = "0.6"
