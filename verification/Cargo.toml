[package]
name = "archive_viewer"
version = "0.1.0"
edition = "2021"
publish = false

[dependencies]
ruzstd = "*"
prost = "*"
prost-reflect = "*"
asmap = "*"
asinfo = "*"
serde = { version = "1", features = ["derive"] }
serde_json = "1"
wasm-bindgen = "0.2"
console_error_panic_hook = "0.1"

[dev-dependencies]
zstd = "*"
