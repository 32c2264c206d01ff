[package]
name = "nexus_engine"
version = "0.1.0"
edition = "2021"
publish = false

[dependencies]
noise = "*"
serde = { version = "1", features = ["derive"] }
serde_json = "1"
wasm-bindgen = "0.2"
console_error_panic_hook = "0.1"
web-time = "1"
bytemuck = { version = "1", features = ["derive"] }
web-sys = "0.3"
wgpu = "*"
