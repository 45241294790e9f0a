[package]
name = "wasm_link"
version = "0.1.0"
edition = "2021"
publish = false

[dependencies]
futures = "=0.3.34"
thiserror = "=2.0.21"
wasmtime = { version = "=48.0.8", default-features = false, features = ["std", "runtime", "cranelift", "async", "component-model", "component-model-async", "wat"] }
