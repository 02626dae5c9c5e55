[package]
name = "markdown_records"
version = "0.1.0"
edition = "2021"
publish = false

[dependencies]
comrak = { version = "0.14", default-features = false }
js-sys = "0.3"
serde = { version = "1", features = ["derive"] }
wasm-bindgen = { version = "0.2", features = ["serde-serialize"] }
