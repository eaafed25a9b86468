[package]
name = "markdown_table_formatter"
version = "0.1.0"
edition = "2021"

[dependencies]
comrak = { version = "=0.18.0", default-features = false }
unicode-display-width = "=0.3.0"
wasm-bindgen = "0.2"
