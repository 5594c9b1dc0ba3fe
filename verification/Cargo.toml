[package]
name = "dawm"
version = "0.1.0"
edition = "2021"
publish = false

[dependencies]
derive_more = { version = "*", features = ["full"] }
html5ever = "*"
js-sys = "*"
markup5ever = "*"
moos = "*"
serde = { version = "*", features = ["derive"] }
serde_repr = "*"
serde-wasm-bindgen = "*"
tendril = "*"
wasm-bindgen = "*"
xml5ever = "*"
