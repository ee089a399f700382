[package]
name = "brainfuck"
version = "0.1.0"
edition = "2021"
publish = false

[dependencies]
anyhow = "1"
clap = { version = "4", features = ["derive"] }
js-sys = "0.3"
wasm-bindgen = "0.2"
