[package]
name = "four_fours"
version = "0.1.0"
edition = "2021"
publish = false

[dependencies]
fnv = "1.0"
log = "0.4"
env_logger = "*"
rayon = "1"
dashmap = { version = "*", features = ["rayon"] }
cfg-if = "1"
wasm-bindgen = "0.2"
js-sys = "0.3"
wasm-logger = "*"
wasm-bindgen-rayon = "*"
