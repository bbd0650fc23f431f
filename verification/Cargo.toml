[package]
name = "freq_remapper"
version = "0.1.0"
edition = "2021"
publish = false

[dependencies]
rhai = { version = "1", features = ["f32_float", "sync"] }
rhai-rand = "0.1"
rustfft = "6"
time = "0.3"
dirs = "5"
cfg-if = "1"
lazy_static = "1"
