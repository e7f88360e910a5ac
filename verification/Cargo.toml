[package]
name = "many_time_pad"
version = "0.1.0"
edition = "2021"
publish = false

[dependencies]
clap = { version = "4", features = ["derive"] }
eframe = { version = "0.23", default-features = false, features = ["default_fonts", "glow"] }
egui = "0.23"
encoding = "0.2"
env_logger = "0.10"
log = "0.4"
wasm-bindgen-futures = "0.4"
