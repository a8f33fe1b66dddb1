[package]
name = "p2p-screenshare"
version = "0.2.0"
edition = "2021"
publish = false

[dependencies]
anyhow = "1"
clap = { version = "4", default-features = false, features = ["std", "derive", "help", "usage", "error-context"] }
crossbeam-channel = "0.5"
directories = "5"
eframe = { version = "0.28", default-features = false, features = ["glow"] }
egui_plot = { version = "0.28", default-features = false }
jpeg-encoder = "0.6"
parking_lot = "0.12"
regex = "1"
scrap = "0.5"
serde = { version = "1", features = ["derive"] }
serde_json = "1"
softbuffer = { version = "0.4", default-features = false, features = ["x11", "x11-dlopen"] }
winit = { version = "0.29", default-features = false, features = ["x11", "rwh_06"] }
xxhash-rust = { version = "0.8", features = ["xxh3"] }
zune-core = "0.5"
zune-jpeg = "0.5"
