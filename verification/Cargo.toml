[package]
name = "chore_list"
version = "0.1.0"
edition = "2021"
publish = false

[dependencies]
eframe = { version = "0.19", features = ["persistence"] }
egui_extras = "0.19"
log = "0.4"
