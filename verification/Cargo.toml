[package]
name = "comfy_wars"
version = "0.1.0"
edition = "2021"
publish = false

[dependencies]
cosync = "*"
libloading = "*"
macroquad = "*"
nanoserde = "*"
notify = "*"
