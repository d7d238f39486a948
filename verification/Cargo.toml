[package]
name = "image_bench"
version = "0.9.0"
edition = "2021"
publish = false

[dependencies]
fast_image_resize = "*"
glycin = "*"
gtk4 = "*"
libadwaita = "*"
gettext-rs = "*"
wgpu = "*"
