[package]
name = "amberol_glass_lyrics"
version = "0.1.0"
edition = "2021"
publish = false

[dependencies]
gettext-rs = "0.7"
gl = "0.14"
gstreamer = "0.23"
gtk4 = { version = "0.9", features = ["v4_12"] }
libadwaita = "0.7"
log = "0.4"
once_cell = "1"
pangocairo = "0.20"
pretty_env_logger = "0.5"
regex = "1"
