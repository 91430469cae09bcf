[package]
name = "meread"
version = "0.1.0"
edition = "2021"
publish = false

[dependencies]
mime_guess = "*"
rouille = "*"
bus = "*"
open = "*"
clap = { version = "*", features = ["derive"] }
clap_mangen = "*"
color-eyre = "*"
jiff = "*"
notify = "*"
notify-debouncer-full = "*"
comrak = { version = "*", default-features = false }
